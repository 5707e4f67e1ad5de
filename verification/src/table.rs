//! The automaton builder: canonical state discovery over item sets and the
//! action/goto table fill.
//!
//! States are discovered by a work list: state 0 is the closure of the
//! synthetic start item; for each state and each grammar symbol, a non-empty
//! goto move either reaches an already-known state (set equality) or founds
//! a new one. The table is then filled one state at a time, visiting the
//! state's items in canonical order; a cell once written is never
//! overwritten, except that recognizing the synthetic start production
//! always writes `Accept` into the end-marker column.

use vstd::prelude::*;
use vstd::set_lib::lemma_len_subset;
use vstd::set_lib::set_int_range;
use vstd::set_lib::lemma_int_range;
use vstd::arithmetic::power2::pow2;
use vstd::arithmetic::power2::lemma_pow2_pos;
use vstd::arithmetic::power2::lemma_pow2_unfold;
use vstd::arithmetic::power2::lemma_pow2_strictly_increases;
use crate::grammar::Production;
use crate::grammar::prod_views;
use crate::grammar::reducer_views;
use crate::grammar::terminals_of;
use crate::grammar::nonterminals_of;
use crate::grammar::lemma_dedup_from;
use crate::grammar::lefts_of;
use crate::grammar::rhs_concat;
use crate::grammar::contains_char;
use crate::items::Item;
use crate::items::item_wf;
use crate::items::items_wf;
use crate::items::item_code;
use crate::items::item_universe;
use crate::items::item_lt;
use crate::items::sorted_items;
use crate::items::closure_post;
use crate::items::goto_kernel;
use crate::items::closed;
use crate::items::next_sym;
use crate::items::item_expansion_in;
use crate::items::lemma_item_code_range;
use crate::items::lemma_item_code_injective;
use crate::parser::Action;
use crate::parser::Parser;

verus! {

/// The augmented production list: a synthetic start production, whose right
/// side is the start symbol alone, followed by the user productions in file
/// order. The synthetic left symbol is never consulted, so the start symbol
/// itself stands in for it.
pub open spec fn aug_prods(r: Seq<(char, Seq<char>)>) -> Seq<(char, Seq<char>)> {
    seq![(r[0].0, seq![r[0].0])] + r
}

/// The table's column order: terminals in first-occurrence order, the end
/// marker `'$'` unless it is already a grammar symbol, then nonterminals in
/// first-occurrence order.
pub open spec fn symbols_of(r: Seq<(char, Seq<char>)>) -> Seq<char> {
    let ts = terminals_of(r);
    let nts = nonterminals_of(r);
    if ts.contains('$') || nts.contains('$') {
        ts + nts
    } else {
        ts + seq!['$'] + nts
    }
}

/// The first column holding the symbol, or `-1` if there is none.
pub open spec fn col_of(symbols: Seq<char>, c: char) -> int
    decreases symbols.len(),
{
    if symbols.len() == 0 {
        -1
    } else if symbols[0] == c {
        0
    } else {
        let r = col_of(symbols.drop_first(), c);
        if r < 0 {
            -1
        } else {
            r + 1
        }
    }
}

/// `col_of` names the least column holding the symbol, when one exists.
pub proof fn lemma_col_of(symbols: Seq<char>, c: char)
    ensures
        symbols.contains(c) ==> 0 <= col_of(symbols, c) < symbols.len() && symbols[col_of(
            symbols,
            c,
        )] == c && (forall|j: int| 0 <= j < col_of(symbols, c) ==> symbols[j] != c),
        !symbols.contains(c) ==> col_of(symbols, c) == -1,
    decreases symbols.len(),
{
    if symbols.len() > 0 {
        let d = symbols.drop_first();
        lemma_col_of(d, c);
        if symbols[0] == c {
            assert(symbols.contains(c)) by {
                assert(symbols[0] == c);
            }
        } else {
            assert forall|y: char| d.contains(y) implies symbols.contains(y) by {
                let i = choose|i: int| 0 <= i < d.len() && d[i] == y;
                assert(symbols[i + 1] == y);
            }
            assert forall|y: char| symbols.contains(y) implies y == symbols[0] || d.contains(
                y,
            ) by {
                let i = choose|i: int| 0 <= i < symbols.len() && symbols[i] == y;
                if i > 0 {
                    assert(d[i - 1] == y);
                }
            }
            if symbols.contains(c) {
                assert(d.contains(c));
                let r = col_of(d, c);
                assert(col_of(symbols, c) == r + 1);
                assert(d[r] == c);
                assert(symbols[r + 1] == d[r]);
                assert forall|j: int| 0 <= j < r + 1 implies symbols[j] != c by {
                    if j > 0 {
                        assert(d[j - 1] == symbols[j]);
                        assert(d[j - 1] != c);
                    }
                }
            } else {
                assert(!d.contains(c));
            }
        }
    }
}

/// The mathematical image of a state list.
pub open spec fn states_views(v: Seq<Vec<Item>>) -> Seq<Seq<Item>> {
    Seq::new(v.len(), |i: int| v[i]@)
}

/// The mathematical image of a table.
pub open spec fn table_views(v: Seq<Vec<Action>>) -> Seq<Seq<Action>> {
    Seq::new(v.len(), |i: int| v[i]@)
}

/// The numeric name of an item set: one bit per item code.
pub open spec fn mask_of(s: Seq<Item>, prods: Seq<(char, Seq<char>)>) -> int
    decreases s.len(),
{
    if s.len() == 0 {
        0
    } else {
        mask_of(s.drop_last(), prods) + pow2(item_code(s.last(), prods) as nat)
    }
}

/// The item order refines the code order on well-formed items.
proof fn lemma_item_code_lt(a: Item, b: Item, prods: Seq<(char, Seq<char>)>)
    requires
        item_wf(a, prods),
        item_wf(b, prods),
        item_lt(a, b),
    ensures
        item_code(a, prods) < item_code(b, prods),
{
    crate::items::lemma_max_rhs(prods);
    let m = max_rhs_plus(prods);
    assert(a.dot < m && b.dot <= prods[b.prod as int].1.len());
    assert(item_code(a, prods) < item_code(b, prods)) by (nonlinear_arith)
        requires
            0 <= a.dot < m,
            0 <= b.dot,
            a.prod < b.prod || (a.prod == b.prod && a.dot < b.dot),
            item_code(a, prods) == a.prod * m + a.dot,
            item_code(b, prods) == b.prod * m + b.dot,
    {
    }
}

/// The stride the item codes use.
pub open spec fn max_rhs_plus(prods: Seq<(char, Seq<char>)>) -> int {
    (crate::items::max_rhs(prods) + 1) as int
}

/// The mask of a sorted, well-formed item sequence with codes below `bound`
/// lies below `pow2(bound)`.
proof fn lemma_mask_bound(s: Seq<Item>, prods: Seq<(char, Seq<char>)>, bound: nat)
    requires
        sorted_items(s),
        items_wf(s, prods),
        forall|i: int| 0 <= i < s.len() ==> item_code(#[trigger] s[i], prods) < bound,
    ensures
        0 <= mask_of(s, prods) < pow2(bound),
    decreases s.len(),
{
    lemma_pow2_pos(bound);
    if s.len() > 0 {
        let last = s.last();
        let rest = s.drop_last();
        let code = item_code(last, prods) as nat;
        assert(0 <= item_code(last, prods)) by {
            lemma_item_code_range(last, prods);
        }
        assert forall|i: int| 0 <= i < rest.len() implies item_code(#[trigger] rest[i], prods)
            < code by {
            assert(rest[i] == s[i]);
            assert(item_lt(s[i], last));
            lemma_item_code_lt(s[i], last, prods);
        }
        assert(forall|i: int| 0 <= i < rest.len() ==> rest[i] == s[i]);
        lemma_mask_bound(rest, prods, code);
        lemma_pow2_unfold((code + 1) as nat);
        assert(mask_of(s, prods) == mask_of(rest, prods) + pow2(code));
        assert(mask_of(s, prods) < pow2(code) + pow2(code));
        assert(pow2((code + 1) as nat) == 2 * pow2(code));
        if code + 1 < bound {
            lemma_pow2_strictly_increases((code + 1) as nat, bound);
        }
        assert(mask_of(s, prods) < pow2(bound));
    }
}

/// A non-empty sorted, well-formed item sequence has a positive mask.
proof fn lemma_nonempty_mask_positive(s: Seq<Item>, prods: Seq<(char, Seq<char>)>)
    requires
        sorted_items(s),
        items_wf(s, prods),
        s.len() > 0,
    ensures
        mask_of(s, prods) > 0,
{
    let code = item_code(s.last(), prods) as nat;
    lemma_item_code_range(s.last(), prods);
    lemma_pow2_pos(code);
    let rest = s.drop_last();
    assert(forall|i: int| 0 <= i < rest.len() ==> rest[i] == s[i]);
    assert forall|i: int| 0 <= i < rest.len() implies item_code(#[trigger] rest[i], prods)
        < code by {
        assert(item_lt(s[i], s.last()));
        lemma_item_code_lt(s[i], s.last(), prods);
    }
    lemma_mask_bound(rest, prods, code);
    assert(mask_of(s, prods) == mask_of(rest, prods) + pow2(code));
}

/// Two sorted, well-formed item sequences with the same mask are equal.
proof fn lemma_mask_injective(a: Seq<Item>, b: Seq<Item>, prods: Seq<(char, Seq<char>)>)
    requires
        sorted_items(a),
        sorted_items(b),
        items_wf(a, prods),
        items_wf(b, prods),
        mask_of(a, prods) == mask_of(b, prods),
    ensures
        a == b,
    decreases a.len() + b.len(),
{
    if a.len() == 0 && b.len() == 0 {
        assert(a =~= b);
    } else if a.len() == 0 {
        lemma_nonempty_mask_positive(b, prods);
        assert(false);
    } else if b.len() == 0 {
        lemma_nonempty_mask_positive(a, prods);
        assert(false);
    } else {
        let ca = item_code(a.last(), prods) as nat;
        let cb = item_code(b.last(), prods) as nat;
        let ra = a.drop_last();
        let rb = b.drop_last();
        assert(forall|i: int| 0 <= i < ra.len() ==> ra[i] == a[i]);
        assert(forall|i: int| 0 <= i < rb.len() ==> rb[i] == b[i]);
        assert forall|i: int| 0 <= i < ra.len() implies item_code(#[trigger] ra[i], prods)
            < ca by {
            assert(item_lt(a[i], a.last()));
            lemma_item_code_lt(a[i], a.last(), prods);
        }
        assert forall|i: int| 0 <= i < rb.len() implies item_code(#[trigger] rb[i], prods)
            < cb by {
            assert(item_lt(b[i], b.last()));
            lemma_item_code_lt(b[i], b.last(), prods);
        }
        lemma_mask_bound(ra, prods, ca);
        lemma_mask_bound(rb, prods, cb);
        if ca < cb {
            lemma_pow2_unfold((ca + 1) as nat);
            if ca + 1 < cb {
                lemma_pow2_strictly_increases((ca + 1) as nat, cb);
            }
            assert(mask_of(a, prods) < pow2(ca) + pow2(ca));
            assert(mask_of(b, prods) >= pow2(cb));
            assert(false);
        }
        if cb < ca {
            lemma_pow2_unfold((cb + 1) as nat);
            if cb + 1 < ca {
                lemma_pow2_strictly_increases((cb + 1) as nat, ca);
            }
            assert(mask_of(b, prods) < pow2(cb) + pow2(cb));
            assert(mask_of(a, prods) >= pow2(ca));
            assert(false);
        }
        assert(ca == cb);
        lemma_item_code_injective(a.last(), b.last(), prods);
        assert(mask_of(ra, prods) == mask_of(rb, prods));
        lemma_mask_injective(ra, rb, prods);
        assert(a.len() == b.len());
        assert forall|k: int| 0 <= k < a.len() implies a[k] == b[k] by {
            if k < a.len() - 1 {
                assert(a[k] == ra[k] && b[k] == rb[k]);
            }
        }
        assert(a =~= b);
    }
}

/// Pairwise distinct canonical item sequences over one production list are
/// no more numerous than the subsets of the item universe.
proof fn lemma_states_count(states: Seq<Seq<Item>>, prods: Seq<(char, Seq<char>)>)
    requires
        forall|i: int|
            0 <= i < states.len() ==> sorted_items(#[trigger] states[i]) && items_wf(
                states[i],
                prods,
            ),
        forall|i: int, j: int| 0 <= i < j < states.len() ==> states[i] != states[j],
    ensures
        states.len() <= pow2(item_universe(prods) as nat),
{
    let u = item_universe(prods) as nat;
    let masks = states.map_values(|s: Seq<Item>| mask_of(s, prods));
    assert(masks.len() == states.len());
    assert forall|i: int| 0 <= i < masks.len() implies 0 <= #[trigger] masks[i] < pow2(u) by {
        assert forall|k: int| 0 <= k < states[i].len() implies item_code(
            #[trigger] states[i][k],
            prods,
        ) < u by {
            lemma_item_code_range(states[i][k], prods);
        }
        lemma_mask_bound(states[i], prods, u);
    }
    assert(masks.no_duplicates()) by {
        assert forall|i: int, j: int|
            0 <= i < masks.len() && 0 <= j < masks.len() && i != j implies masks[i] != masks[j] by {
            if masks[i] == masks[j] {
                lemma_mask_injective(states[i], states[j], prods);
            }
        }
    }
    masks.unique_seq_to_set();
    let range = set_int_range(0, pow2(u) as int);
    lemma_int_range(0, pow2(u) as int);
    assert(masks.to_set().subset_of(range)) by {
        assert forall|c: int| masks.to_set().contains(c) implies range.contains(c) by {
            let i = choose|i: int| 0 <= i < masks.len() && masks[i] == c;
        }
    }
    lemma_len_subset(masks.to_set(), range);
}

/// The dotted start item the automaton begins from.
pub open spec fn start_item() -> Item {
    Item { prod: 0, dot: 0 }
}

/// The recognized start item: the dot past the start symbol.
pub open spec fn accept_item() -> Item {
    Item { prod: 0, dot: 1 }
}

/// A well-formed discovered state list: state 0 is the closure of the start
/// item; every state is canonical, well formed and non-empty; no two states
/// hold the same item set; and every non-empty goto move from a state leads
/// to a state of the list.
pub open spec fn states_ok(
    prods: Seq<(char, Seq<char>)>,
    states: Seq<Seq<Item>>,
    symbols: Seq<char>,
) -> bool {
    &&& states.len() >= 1
    &&& closure_post(prods, Set::empty().insert(start_item()), states[0])
    &&& forall|i: int|
        0 <= i < states.len() ==> sorted_items(#[trigger] states[i]) && items_wf(states[i], prods)
            && states[i].len() >= 1
    &&& forall|i: int, j: int| 0 <= i < j < states.len() ==> states[i] != states[j]
    &&& forall|i: int, c: int|
        #![trigger goto_kernel(states[i].to_set(), symbols[c], prods)]
        0 <= i < states.len() && 0 <= c < symbols.len() && (exists|w: Item|
            goto_kernel(states[i].to_set(), symbols[c], prods).contains(w)) ==> exists|j: int|
            0 <= j < states.len() && closure_post(
                prods,
                goto_kernel(states[i].to_set(), symbols[c], prods),
                states[j],
            )
}

/// What a single non-`Error` cell claims: a `Shift` or `Goto` leads to the
/// state that is the goto move of its row's state on its column's symbol; a
/// `Reduce` names a user production recognized in full by an item of the
/// row's state, in a terminal or end-marker column; `Accept` marks the end
/// column of a state that has recognized the start symbol.
pub open spec fn cell_ok(
    prods: Seq<(char, Seq<char>)>,
    states: Seq<Seq<Item>>,
    symbols: Seq<char>,
    terminals: Seq<char>,
    i: int,
    c: int,
    a: Action,
) -> bool {
    match a {
        Action::Error => true,
        Action::Shift(s) => 0 <= s < states.len() && terminals.contains(symbols[c])
            && closure_post(
            prods,
            goto_kernel(states[i].to_set(), symbols[c], prods),
            states[s as int],
        ),
        Action::Goto(s) => 0 <= s < states.len() && !terminals.contains(symbols[c])
            && closure_post(
            prods,
            goto_kernel(states[i].to_set(), symbols[c], prods),
            states[s as int],
        ),
        Action::Reduce(p) => 1 <= p < prods.len() && states[i].contains(
            Item { prod: p, dot: prods[p as int].1.len() as usize },
        ) && (terminals.contains(symbols[c]) || symbols[c] == '$'),
        Action::Accept => states[i].contains(accept_item()) && symbols[c] == '$',
    }
}

/// Every cell of the table is justified.
pub open spec fn cells_sound(
    prods: Seq<(char, Seq<char>)>,
    states: Seq<Seq<Item>>,
    symbols: Seq<char>,
    terminals: Seq<char>,
    table: Seq<Seq<Action>>,
) -> bool {
    forall|i: int, c: int|
        0 <= i < table.len() && 0 <= c < table[i].len() ==> cell_ok(
            prods,
            states,
            symbols,
            terminals,
            i,
            c,
            #[trigger] table[i][c],
        )
}

/// No proposal is dropped: an item with its dot before a symbol makes that
/// symbol's cell non-`Error`; a recognized user production makes every
/// terminal and end-marker cell of its row non-`Error`; a recognized start
/// production makes its row's end cell `Accept`.
pub open spec fn cells_complete(
    prods: Seq<(char, Seq<char>)>,
    states: Seq<Seq<Item>>,
    symbols: Seq<char>,
    terminals: Seq<char>,
    table: Seq<Seq<Action>>,
) -> bool {
    &&& forall|i: int, k: int|
        0 <= i < states.len() && 0 <= k < states[i].len() && (#[trigger] states[i][k]).dot
            < prods[states[i][k].prod as int].1.len() ==> table[i][col_of(
            symbols,
            next_sym(states[i][k], prods),
        )] != Action::Error
    &&& forall|i: int, k: int, c: int|
        0 <= i < states.len() && 0 <= k < states[i].len() && 0 <= c < symbols.len() && (
        #[trigger] states[i][k]).dot == prods[states[i][k].prod as int].1.len()
            && states[i][k].prod >= 1 && (terminals.contains(#[trigger] symbols[c]) || symbols[c]
            == '$') ==> table[i][c] != Action::Error
    &&& forall|i: int|
        0 <= i < states.len() && (#[trigger] states[i]).contains(accept_item()) ==> table[i][col_of(
            symbols,
            '$',
        )] == Action::Accept
}

/// The full account of a built table: some discovered state list explains
/// every cell, and every proposal of every state has left its mark.
pub open spec fn table_ok(
    rv: Seq<(char, Seq<char>)>,
    symbols: Seq<char>,
    table: Seq<Seq<Action>>,
) -> bool {
    exists|states: Seq<Seq<Item>>|
        {
            &&& #[trigger] states_ok(aug_prods(rv), states, symbols)
            &&& states.len() == table.len()
            &&& cells_sound(aug_prods(rv), states, symbols, terminals_of(rv), table)
            &&& cells_complete(aug_prods(rv), states, symbols, terminals_of(rv), table)
        }
}

/// Any table the builder accounts for can accept: some state has recognized
/// the start symbol, and its end-marker cell holds `Accept`.
pub proof fn lemma_accept_cell_exists(
    rv: Seq<(char, Seq<char>)>,
    symbols: Seq<char>,
    table: Seq<Seq<Action>>,
)
    requires
        rv.len() >= 1,
        symbols == symbols_of(rv),
        table_ok(rv, symbols, table),
        table_basic(symbols, table, rv.len() as int + 1),
    ensures
        exists|i: int, c: int|
            0 <= i < table.len() && 0 <= c < table[i].len() && #[trigger] table[i][c]
                == Action::Accept,
{
    let prods = aug_prods(rv);
    let states = choose|states: Seq<Seq<Item>>|
        {
            &&& #[trigger] states_ok(prods, states, symbols)
            &&& states.len() == table.len()
            &&& cells_sound(prods, states, symbols, terminals_of(rv), table)
            &&& cells_complete(prods, states, symbols, terminals_of(rv), table)
        };
    let start = rv[0].0;
    assert(lefts_of(rv)[0] == start);
    assert(lefts_of(rv).contains(start));
    lemma_grammar_symbol_in(rv, start);
    lemma_col_of(symbols, start);
    let sc = col_of(symbols, start);
    assert(0 <= sc < symbols.len() && symbols[sc] == start);
    let kernel = goto_kernel(states[0].to_set(), symbols[sc], prods);
    assert(states[0].to_set().contains(start_item())) by {
        assert(Set::empty().insert(start_item()).contains(start_item()));
    }
    assert(kernel.contains(accept_item())) by {
        assert(prods[0].1.len() == 1);
        assert(item_wf(accept_item(), prods));
        assert(prods[0].1[0] == start);
        assert(Item { prod: accept_item().prod, dot: (accept_item().dot - 1) as usize }
            == start_item());
    }
    let j = choose|j: int|
        0 <= j < states.len() && closure_post(
            prods,
            goto_kernel(states[0].to_set(), symbols[sc], prods),
            states[j],
        );
    assert(states[j].to_set().contains(accept_item()));
    assert(states[j].contains(accept_item()));
    lemma_dollar_in_symbols(rv);
    lemma_col_of(symbols, '$');
    let dc = col_of(symbols, '$');
    assert(table[j][dc] == Action::Accept);
    assert(0 <= dc < table[j].len());
}

/// A single action's indices are in range.
pub open spec fn action_ok(a: Action, n_states: int, n_aug_prods: int) -> bool {
    match a {
        Action::Shift(s) => (s as int) < n_states,
        Action::Goto(s) => (s as int) < n_states,
        Action::Reduce(p) => 1 <= p < n_aug_prods,
        Action::Accept => true,
        Action::Error => true,
    }
}

/// The shape the parse driver relies on: at least one state, rectangular
/// rows, and every index in range.
pub open spec fn table_basic(
    symbols: Seq<char>,
    table: Seq<Seq<Action>>,
    n_aug_prods: int,
) -> bool {
    &&& table.len() >= 1
    &&& forall|i: int| 0 <= i < table.len() ==> (#[trigger] table[i]).len() == symbols.len()
    &&& forall|i: int, c: int|
        0 <= i < table.len() && 0 <= c < table[i].len() ==> action_ok(
            #[trigger] table[i][c],
            table.len() as int,
            n_aug_prods,
        )
}

/// Every right-hand symbol occurs in the concatenated right-hand stream.
proof fn lemma_rhs_concat_contains(r: Seq<(char, Seq<char>)>, p: int, k: int)
    requires
        0 <= p < r.len(),
        0 <= k < r[p].1.len(),
    ensures
        rhs_concat(r).contains(r[p].1[k]),
    decreases p,
{
    if p == 0 {
        assert(rhs_concat(r) == r[0].1 + rhs_concat(r.drop_first()));
        assert((r[0].1 + rhs_concat(r.drop_first()))[k] == r[p].1[k]);
    } else {
        lemma_rhs_concat_contains(r.drop_first(), p - 1, k);
        let rest = rhs_concat(r.drop_first());
        let i = choose|i: int| 0 <= i < rest.len() && rest[i] == r.drop_first()[p - 1].1[k];
        assert(rhs_concat(r) == r[0].1 + rest);
        assert((r[0].1 + rest)[r[0].1.len() + i] == rest[i]);
        assert(r.drop_first()[p - 1] == r[p]);
    }
}

/// A symbol of the grammar stands in the symbol list: every left-hand
/// symbol, and every right-hand symbol.
proof fn lemma_grammar_symbol_in(rv: Seq<(char, Seq<char>)>, c: char)
    requires
        lefts_of(rv).contains(c) || rhs_concat(rv).contains(c),
    ensures
        symbols_of(rv).contains(c),
{
    let ts = terminals_of(rv);
    let nts = nonterminals_of(rv);
    lemma_dedup_from(lefts_of(rv), Set::<char>::empty());
    lemma_dedup_from(rhs_concat(rv), lefts_of(rv).to_set());
    if lefts_of(rv).contains(c) {
        assert(nts.contains(c));
    } else {
        assert(!lefts_of(rv).to_set().contains(c));
        assert(ts.contains(c));
    }
    if ts.contains(c) {
        let i = choose|i: int| 0 <= i < ts.len() && ts[i] == c;
        if ts.contains('$') || nts.contains('$') {
            assert((ts + nts)[i] == c);
        } else {
            assert((ts + seq!['$'] + nts)[i] == c);
        }
    } else {
        assert(nts.contains(c));
        let i = choose|i: int| 0 <= i < nts.len() && nts[i] == c;
        if ts.contains('$') || nts.contains('$') {
            assert((ts + nts)[ts.len() + i] == c);
        } else {
            assert((ts + seq!['$'] + nts)[ts.len() + 1 + i] == c);
        }
    }
}

/// The end marker always stands in the symbol list.
proof fn lemma_dollar_in_symbols(rv: Seq<(char, Seq<char>)>)
    ensures
        symbols_of(rv).contains('$'),
{
    let ts = terminals_of(rv);
    let nts = nonterminals_of(rv);
    if ts.contains('$') {
        let i = choose|i: int| 0 <= i < ts.len() && ts[i] == '$';
        assert((ts + nts)[i] == '$');
    } else if nts.contains('$') {
        let i = choose|i: int| 0 <= i < nts.len() && nts[i] == '$';
        assert((ts + nts)[ts.len() + i] == '$');
    } else {
        assert((ts + seq!['$'] + nts)[ts.len() as int] == '$');
    }
}

/// The symbol after any dot stands in the symbol list.
proof fn lemma_next_sym_in_symbols(rv: Seq<(char, Seq<char>)>, it: Item)
    requires
        rv.len() >= 1,
        item_wf(it, aug_prods(rv)),
        (it.dot as int) < aug_prods(rv)[it.prod as int].1.len(),
    ensures
        symbols_of(rv).contains(next_sym(it, aug_prods(rv))),
{
    let prods = aug_prods(rv);
    let c = next_sym(it, prods);
    if it.prod == 0 {
        assert(prods[0].1 == seq![rv[0].0]);
        assert(c == rv[0].0);
        assert(lefts_of(rv)[0] == rv[0].0);
        assert(lefts_of(rv).contains(c));
        lemma_grammar_symbol_in(rv, c);
    } else {
        assert(prods[it.prod as int] == rv[it.prod - 1]);
        assert(c == rv[it.prod - 1].1[it.dot as int]);
        lemma_rhs_concat_contains(rv, it.prod - 1, it.dot as int);
        lemma_grammar_symbol_in(rv, c);
    }
}

/// A non-empty closure comes from a non-empty kernel, and the other way
/// round.
proof fn lemma_closure_empty(prods: Seq<(char, Seq<char>)>, kernel: Set<Item>, out: Seq<Item>)
    requires
        closure_post(prods, kernel, out),
    ensures
        (out.len() > 0) <==> (exists|w: Item| kernel.contains(w)),
{
    if exists|w: Item| kernel.contains(w) {
        let w = choose|w: Item| kernel.contains(w);
        assert(out.to_set().contains(w));
        assert(out.contains(w));
    } else {
        assert(closed(Set::<Item>::empty(), prods)) by {
            assert forall|it: Item| Set::<Item>::empty().contains(it) implies item_expansion_in(
                Set::<Item>::empty(),
                prods,
                it,
            ) by {
            }
        }
        assert(kernel.subset_of(Set::<Item>::empty())) by {
            assert forall|w: Item| kernel.contains(w) implies Set::<Item>::empty().contains(w) by {
                assert(false);
            }
        }
        assert(out.to_set().subset_of(Set::<Item>::empty()));
        if out.len() > 0 {
            assert(out.contains(out[0]));
            assert(out.to_set().contains(out[0]));
            assert(false);
        }
    }
}

/// Appending one state leaves the images of the earlier ones in place.
proof fn lemma_states_views_push(v: Seq<Vec<Item>>, x: Vec<Item>)
    ensures
        states_views(v.push(x)) == states_views(v).push(x@),
{
    assert forall|i: int| 0 <= i < v.len() + 1 implies states_views(v.push(x))[i] == states_views(
        v,
    ).push(x@)[i] by {
        if i < v.len() {
            assert(v.push(x)[i] == v[i]);
            assert(states_views(v).push(x@)[i] == states_views(v)[i]);
        } else {
            assert(v.push(x)[i] == x);
            assert(states_views(v).push(x@)[i] == x@);
        }
    }
    assert(states_views(v.push(x)) =~= states_views(v).push(x@));
}

/// The same for table rows.
proof fn lemma_table_views_push(v: Seq<Vec<Action>>, x: Vec<Action>)
    ensures
        table_views(v.push(x)) == table_views(v).push(x@),
{
    assert forall|i: int| 0 <= i < v.len() + 1 implies table_views(v.push(x))[i] == table_views(
        v,
    ).push(x@)[i] by {
        if i < v.len() {
            assert(v.push(x)[i] == v[i]);
            assert(table_views(v).push(x@)[i] == table_views(v)[i]);
        } else {
            assert(v.push(x)[i] == x);
            assert(table_views(v).push(x@)[i] == x@);
        }
    }
    assert(table_views(v.push(x)) =~= table_views(v).push(x@));
}

/// Whether two item vectors hold the same items in the same order.
fn item_vec_eq(a: &Vec<Item>, b: &Vec<Item>) -> (r: bool)
    ensures
        r == (a@ == b@),
{
    if a.len() != b.len() {
        proof {
            assert(a@ != b@);
        }
        return false;
    }
    let mut i: usize = 0;
    while i < a.len()
        invariant
            i <= a@.len(),
            a@.len() == b@.len(),
            forall|j: int| 0 <= j < i ==> a@[j] == b@[j],
        decreases a@.len() - i,
    {
        if a[i].prod != b[i].prod || a[i].dot != b[i].dot {
            return false;
        }
        i = i + 1;
    }
    proof {
        assert(a@ =~= b@);
    }
    true
}

/// The index of the state equal to the given item vector, if one is known.
fn find_state(states: &Vec<Vec<Item>>, g: &Vec<Item>) -> (r: Option<usize>)
    ensures
        match r {
            Some(j) => (j as int) < states@.len() && states@[j as int]@ == g@,
            None => forall|j: int| 0 <= j < states@.len() ==> states@[j]@ != g@,
        },
{
    let mut idx: usize = 0;
    while idx < states.len()
        invariant
            idx <= states@.len(),
            forall|j: int| 0 <= j < idx ==> states@[j]@ != g@,
        decreases states@.len() - idx,
    {
        if item_vec_eq(&states[idx], g) {
            return Some(idx);
        }
        idx = idx + 1;
    }
    None
}

/// The first column of the symbol it is given; the symbol must be a column.
fn col_lookup(symbols: &Vec<char>, c: char) -> (r: usize)
    requires
        symbols@.contains(c),
    ensures
        r as int == col_of(symbols@, c),
        r < symbols@.len(),
        symbols@[r as int] == c,
{
    proof {
        lemma_col_of(symbols@, c);
    }
    let mut i: usize = 0;
    while i < symbols.len()
        invariant
            i <= symbols@.len(),
            symbols@.contains(c),
            col_of(symbols@, c) >= i,
            forall|j: int| 0 <= j < i ==> symbols@[j] != c,
        decreases symbols@.len() - i,
    {
        proof {
            lemma_col_of(symbols@, c);
        }
        if symbols[i] == c {
            return i;
        }
        i = i + 1;
        proof {
            lemma_col_of(symbols@, c);
            if col_of(symbols@, c) < i {
                assert(symbols@[col_of(symbols@, c)] == c);
                assert(false);
            }
        }
    }
    proof {
        assert(symbols@[col_of(symbols@, c)] == c);
        assert(false);
    }
    0
}

/// The standing facts of state discovery: state 0 is the start closure,
/// every state is canonical, well formed and non-empty, and no two are
/// equal.
pub open spec fn disc_inv(prods: Seq<(char, Seq<char>)>, gstates: Seq<Seq<Item>>) -> bool {
    &&& gstates.len() >= 1
    &&& closure_post(prods, Set::empty().insert(start_item()), gstates[0])
    &&& forall|i: int|
        0 <= i < gstates.len() ==> sorted_items(#[trigger] gstates[i]) && items_wf(
            gstates[i],
            prods,
        ) && gstates[i].len() >= 1
    &&& forall|i: int, j: int| 0 <= i < j < gstates.len() ==> gstates[i] != gstates[j]
}

/// Whether the goto move of state `k` on column `c` has been given a state.
pub open spec fn handled(
    prods: Seq<(char, Seq<char>)>,
    symbols: Seq<char>,
    gstates: Seq<Seq<Item>>,
    k: int,
    c: int,
) -> bool {
    (exists|w: Item| goto_kernel(gstates[k].to_set(), symbols[c], prods).contains(w))
        ==> exists|j: int|
        0 <= j < gstates.len() && closure_post(
            prods,
            goto_kernel(gstates[k].to_set(), symbols[c], prods),
            gstates[j],
        )
}

/// Every goto move of the first `n` states has been given a state.
pub open spec fn states_closed_upto(
    prods: Seq<(char, Seq<char>)>,
    symbols: Seq<char>,
    gstates: Seq<Seq<Item>>,
    n: int,
) -> bool {
    forall|k: int, c: int|
        0 <= k < n && 0 <= c < symbols.len() ==> #[trigger] handled(prods, symbols, gstates, k, c)
}

/// Every goto move of state `k` on the first `m` columns has been given a
/// state.
pub open spec fn row_closed_upto(
    prods: Seq<(char, Seq<char>)>,
    symbols: Seq<char>,
    gstates: Seq<Seq<Item>>,
    k: int,
    m: int,
) -> bool {
    forall|c: int| 0 <= c < m ==> #[trigger] handled(prods, symbols, gstates, k, c)
}

/// Discovering one more state does not disturb what is already handled.
proof fn lemma_closed_grow(
    prods: Seq<(char, Seq<char>)>,
    symbols: Seq<char>,
    gstates: Seq<Seq<Item>>,
    x: Seq<Item>,
    n: int,
    k: int,
    m: int,
)
    requires
        states_closed_upto(prods, symbols, gstates, n),
        row_closed_upto(prods, symbols, gstates, k, m),
        0 <= n <= gstates.len(),
        0 <= k < gstates.len(),
    ensures
        states_closed_upto(prods, symbols, gstates.push(x), n),
        row_closed_upto(prods, symbols, gstates.push(x), k, m),
{
    let grown = gstates.push(x);
    assert(forall|i: int| 0 <= i < gstates.len() ==> grown[i] == gstates[i]);
    assert forall|k2: int, c: int|
        0 <= k2 < n && 0 <= c < symbols.len() implies #[trigger] handled(
        prods,
        symbols,
        grown,
        k2,
        c,
    ) by {
        assert(handled(prods, symbols, gstates, k2, c));
        if exists|w: Item| goto_kernel(grown[k2].to_set(), symbols[c], prods).contains(w) {
            let j = choose|j: int|
                0 <= j < gstates.len() && closure_post(
                    prods,
                    goto_kernel(gstates[k2].to_set(), symbols[c], prods),
                    gstates[j],
                );
            assert(grown[j] == gstates[j]);
        }
    }
    assert forall|c: int| 0 <= c < m implies #[trigger] handled(prods, symbols, grown, k, c) by {
        assert(handled(prods, symbols, gstates, k, c));
        if exists|w: Item| goto_kernel(grown[k].to_set(), symbols[c], prods).contains(w) {
            let j = choose|j: int|
                0 <= j < gstates.len() && closure_post(
                    prods,
                    goto_kernel(gstates[k].to_set(), symbols[c], prods),
                    gstates[j],
                );
            assert(grown[j] == gstates[j]);
        }
    }
}

/// A write into one cell that leaves it non-`Error` keeps every other cell,
/// so earlier marks survive: a non-`Error` cell stays non-`Error`, and an
/// `Accept` cell stays `Accept` as long as the write was onto an `Error`
/// cell or wrote `Accept` itself.
proof fn lemma_row_write(old_row: Seq<Action>, new_row: Seq<Action>, c2: int)
    requires
        new_row.len() == old_row.len(),
        0 <= c2 < old_row.len(),
        forall|c: int| 0 <= c < old_row.len() && c != c2 ==> new_row[c] == old_row[c],
        new_row[c2] != Action::Error,
        old_row[c2] == Action::Error || new_row[c2] == Action::Accept,
    ensures
        forall|c: int|
            0 <= c < old_row.len() && old_row[c] != Action::Error ==> #[trigger] new_row[c]
                != Action::Error,
        forall|c: int|
            0 <= c < old_row.len() && old_row[c] == Action::Accept ==> #[trigger] new_row[c]
                == Action::Accept,
{
    assert forall|c: int|
        0 <= c < old_row.len() && old_row[c] != Action::Error implies #[trigger] new_row[c]
        != Action::Error by {
        if c != c2 {
            assert(new_row[c] == old_row[c]);
        }
    }
    assert forall|c: int|
        0 <= c < old_row.len() && old_row[c] == Action::Accept implies #[trigger] new_row[c]
        == Action::Accept by {
        if c != c2 {
            assert(new_row[c] == old_row[c]);
        } else {
            assert(old_row[c2] != Action::Error);
            assert(new_row[c2] == Action::Accept);
        }
    }
}

impl Parser {
    /// The typed augmented grammar: the synthetic start production followed
    /// by the user productions, with the terminal and nonterminal lists.
    pub fn augmented_grammar(reducer_map: &Vec<(char, String)>) -> (r: (
        Vec<Production>,
        Vec<char>,
        Vec<char>,
    ))
        requires
            reducer_map@.len() >= 1,
        ensures
            prod_views(r.0@) == aug_prods(reducer_views(reducer_map@)),
            r.1@ == nonterminals_of(reducer_views(reducer_map@)),
            r.2@ == terminals_of(reducer_views(reducer_map@)),
    {
        let ghost rv = reducer_views(reducer_map@);
        let (mut productions, non_terminals, terminals) = Self::parse_grammar(reducer_map);
        let start_symbol = productions[0].left;
        let mut right0: Vec<char> = Vec::new();
        right0.push(start_symbol);
        let ghost user_prods = productions@;
        productions.insert(0, Production { left: start_symbol, right: right0 });
        let ghost prods = prod_views(productions@);
        proof {
            assert(productions@ == user_prods.insert(
                0,
                Production { left: start_symbol, right: productions@[0].right },
            ));
            user_prods.insert_ensures(0, productions@[0]);
            assert(productions@.len() == rv.len() + 1);
            assert(productions@[0].left == rv[0].0);
            assert(productions@[0].right@ == seq![rv[0].0]) by {
                assert(productions@[0].right@ =~= seq![rv[0].0]);
            }
            assert forall|p: int| 0 <= p < prods.len() implies prods[p] == aug_prods(rv)[p] by {
                if p == 0 {
                    assert(prods[0] == (productions@[0].left, productions@[0].right@));
                } else {
                    assert(productions@[p] == user_prods[p - 1]);
                    assert(prod_views(user_prods)[p - 1] == rv[p - 1]);
                    assert(aug_prods(rv)[p] == rv[p - 1]);
                }
            }
            assert(prods =~= aug_prods(rv));
        }
        (productions, non_terminals, terminals)
    }

    /// Builds the action/goto table of a grammar: discovers the canonical
    /// item-set automaton by a work list over item sets, then fills one row
    /// per state, visiting each state's items in canonical order with a
    /// first-write-wins policy. Returns the column order and the table.
    pub fn generate_lr0_table(reducer_map: &Vec<(char, String)>) -> (r: (
        Vec<char>,
        Vec<Vec<Action>>,
    ))
        requires
            reducer_map@.len() >= 1,
        ensures
            r.0@ == symbols_of(reducer_views(reducer_map@)),
            table_ok(reducer_views(reducer_map@), r.0@, table_views(r.1@)),
            table_basic(r.0@, table_views(r.1@), reducer_views(reducer_map@).len() as int + 1),
    {
        let ghost rv = reducer_views(reducer_map@);
        let (productions, non_terminals, terminals) = Self::augmented_grammar(reducer_map);
        let ghost prods = prod_views(productions@);
        proof {
            assert(prods == aug_prods(rv));
        }
        let mut symbols: Vec<char> = Vec::new();
        let mut t0: usize = 0;
        while t0 < terminals.len()
            invariant
                t0 <= terminals@.len(),
                symbols@ == terminals@.subrange(0, t0 as int),
            decreases terminals@.len() - t0,
        {
            symbols.push(terminals[t0]);
            t0 = t0 + 1;
            proof {
                assert(symbols@ =~= terminals@.subrange(0, t0 as int));
            }
        }
        proof {
            assert(terminals@.subrange(0, terminals@.len() as int) =~= terminals@);
        }
        let dollar_t = contains_char(&terminals, '$');
        let dollar_n = contains_char(&non_terminals, '$');
        if !dollar_t && !dollar_n {
            symbols.push('$');
        }
        let ghost mid = symbols@;
        let mut n0: usize = 0;
        while n0 < non_terminals.len()
            invariant
                n0 <= non_terminals@.len(),
                symbols@ == mid + non_terminals@.subrange(0, n0 as int),
            decreases non_terminals@.len() - n0,
        {
            symbols.push(non_terminals[n0]);
            n0 = n0 + 1;
            proof {
                assert(symbols@ =~= mid + non_terminals@.subrange(0, n0 as int));
            }
        }
        proof {
            assert(non_terminals@.subrange(0, non_terminals@.len() as int) =~= non_terminals@);
            assert(symbols@ =~= symbols_of(rv));
        }
        let mut init_items: Vec<Item> = Vec::new();
        init_items.push(Item { prod: 0, dot: 0 });
        proof {
            assert(init_items@ == Seq::<Item>::empty().push(Item { prod: 0, dot: 0 }));
            assert(items_wf(init_items@, prods)) by {
                assert(init_items@[0] == Item { prod: 0, dot: 0 });
                assert(prods[0].1.len() == 1);
            }
            crate::items::lemma_item_push_to_set(Seq::<Item>::empty(), Item { prod: 0, dot: 0 });
            assert(Seq::<Item>::empty().to_set() =~= Set::<Item>::empty());
            assert(init_items@.to_set() == Set::<Item>::empty().insert(start_item()));
        }
        let state0 = Self::closure(&init_items, &productions);
        let mut states: Vec<Vec<Item>> = Vec::new();
        states.push(state0);
        proof {
            assert(states@[0]@.to_set().contains(start_item()));
            assert(states@[0]@.contains(start_item()));
            assert(states@[0]@.len() >= 1);
            assert(disc_inv(prods, states_views(states@))) by {
                assert(states_views(states@)[0] == states@[0]@);
            }
            assert(states_closed_upto(prods, symbols@, states_views(states@), 0));
        }
        let mut i: usize = 0;
        while i < states.len()
            invariant
                prods == prod_views(productions@),
                prods == aug_prods(rv),
                rv.len() >= 1,
                rv == reducer_views(reducer_map@),
                symbols@ == symbols_of(rv),
                terminals@ == terminals_of(rv),
                i <= states@.len(),
                i <= pow2(item_universe(prods) as nat),
                disc_inv(prods, states_views(states@)),
                states_closed_upto(prods, symbols@, states_views(states@), i as int),
            decreases pow2(item_universe(prods) as nat) - i,
        {
            proof {
                let gs = states_views(states@);
                assert forall|k: int| 0 <= k < gs.len() implies sorted_items(#[trigger] gs[k])
                    && items_wf(gs[k], prods) by {
                    assert(gs[k] == states@[k]@);
                }
                lemma_states_count(gs, prods);
                assert(i < states@.len());
            }
            let mut c: usize = 0;
            while c < symbols.len()
                invariant
                    prods == prod_views(productions@),
                    prods == aug_prods(rv),
                    symbols@ == symbols_of(rv),
                    c <= symbols@.len(),
                    i < states@.len(),
                    disc_inv(prods, states_views(states@)),
                    states_closed_upto(prods, symbols@, states_views(states@), i as int),
                    row_closed_upto(prods, symbols@, states_views(states@), i as int, c as int),
                decreases symbols@.len() - c,
            {
                let ghost gs = states_views(states@);
                proof {
                    assert(gs[i as int] == states@[i as int]@);
                    assert(items_wf(states@[i as int]@, prods));
                }
                let g = Self::goto(&states[i], symbols[c], &productions);
                let ghost kernel = goto_kernel(gs[i as int].to_set(), symbols@[c as int], prods);
                if !g.is_empty() {
                    proof {
                        lemma_closure_empty(prods, kernel, g@);
                        assert(g@.len() > 0);
                    }
                    let found = find_state(&states, &g);
                    match found {
                        Some(j) => {
                            proof {
                                assert(states@[j as int]@ == g@);
                                assert(gs[j as int] == g@);
                                assert(closure_post(prods, kernel, gs[j as int]));
                                assert(handled(prods, symbols@, gs, i as int, c as int));
                                assert(row_closed_upto(
                                    prods,
                                    symbols@,
                                    gs,
                                    i as int,
                                    c as int + 1,
                                ));
                            }
                        },
                        None => {
                            let ghost old_states = states@;
                            states.push(g);
                            proof {
                                lemma_states_views_push(old_states, states@[old_states.len() as int]);
                                assert(states@ == old_states.push(states@[old_states.len() as int]));
                                assert(states@[old_states.len() as int]@ == g@);
                                let new_gs = states_views(states@);
                                assert(new_gs == gs.push(g@));
                                assert(forall|k: int| 0 <= k < gs.len() ==> new_gs[k] == gs[k]);
                                assert(new_gs[gs.len() as int] == g@);
                                assert(disc_inv(prods, new_gs)) by {
                                    assert forall|k: int, j: int|
                                        0 <= k < j < new_gs.len() implies new_gs[k] != new_gs[j] by {
                                        if j < gs.len() {
                                        } else {
                                            assert(new_gs[j] == g@);
                                            assert(states_views(old_states)[k] == old_states[k]@);
                                            assert(old_states[k]@ != g@);
                                        }
                                    }
                                    assert(new_gs[0] == gs[0]);
                                }
                                lemma_closed_grow(
                                    prods,
                                    symbols@,
                                    gs,
                                    g@,
                                    i as int,
                                    i as int,
                                    c as int,
                                );
                                assert(closure_post(prods, kernel, new_gs[gs.len() as int]));
                                assert(handled(prods, symbols@, new_gs, i as int, c as int)) by {
                                    assert(new_gs[i as int] == gs[i as int]);
                                }
                                assert(row_closed_upto(
                                    prods,
                                    symbols@,
                                    new_gs,
                                    i as int,
                                    c as int + 1,
                                ));
                            }
                        },
                    }
                } else {
                    proof {
                        lemma_closure_empty(prods, kernel, g@);
                        assert(handled(prods, symbols@, gs, i as int, c as int)) by {
                            if exists|w: Item| kernel.contains(w) {
                                assert(g@.len() > 0);
                                assert(false);
                            }
                        }
                        assert(row_closed_upto(prods, symbols@, gs, i as int, c as int + 1));
                    }
                }
                c = c + 1;
            }
            i = i + 1;
            proof {
                let gs = states_views(states@);
                assert(states_closed_upto(prods, symbols@, gs, i as int)) by {
                    assert forall|k: int, c2: int|
                        0 <= k < i as int && 0 <= c2 < symbols@.len() implies #[trigger] handled(
                        prods,
                        symbols@,
                        gs,
                        k,
                        c2,
                    ) by {
                        if k < i as int - 1 {
                        } else {
                            assert(handled(prods, symbols@, gs, i as int - 1, c2));
                        }
                    }
                }
            }
        }
        let ghost gstates = states_views(states@);
        proof {
            assert(states_ok(prods, gstates, symbols@)) by {
                assert forall|k: int, c: int|
                    #![trigger goto_kernel(gstates[k].to_set(), symbols@[c], prods)]
                    0 <= k < gstates.len() && 0 <= c < symbols@.len() && (exists|w: Item|
                        goto_kernel(gstates[k].to_set(), symbols@[c], prods).contains(
                            w,
                        )) implies exists|j: int|
                    0 <= j < gstates.len() && closure_post(
                        prods,
                        goto_kernel(gstates[k].to_set(), symbols@[c], prods),
                        gstates[j],
                    ) by {
                    assert(handled(prods, symbols@, gstates, k, c));
                }
            }
        }
        let n_states = states.len();
        let n_syms = symbols.len();
        let mut table: Vec<Vec<Action>> = Vec::new();
        let mut si: usize = 0;
        while si < n_states
            invariant
                prods == prod_views(productions@),
                prods == aug_prods(rv),
                rv.len() >= 1,
                rv == reducer_views(reducer_map@),
                symbols@ == symbols_of(rv),
                terminals@ == terminals_of(rv),
                gstates == states_views(states@),
                states_ok(prods, gstates, symbols@),
                n_states == gstates.len(),
                n_syms == symbols@.len(),
                si <= n_states,
                table@.len() == si,
                forall|i2: int|
                    0 <= i2 < si ==> (#[trigger] table_views(table@)[i2]).len() == n_syms,
                forall|i2: int, c: int|
                    0 <= i2 < si && 0 <= c < n_syms ==> cell_ok(
                        prods,
                        gstates,
                        symbols@,
                        terminals@,
                        i2,
                        c,
                        #[trigger] table_views(table@)[i2][c],
                    ),
                forall|i2: int, k: int|
                    0 <= i2 < si && 0 <= k < gstates[i2].len() && (#[trigger] gstates[i2][k]).dot
                        < prods[gstates[i2][k].prod as int].1.len() ==> table_views(
                        table@,
                    )[i2][col_of(symbols@, next_sym(gstates[i2][k], prods))] != Action::Error,
                forall|i2: int, k: int, c: int|
                    0 <= i2 < si && 0 <= k < gstates[i2].len() && 0 <= c < n_syms && (
                    #[trigger] gstates[i2][k]).dot == prods[gstates[i2][k].prod as int].1.len()
                        && gstates[i2][k].prod >= 1 && (terminals@.contains(#[trigger] symbols@[c])
                        || symbols@[c] == '$') ==> table_views(table@)[i2][c] != Action::Error,
                forall|i2: int|
                    0 <= i2 < si && (#[trigger] gstates[i2]).contains(accept_item())
                        ==> table_views(table@)[i2][col_of(symbols@, '$')] == Action::Accept,
            decreases n_states - si,
        {
            let mut row: Vec<Action> = Vec::new();
            let mut c0: usize = 0;
            while c0 < n_syms
                invariant
                    c0 <= n_syms,
                    row@.len() == c0,
                    forall|c: int| 0 <= c < c0 ==> row@[c] == Action::Error,
                decreases n_syms - c0,
            {
                row.push(Action::Error);
                c0 = c0 + 1;
            }
            let n_items = states[si].len();
            let mut k: usize = 0;
            while k < n_items
                invariant
                    prods == prod_views(productions@),
                    prods == aug_prods(rv),
                    rv.len() >= 1,
                    symbols@ == symbols_of(rv),
                    terminals@ == terminals_of(rv),
                    gstates == states_views(states@),
                    states_ok(prods, gstates, symbols@),
                    n_syms == symbols@.len(),
                    si < gstates.len(),
                    n_items == gstates[si as int].len(),
                    k <= n_items,
                    row@.len() == n_syms,
                    forall|c: int|
                        0 <= c < n_syms ==> cell_ok(
                            prods,
                            gstates,
                            symbols@,
                            terminals@,
                            si as int,
                            c,
                            #[trigger] row@[c],
                        ),
                    forall|k2: int|
                        0 <= k2 < k && (#[trigger] gstates[si as int][k2]).dot
                            < prods[gstates[si as int][k2].prod as int].1.len() ==> row@[col_of(
                            symbols@,
                            next_sym(gstates[si as int][k2], prods),
                        )] != Action::Error,
                    forall|k2: int, c: int|
                        0 <= k2 < k && 0 <= c < n_syms && (#[trigger] gstates[si as int][k2]).dot
                            == prods[gstates[si as int][k2].prod as int].1.len()
                            && gstates[si as int][k2].prod >= 1 && (terminals@.contains(
                            #[trigger] symbols@[c],
                        ) || symbols@[c] == '$') ==> row@[c] != Action::Error,
                    (exists|k2: int|
                        0 <= k2 < k && #[trigger] gstates[si as int][k2] == accept_item())
                        ==> row@[col_of(symbols@, '$')] == Action::Accept,
                decreases n_items - k,
            {
                let it = states[si][k];
                let ghost entry_row = row@;
                proof {
                    assert(gstates[si as int] == states@[si as int]@);
                    assert(gstates[si as int][k as int] == it);
                    assert(item_wf(it, prods));
                }
                let rhs_len = productions[it.prod].right.len();
                if it.dot < rhs_len {
                    let sym = productions[it.prod].right[it.dot];
                    proof {
                        assert(sym == next_sym(it, prods));
                        lemma_next_sym_in_symbols(rv, it);
                    }
                    let col = col_lookup(&symbols, sym);
                    let g = Self::goto(&states[si], sym, &productions);
                    let ghost kernel = goto_kernel(
                        gstates[si as int].to_set(),
                        symbols@[col as int],
                        prods,
                    );
                    proof {
                        assert(symbols@[col as int] == sym);
                        let adv = Item { prod: it.prod, dot: (it.dot + 1) as usize };
                        assert(gstates[si as int].to_set().contains(it)) by {
                            assert(gstates[si as int].contains(it));
                        }
                        assert(kernel.contains(adv));
                        assert(handled(prods, symbols@, gstates, si as int, col as int)) by {
                            assert(states_ok(prods, gstates, symbols@));
                            assert(goto_kernel(
                                gstates[si as int].to_set(),
                                symbols@[col as int],
                                prods,
                            ).contains(adv));
                        }
                        let j = choose|j: int|
                            0 <= j < gstates.len() && closure_post(
                                prods,
                                goto_kernel(gstates[si as int].to_set(), symbols@[col as int], prods),
                                gstates[j],
                            );
                        assert(closure_post(prods, kernel, g@));
                        crate::items::lemma_closure_post_unique(prods, kernel, g@, gstates[j]);
                        assert(gstates[j] == g@);
                        assert(states@[j]@ == g@);
                    }
                    let found = find_state(&states, &g);
                    match found {
                        None => {
                            proof {
                                let j = choose|j: int|
                                    0 <= j < gstates.len() && gstates[j] == g@;
                                assert(states@[j]@ == g@);
                                assert(false);
                            }
                        },
                        Some(jj) => {
                            proof {
                                assert(gstates[jj as int] == states@[jj as int]@);
                                assert(closure_post(prods, kernel, gstates[jj as int]));
                            }
                            let is_term = contains_char(&terminals, sym);
                            let cur = row[col];
                            if cur == Action::Error {
                                let ghost old_row = row@;
                                if is_term {
                                    row[col] = Action::Shift(jj);
                                } else {
                                    row[col] = Action::Goto(jj);
                                }
                                proof {
                                    assert(row@.len() == old_row.len());
                                    assert(forall|c: int|
                                        0 <= c < n_syms && c != col as int ==> row@[c] == old_row[c]);
                                    assert(cell_ok(
                                        prods,
                                        gstates,
                                        symbols@,
                                        terminals@,
                                        si as int,
                                        col as int,
                                        row@[col as int],
                                    ));
                                    lemma_row_write(old_row, row@, col as int);
                                }
                            }
                            proof {
                                assert(row@[col as int] != Action::Error);
                                assert(col as int == col_of(symbols@, next_sym(it, prods)));
                                assert(forall|c: int|
                                    0 <= c < n_syms && entry_row[c] != Action::Error
                                        ==> #[trigger] row@[c] != Action::Error);
                                assert(forall|c: int|
                                    0 <= c < n_syms && entry_row[c] == Action::Accept
                                        ==> #[trigger] row@[c] == Action::Accept);
                                assert forall|k2: int|
                                    0 <= k2 < k + 1 && (#[trigger] gstates[si as int][k2]).dot
                                        < prods[gstates[si as int][k2].prod as int].1.len() implies row@[col_of(
                                    symbols@,
                                    next_sym(gstates[si as int][k2], prods),
                                )] != Action::Error by {
                                    lemma_next_sym_in_symbols(rv, gstates[si as int][k2]);
                                    lemma_col_of(symbols@, next_sym(gstates[si as int][k2], prods));
                                    let tc = col_of(symbols@, next_sym(gstates[si as int][k2], prods));
                                    if k2 < k {
                                        assert(entry_row[tc] != Action::Error);
                                    } else {
                                        assert(gstates[si as int][k2] == it);
                                        assert(tc == col as int);
                                    }
                                }
                                assert forall|k2: int, c: int|
                                    0 <= k2 < k + 1 && 0 <= c < n_syms && (
                                    #[trigger] gstates[si as int][k2]).dot
                                        == prods[gstates[si as int][k2].prod as int].1.len()
                                        && gstates[si as int][k2].prod >= 1 && (terminals@.contains(
                                        #[trigger] symbols@[c],
                                    ) || symbols@[c] == '$') implies row@[c] != Action::Error by {
                                    if k2 < k {
                                        assert(entry_row[c] != Action::Error);
                                    } else {
                                        assert(gstates[si as int][k2] == it);
                                    }
                                }
                                assert(((exists|k2: int|
                                    0 <= k2 < k + 1 && #[trigger] gstates[si as int][k2]
                                        == accept_item()) ==> row@[col_of(symbols@, '$')]
                                    == Action::Accept)) by {
                                    if exists|k2: int|
                                        0 <= k2 < k + 1 && gstates[si as int][k2] == accept_item() {
                                        let k2 = choose|k2: int|
                                            0 <= k2 < k + 1 && gstates[si as int][k2]
                                                == accept_item();
                                        lemma_dollar_in_symbols(rv);
                                        lemma_col_of(symbols@, '$');
                                        if k2 < k {
                                            assert(entry_row[col_of(symbols@, '$')]
                                                == Action::Accept);
                                        } else {
                                            assert(gstates[si as int][k2] == it);
                                            assert(prods[0].1.len() == 1);
                                            assert(false);
                                        }
                                    }
                                }
                            }
                        },
                    }
                } else {
                    proof {
                        assert(it.dot == prods[it.prod as int].1.len());
                    }
                    if it.prod == 0 {
                        proof {
                            lemma_dollar_in_symbols(rv);
                            assert(prods[0].1.len() == 1);
                            assert(it == accept_item());
                        }
                        let dcol = col_lookup(&symbols, '$');
                        let ghost old_row = row@;
                        row[dcol] = Action::Accept;
                        proof {
                            assert(forall|c: int|
                                0 <= c < n_syms && c != dcol as int ==> row@[c] == old_row[c]);
                            assert(symbols@[dcol as int] == '$');
                            assert(gstates[si as int].contains(accept_item())) by {
                                assert(gstates[si as int][k as int] == accept_item());
                            }
                            assert(cell_ok(
                                prods,
                                gstates,
                                symbols@,
                                terminals@,
                                si as int,
                                dcol as int,
                                row@[dcol as int],
                            ));
                            lemma_col_of(symbols@, '$');
                            assert(dcol as int == col_of(symbols@, '$'));
                            lemma_row_write(old_row, row@, dcol as int);
                            assert forall|k2: int|
                                0 <= k2 < k + 1 && (#[trigger] gstates[si as int][k2]).dot
                                    < prods[gstates[si as int][k2].prod as int].1.len() implies row@[col_of(
                                symbols@,
                                next_sym(gstates[si as int][k2], prods),
                            )] != Action::Error by {
                                lemma_next_sym_in_symbols(rv, gstates[si as int][k2]);
                                lemma_col_of(symbols@, next_sym(gstates[si as int][k2], prods));
                                let tc = col_of(symbols@, next_sym(gstates[si as int][k2], prods));
                                if k2 < k {
                                    assert(old_row[tc] != Action::Error);
                                } else {
                                    assert(gstates[si as int][k2] == it);
                                    assert(prods[0].1.len() == 1);
                                    assert(false);
                                }
                            }
                            assert forall|k2: int, c: int|
                                0 <= k2 < k + 1 && 0 <= c < n_syms && (
                                #[trigger] gstates[si as int][k2]).dot
                                    == prods[gstates[si as int][k2].prod as int].1.len()
                                    && gstates[si as int][k2].prod >= 1 && (terminals@.contains(
                                    #[trigger] symbols@[c],
                                ) || symbols@[c] == '$') implies row@[c] != Action::Error by {
                                if k2 < k {
                                    assert(old_row[c] != Action::Error);
                                } else {
                                    assert(gstates[si as int][k2] == it);
                                    assert(it.prod == 0);
                                    assert(false);
                                }
                            }
                            assert(((exists|k2: int|
                                0 <= k2 < k + 1 && #[trigger] gstates[si as int][k2]
                                    == accept_item()) ==> row@[col_of(symbols@, '$')]
                                == Action::Accept)) by {
                                assert(row@[dcol as int] == Action::Accept);
                            }
                        }
                    } else {
                        let prod_idx = it.prod;
                        let mut c2: usize = 0;
                        while c2 < n_syms
                            invariant
                                prods == prod_views(productions@),
                                prods == aug_prods(rv),
                                symbols@ == symbols_of(rv),
                                terminals@ == terminals_of(rv),
                                gstates == states_views(states@),
                                states_ok(prods, gstates, symbols@),
                                n_syms == symbols@.len(),
                                si < gstates.len(),
                                k < gstates[si as int].len(),
                                gstates[si as int][k as int] == it,
                                item_wf(it, prods),
                                it.dot == prods[it.prod as int].1.len(),
                                1 <= prod_idx < prods.len(),
                                prod_idx == it.prod,
                                c2 <= n_syms,
                                row@.len() == n_syms,
                                forall|c: int|
                                    0 <= c < n_syms ==> cell_ok(
                                        prods,
                                        gstates,
                                        symbols@,
                                        terminals@,
                                        si as int,
                                        c,
                                        #[trigger] row@[c],
                                    ),
                                forall|k2: int|
                                    0 <= k2 < k && (#[trigger] gstates[si as int][k2]).dot
                                        < prods[gstates[si as int][k2].prod as int].1.len()
                                        ==> row@[col_of(
                                        symbols@,
                                        next_sym(gstates[si as int][k2], prods),
                                    )] != Action::Error,
                                forall|k2: int, c: int|
                                    0 <= k2 < k && 0 <= c < n_syms && (
                                    #[trigger] gstates[si as int][k2]).dot
                                        == prods[gstates[si as int][k2].prod as int].1.len()
                                        && gstates[si as int][k2].prod >= 1 && (terminals@.contains(
                                        #[trigger] symbols@[c],
                                    ) || symbols@[c] == '$') ==> row@[c] != Action::Error,
                                (exists|k2: int|
                                    0 <= k2 < k && #[trigger] gstates[si as int][k2]
                                        == accept_item()) ==> row@[col_of(symbols@, '$')]
                                    == Action::Accept,
                                forall|c: int|
                                    0 <= c < c2 && (terminals@.contains(#[trigger] symbols@[c])
                                        || symbols@[c] == '$') ==> row@[c] != Action::Error,
                            decreases n_syms - c2,
                        {
                            let sc = symbols[c2];
                            let is_t = contains_char(&terminals, sc);
                            let cur = row[c2];
                            let ghost iter_row = row@;
                            if (is_t || sc == '$') && cur == Action::Error {
                                let ghost old_row = row@;
                                row[c2] = Action::Reduce(prod_idx);
                                proof {
                                    assert(forall|c: int|
                                        0 <= c < n_syms && c != c2 as int ==> row@[c] == old_row[c]);
                                    assert(gstates[si as int].contains(
                                        Item {
                                            prod: prod_idx,
                                            dot: prods[prod_idx as int].1.len() as usize,
                                        },
                                    )) by {
                                        assert(gstates[si as int][k as int] == it);
                                        assert(it == Item {
                                            prod: prod_idx,
                                            dot: prods[prod_idx as int].1.len() as usize,
                                        });
                                    }
                                    assert(cell_ok(
                                        prods,
                                        gstates,
                                        symbols@,
                                        terminals@,
                                        si as int,
                                        c2 as int,
                                        row@[c2 as int],
                                    ));
                                    lemma_row_write(old_row, row@, c2 as int);
                                }
                            }
                            proof {
                                assert((terminals@.contains(symbols@[c2 as int])
                                    || symbols@[c2 as int] == '$') ==> row@[c2 as int]
                                    != Action::Error);
                                assert(forall|c: int|
                                    0 <= c < n_syms && iter_row[c] != Action::Error
                                        ==> #[trigger] row@[c] != Action::Error);
                                assert(forall|c: int|
                                    0 <= c < n_syms && iter_row[c] == Action::Accept
                                        ==> #[trigger] row@[c] == Action::Accept);
                                assert forall|k2: int|
                                    0 <= k2 < k && (#[trigger] gstates[si as int][k2]).dot
                                        < prods[gstates[si as int][k2].prod as int].1.len() implies row@[col_of(
                                    symbols@,
                                    next_sym(gstates[si as int][k2], prods),
                                )] != Action::Error by {
                                    lemma_next_sym_in_symbols(rv, gstates[si as int][k2]);
                                    lemma_col_of(symbols@, next_sym(gstates[si as int][k2], prods));
                                    let tc = col_of(symbols@, next_sym(gstates[si as int][k2], prods));
                                    assert(iter_row[tc] != Action::Error);
                                }
                                assert(((exists|k2: int|
                                    0 <= k2 < k && #[trigger] gstates[si as int][k2]
                                        == accept_item()) ==> row@[col_of(symbols@, '$')]
                                    == Action::Accept)) by {
                                    if exists|k2: int|
                                        0 <= k2 < k && gstates[si as int][k2] == accept_item() {
                                        lemma_dollar_in_symbols(rv);
                                        lemma_col_of(symbols@, '$');
                                        assert(iter_row[col_of(symbols@, '$')] == Action::Accept);
                                    }
                                }
                            }
                            c2 = c2 + 1;
                        }
                        proof {
                            assert forall|k2: int|
                                0 <= k2 < k + 1 && (#[trigger] gstates[si as int][k2]).dot
                                    < prods[gstates[si as int][k2].prod as int].1.len() implies row@[col_of(
                                symbols@,
                                next_sym(gstates[si as int][k2], prods),
                            )] != Action::Error by {
                                if k2 == k {
                                    assert(gstates[si as int][k2] == it);
                                    assert(false);
                                }
                            }
                            assert forall|k2: int, c: int|
                                0 <= k2 < k + 1 && 0 <= c < n_syms && (
                                #[trigger] gstates[si as int][k2]).dot
                                    == prods[gstates[si as int][k2].prod as int].1.len()
                                    && gstates[si as int][k2].prod >= 1 && (terminals@.contains(
                                    #[trigger] symbols@[c],
                                ) || symbols@[c] == '$') implies row@[c] != Action::Error by {
                                if k2 == k {
                                    assert(gstates[si as int][k2] == it);
                                }
                            }
                            assert(((exists|k2: int|
                                0 <= k2 < k + 1 && #[trigger] gstates[si as int][k2]
                                    == accept_item()) ==> row@[col_of(symbols@, '$')]
                                == Action::Accept)) by {
                                if exists|k2: int|
                                    0 <= k2 < k + 1 && gstates[si as int][k2] == accept_item() {
                                    let k2 = choose|k2: int|
                                        0 <= k2 < k + 1 && gstates[si as int][k2] == accept_item();
                                    if k2 == k {
                                        assert(gstates[si as int][k2] == it);
                                        assert(it.prod >= 1);
                                        assert(false);
                                    }
                                }
                            }
                        }
                    }
                }
                k = k + 1;
            }
            let ghost old_table = table@;
            let ghost done_row = row@;
            table.push(row);
            si = si + 1;
            proof {
                lemma_table_views_push(old_table, table@[old_table.len() as int]);
                let tv = table_views(table@);
                assert(tv == table_views(old_table).push(done_row));
                assert(forall|i2: int|
                    0 <= i2 < old_table.len() ==> tv[i2] == table_views(old_table)[i2]);
                assert(tv[si as int - 1] == done_row);
                assert forall|k2: int|
                    0 <= k2 < gstates[si as int - 1].len() && (#[trigger] gstates[si as int
                        - 1][k2]).dot < prods[gstates[si as int - 1][k2].prod as int].1.len()
                        implies tv[si as int - 1][col_of(
                        symbols@,
                        next_sym(gstates[si as int - 1][k2], prods),
                    )] != Action::Error by {
                    assert(done_row[col_of(symbols@, next_sym(gstates[si as int - 1][k2], prods))]
                        != Action::Error);
                }
            }
        }
        proof {
            let tv = table_views(table@);
            assert(tv.len() == gstates.len());
            assert(table_ok(rv, symbols@, tv)) by {
                assert(states_ok(aug_prods(rv), gstates, symbols@));
                assert(cells_sound(aug_prods(rv), gstates, symbols@, terminals_of(rv), tv));
                assert(cells_complete(aug_prods(rv), gstates, symbols@, terminals_of(rv), tv));
            }
            assert(table_basic(symbols@, tv, rv.len() as int + 1)) by {
                assert forall|i2: int, c: int|
                    0 <= i2 < tv.len() && 0 <= c < tv[i2].len() implies action_ok(
                    #[trigger] tv[i2][c],
                    tv.len() as int,
                    rv.len() as int + 1,
                ) by {
                    assert(cell_ok(prods, gstates, symbols@, terminals@, i2, c, tv[i2][c]));
                }
            }
        }
        (symbols, table)
    }
}

} // verus!
