//! Items and item sets: dotted productions, their canonical ordering, and
//! the finiteness bound that makes closure and state discovery terminate.
//!
//! An item names a production by its index in the augmented production list
//! and marks how far its right-hand side has been recognized. An item set is
//! kept as a vector without repeats; canonical form is strictly sorted by
//! production index, then dot position.

use vstd::prelude::*;
use vstd::set_lib::lemma_len_subset;
use vstd::set_lib::set_int_range;
use vstd::set_lib::lemma_int_range;
use crate::grammar::Production;
use crate::grammar::prod_views;
use crate::parser::Parser;

verus! {

/// A dotted production: `prod` indexes the augmented production list, `dot`
/// counts how many right-hand symbols have been recognized.
#[derive(PartialEq, Eq, Structural, Clone, Copy, Debug)]
pub struct Item {
    pub prod: usize,
    pub dot: usize,
}

/// An item is well formed for a production list when it names a production
/// and its dot lies within that production's right-hand side.
pub open spec fn item_wf(it: Item, prods: Seq<(char, Seq<char>)>) -> bool {
    it.prod < prods.len() && it.dot <= prods[it.prod as int].1.len()
}

/// Every item of the sequence is well formed.
pub open spec fn items_wf(s: Seq<Item>, prods: Seq<(char, Seq<char>)>) -> bool {
    forall|i: int| 0 <= i < s.len() ==> item_wf(#[trigger] s[i], prods)
}

/// The strict item order: by production index, then dot position.
pub open spec fn item_lt(a: Item, b: Item) -> bool {
    a.prod < b.prod || (a.prod == b.prod && a.dot < b.dot)
}

/// Executable item order test.
pub fn item_lt_exec(a: Item, b: Item) -> (r: bool)
    ensures
        r == item_lt(a, b),
{
    a.prod < b.prod || (a.prod == b.prod && a.dot < b.dot)
}

/// A strictly sorted item sequence: the canonical form of an item set.
pub open spec fn sorted_items(s: Seq<Item>) -> bool {
    forall|i: int, j: int| 0 <= i < j < s.len() ==> item_lt(#[trigger] s[i], #[trigger] s[j])
}

/// Whether the vector holds the item.
pub fn contains_item(v: &Vec<Item>, it: Item) -> (r: bool)
    ensures
        r == v@.contains(it),
{
    let mut i: usize = 0;
    while i < v.len()
        invariant
            i <= v@.len(),
            forall|j: int| 0 <= j < i ==> v@[j] != it,
        decreases v@.len() - i,
    {
        if v[i].prod == it.prod && v[i].dot == it.dot {
            return true;
        }
        i = i + 1;
    }
    false
}

/// The greatest right-hand side length of any production.
pub open spec fn max_rhs(prods: Seq<(char, Seq<char>)>) -> nat
    decreases prods.len(),
{
    if prods.len() == 0 {
        0
    } else {
        let r = max_rhs(prods.drop_last());
        if prods.last().1.len() > r {
            prods.last().1.len()
        } else {
            r
        }
    }
}

/// No right-hand side is longer than the maximum.
pub proof fn lemma_max_rhs(prods: Seq<(char, Seq<char>)>)
    ensures
        forall|p: int| 0 <= p < prods.len() ==> (#[trigger] prods[p]).1.len() <= max_rhs(prods),
    decreases prods.len(),
{
    if prods.len() > 0 {
        lemma_max_rhs(prods.drop_last());
        let rest = prods.drop_last();
        assert(prods.last().1.len() <= max_rhs(prods));
        assert(max_rhs(rest) <= max_rhs(prods));
        assert forall|p: int| 0 <= p < prods.len() implies (#[trigger] prods[p]).1.len()
            <= max_rhs(prods) by {
            if p < prods.len() - 1 {
                assert(prods[p] == rest[p]);
                assert(rest[p].1.len() <= max_rhs(rest));
            } else {
                assert(prods[p] == prods.last());
            }
        }
    }
}

/// A numeric name for an item, one-to-one over well-formed items.
pub open spec fn item_code(it: Item, prods: Seq<(char, Seq<char>)>) -> int {
    (it.prod * (max_rhs(prods) + 1) + it.dot) as int
}

/// How many well-formed items a production list admits, at most.
pub open spec fn item_universe(prods: Seq<(char, Seq<char>)>) -> int {
    (prods.len() * (max_rhs(prods) + 1)) as int
}

/// A well-formed item's code lies below the universe size.
pub proof fn lemma_item_code_range(it: Item, prods: Seq<(char, Seq<char>)>)
    requires
        item_wf(it, prods),
    ensures
        0 <= item_code(it, prods) < item_universe(prods),
{
    lemma_max_rhs(prods);
    let m = max_rhs(prods) + 1;
    assert(it.dot < m);
    assert(it.prod * m + it.dot < item_universe(prods)) by (nonlinear_arith)
        requires
            it.prod < prods.len(),
            0 <= it.dot < m,
            item_universe(prods) == prods.len() * m,
    {
    }
}

/// Distinct well-formed items have distinct codes.
pub proof fn lemma_item_code_injective(a: Item, b: Item, prods: Seq<(char, Seq<char>)>)
    requires
        item_wf(a, prods),
        item_wf(b, prods),
        item_code(a, prods) == item_code(b, prods),
    ensures
        a == b,
{
    lemma_max_rhs(prods);
    let m = max_rhs(prods) + 1;
    assert(a.dot < m && b.dot < m);
    assert(a.prod == b.prod && a.dot == b.dot) by (nonlinear_arith)
        requires
            0 <= a.dot < m,
            0 <= b.dot < m,
            a.prod * m + a.dot == b.prod * m + b.dot,
    {
    }
}

/// A repeat-free sequence of well-formed items is no longer than the item
/// universe.
pub proof fn lemma_items_count(s: Seq<Item>, prods: Seq<(char, Seq<char>)>)
    requires
        s.no_duplicates(),
        items_wf(s, prods),
    ensures
        s.len() <= item_universe(prods),
{
    let codes = s.map_values(|it: Item| item_code(it, prods));
    assert(codes.len() == s.len());
    assert forall|i: int| 0 <= i < s.len() implies 0 <= #[trigger] codes[i] < item_universe(
        prods,
    ) by {
        lemma_item_code_range(s[i], prods);
    }
    assert(codes.no_duplicates()) by {
        assert forall|i: int, j: int|
            0 <= i < codes.len() && 0 <= j < codes.len() && i != j implies codes[i] != codes[j] by {
            if codes[i] == codes[j] {
                lemma_item_code_injective(s[i], s[j], prods);
            }
        }
    }
    codes.unique_seq_to_set();
    let range = set_int_range(0, item_universe(prods));
    lemma_int_range(0, item_universe(prods));
    assert(codes.to_set().subset_of(range)) by {
        assert forall|c: int| codes.to_set().contains(c) implies range.contains(c) by {
            let i = choose|i: int| 0 <= i < codes.len() && codes[i] == c;
        }
    }
    lemma_len_subset(codes.to_set(), range);
}

/// Two canonically sorted item sequences with the same members are equal.
pub proof fn lemma_sorted_canonical(a: Seq<Item>, b: Seq<Item>)
    requires
        sorted_items(a),
        sorted_items(b),
        a.to_set() == b.to_set(),
    ensures
        a == b,
    decreases a.len(),
{
    if a.len() == 0 {
        if b.len() > 0 {
            assert(b.to_set().contains(b[0]));
            assert(a.contains(b[0]));
            assert(false);
        }
        assert(a =~= b);
    } else {
        assert(a.to_set().contains(a[0]));
        assert(b.contains(a[0]));
        let k = choose|k: int| 0 <= k < b.len() && b[k] == a[0];
        assert(b.to_set().contains(b[0]));
        assert(a.contains(b[0]));
        let m = choose|m: int| 0 <= m < a.len() && a[m] == b[0];
        if k > 0 {
            assert(item_lt(b[0], b[k]));
            if m > 0 {
                assert(item_lt(a[0], a[m]));
                assert(false);
            }
            assert(false);
        }
        assert(a[0] == b[0]);
        let ar = a.drop_first();
        let br = b.drop_first();
        assert(ar.to_set() =~= br.to_set()) by {
            assert forall|x: Item| ar.to_set().contains(x) implies br.to_set().contains(x) by {
                let i = choose|i: int| 0 <= i < ar.len() && ar[i] == x;
                assert(a[i + 1] == x);
                assert(item_lt(a[0], x));
                assert(a.contains(x));
                assert(a.to_set().contains(x));
                assert(b.to_set().contains(x));
                assert(b.contains(x));
                let j = choose|j: int| 0 <= j < b.len() && b[j] == x;
                assert(j > 0);
                assert(br[j - 1] == x);
            }
            assert forall|x: Item| br.to_set().contains(x) implies ar.to_set().contains(x) by {
                let i = choose|i: int| 0 <= i < br.len() && br[i] == x;
                assert(b[i + 1] == x);
                assert(item_lt(b[0], x));
                assert(b.contains(x));
                assert(b.to_set().contains(x));
                assert(a.to_set().contains(x));
                assert(a.contains(x));
                let j = choose|j: int| 0 <= j < a.len() && a[j] == x;
                assert(j > 0);
                assert(ar[j - 1] == x);
            }
        }
        assert(sorted_items(ar)) by {
            assert(forall|i: int, j: int|
                0 <= i < j < ar.len() ==> ar[i] == a[i + 1] && ar[j] == a[j + 1]);
        }
        assert(sorted_items(br)) by {
            assert(forall|i: int, j: int|
                0 <= i < j < br.len() ==> br[i] == b[i + 1] && br[j] == b[j + 1]);
        }
        lemma_sorted_canonical(ar, br);
        assert(a.len() == b.len());
        assert forall|k: int| 0 <= k < a.len() implies a[k] == b[k] by {
            if k > 0 {
                assert(a[k] == ar[k - 1]);
                assert(b[k] == br[k - 1]);
            }
        }
        assert(a =~= b);
    }
}

/// Adds an item a sorted vector does not yet hold, keeping it sorted.
fn insert_sorted(v: &mut Vec<Item>, x: Item)
    requires
        sorted_items(old(v)@),
        !old(v)@.contains(x),
    ensures
        sorted_items(final(v)@),
        final(v)@.to_set() == old(v)@.to_set().insert(x),
        final(v)@.len() == old(v)@.len() + 1,
{
    let n = v.len();
    let mut k: usize = 0;
    while k < n && item_lt_exec(v[k], x)
        invariant
            k <= n,
            n == v@.len(),
            v@ == old(v)@,
            forall|j: int| 0 <= j < k ==> item_lt(#[trigger] v@[j], x),
        decreases n - k,
    {
        k = k + 1;
    }
    proof {
        assert forall|j: int| k <= j < n implies item_lt(x, #[trigger] v@[j]) by {
            assert(!item_lt(v@[k as int], x));
            assert(v@[k as int] != x) by {
                assert(!v@.contains(x));
            }
            assert(item_lt(x, v@[k as int]));
            if j > k {
                assert(item_lt(v@[k as int], v@[j]));
            }
        }
    }
    let mut out: Vec<Item> = Vec::new();
    let mut i: usize = 0;
    while i < k
        invariant
            i <= k <= n,
            n == v@.len(),
            v@ == old(v)@,
            out@ == v@.subrange(0, i as int),
        decreases k - i,
    {
        out.push(v[i]);
        i = i + 1;
        proof {
            assert(out@ =~= v@.subrange(0, i as int));
        }
    }
    out.push(x);
    let mut i2: usize = k;
    while i2 < n
        invariant
            k <= i2 <= n,
            n == v@.len(),
            v@ == old(v)@,
            out@ == v@.subrange(0, k as int).push(x) + v@.subrange(k as int, i2 as int),
        decreases n - i2,
    {
        out.push(v[i2]);
        i2 = i2 + 1;
        proof {
            assert(out@ =~= v@.subrange(0, k as int).push(x) + v@.subrange(k as int, i2 as int));
        }
    }
    proof {
        let fin = v@.subrange(0, k as int).push(x) + v@.subrange(k as int, n as int);
        assert(out@ == fin);
        assert(fin.len() == n + 1);
        assert(forall|j: int| 0 <= j < k ==> fin[j] == v@[j]);
        assert(fin[k as int] == x);
        assert(forall|j: int| k < j < n + 1 ==> fin[j] == v@[j - 1]);
        assert(sorted_items(fin)) by {
            assert forall|i3: int, j3: int| 0 <= i3 < j3 < fin.len() implies item_lt(
                fin[i3],
                fin[j3],
            ) by {
                if i3 < k && j3 < k {
                    assert(item_lt(v@[i3], v@[j3]));
                } else if i3 < k && j3 == k {
                    assert(item_lt(v@[i3], x));
                } else if i3 < k && j3 > k {
                    assert(item_lt(v@[i3], v@[j3 - 1])) by {
                        if j3 - 1 > i3 {
                        } else {
                            assert(j3 - 1 == i3 || j3 - 1 < i3);
                            assert(j3 - 1 >= k);
                            assert(false);
                        }
                    }
                } else if i3 == k {
                    assert(item_lt(x, v@[j3 - 1]));
                } else {
                    assert(item_lt(v@[i3 - 1], v@[j3 - 1]));
                }
            }
        }
        assert(fin.to_set() =~= v@.to_set().insert(x)) by {
            assert forall|y: Item| fin.to_set().contains(y) implies v@.to_set().insert(x).contains(
                y,
            ) by {
                let i3 = choose|i3: int| 0 <= i3 < fin.len() && fin[i3] == y;
                if i3 < k {
                    assert(v@[i3] == y);
                } else if i3 > k {
                    assert(v@[i3 - 1] == y);
                }
            }
            assert forall|y: Item| v@.to_set().insert(x).contains(y) implies fin.to_set().contains(
                y,
            ) by {
                if y == x {
                    assert(fin[k as int] == y);
                } else {
                    let i3 = choose|i3: int| 0 <= i3 < v@.len() && v@[i3] == y;
                    if i3 < k {
                        assert(fin[i3] == y);
                    } else {
                        assert(fin[i3 + 1] == y);
                    }
                }
            }
        }
    }
    *v = out;
}

/// The canonical form of a repeat-free item vector: the same members,
/// strictly sorted.
pub fn sort_items(v: &Vec<Item>) -> (r: Vec<Item>)
    requires
        v@.no_duplicates(),
    ensures
        sorted_items(r@),
        r@.to_set() == v@.to_set(),
        r@.len() == v@.len(),
{
    let n = v.len();
    let mut out: Vec<Item> = Vec::new();
    let mut i: usize = 0;
    proof {
        assert(v@.subrange(0, 0).to_set() =~= Set::<Item>::empty());
        assert(out@.to_set() =~= v@.subrange(0, 0).to_set());
    }
    while i < n
        invariant
            i <= n,
            n == v@.len(),
            v@.no_duplicates(),
            sorted_items(out@),
            out@.to_set() == v@.subrange(0, i as int).to_set(),
            out@.len() == i,
        decreases n - i,
    {
        let x = v[i];
        proof {
            assert(!out@.contains(x)) by {
                if out@.contains(x) {
                    assert(out@.to_set().contains(x));
                    let j = choose|j: int|
                        0 <= j < v@.subrange(0, i as int).len() && v@.subrange(0, i as int)[j]
                            == x;
                    assert(v@[j] == x);
                    assert(v@[i as int] == x);
                }
            }
        }
        insert_sorted(&mut out, x);
        i = i + 1;
        proof {
            assert(v@.subrange(0, i as int).drop_last() =~= v@.subrange(0, i as int - 1));
            assert(v@.subrange(0, i as int).last() == v@[i as int - 1]);
            let cut = v@.subrange(0, i as int);
            assert(cut.drop_last().push(cut.last()) =~= cut);
            lemma_item_push_to_set(cut.drop_last(), cut.last());
            assert(out@.to_set() =~= cut.to_set());
        }
    }
    proof {
        assert(v@.subrange(0, n as int) =~= v@);
    }
    out
}

/// The symbol standing right after the dot.
pub open spec fn next_sym(it: Item, prods: Seq<(char, Seq<char>)>) -> char {
    prods[it.prod as int].1[it.dot as int]
}

/// Whether the set holds every dot-0 item the given item asks for: when the
/// item's dot stands before a symbol, each user production with that symbol
/// on the left contributes its dot-0 item. The synthetic production at index
/// 0 is never expanded.
pub open spec fn item_expansion_in(
    s: Set<Item>,
    prods: Seq<(char, Seq<char>)>,
    it: Item,
) -> bool {
    (it.dot as int) < prods[it.prod as int].1.len() ==> forall|p: int|
        1 <= p < prods.len() && (#[trigger] prods[p]).0 == next_sym(it, prods) ==> s.contains(
            Item { prod: p as usize, dot: 0 },
        )
}

/// A closure-complete item set.
pub open spec fn closed(s: Set<Item>, prods: Seq<(char, Seq<char>)>) -> bool {
    forall|it: Item| #[trigger] s.contains(it) ==> item_expansion_in(s, prods, it)
}

/// What `closure` returns: the canonically sorted, well-formed least closed
/// superset of the input items.
pub open spec fn closure_post(
    prods: Seq<(char, Seq<char>)>,
    input: Set<Item>,
    out: Seq<Item>,
) -> bool {
    &&& sorted_items(out)
    &&& items_wf(out, prods)
    &&& input.subset_of(out.to_set())
    &&& closed(out.to_set(), prods)
    &&& forall|t: Set<Item>|
        input.subset_of(t) && #[trigger] closed(t, prods) ==> out.to_set().subset_of(t)
}

/// The items of `s` whose dot stands before `sym`, with the dot advanced
/// past it.
pub open spec fn goto_kernel(
    s: Set<Item>,
    sym: char,
    prods: Seq<(char, Seq<char>)>,
) -> Set<Item> {
    Set::new(
        |it: Item|
            {
                &&& it.dot >= 1
                &&& item_wf(it, prods)
                &&& s.contains(Item { prod: it.prod, dot: (it.dot - 1) as usize })
                &&& prods[it.prod as int].1[it.dot as int - 1] == sym
            },
    )
}

impl Parser {
    /// The closure of an item set: starting from the given items, every item
    /// whose dot stands before a nonterminal contributes the dot-0 items of
    /// that nonterminal's productions, to a fixpoint. The result is the
    /// least closed superset, in canonical order.
    pub fn closure(items: &Vec<Item>, productions: &Vec<Production>) -> (r: Vec<Item>)
        requires
            items_wf(items@, prod_views(productions@)),
        ensures
            closure_post(prod_views(productions@), items@.to_set(), r@),
    {
        let ghost prods = prod_views(productions@);
        let ghost input = items@.to_set();
        let mut work: Vec<Item> = Vec::new();
        let mut i: usize = 0;
        while i < items.len()
            invariant
                i <= items@.len(),
                prods == prod_views(productions@),
                input == items@.to_set(),
                items_wf(items@, prods),
                work@.no_duplicates(),
                items_wf(work@, prods),
                forall|k: int| 0 <= k < i ==> work@.contains(#[trigger] items@[k]),
                forall|y: Item| #[trigger] work@.contains(y) ==> items@.contains(y),
            decreases items@.len() - i,
        {
            let it = items[i];
            let present = contains_item(&work, it);
            if !present {
                let ghost old_work = work@;
                work.push(it);
                proof {
                    assert(work@ == old_work.push(it));
                    assert(work@[old_work.len() as int] == it);
                    assert(forall|k: int| 0 <= k < old_work.len() ==> work@[k] == old_work[k]);
                    assert forall|y: Item| #[trigger] work@.contains(y) implies items@.contains(
                        y,
                    ) by {
                        let k = choose|k: int| 0 <= k < work@.len() && work@[k] == y;
                        if k < old_work.len() {
                            assert(old_work.contains(y));
                        } else {
                            assert(y == it);
                            assert(items@[i as int] == it);
                        }
                    }
                    assert forall|k: int| 0 <= k < work@.len() implies item_wf(
                        #[trigger] work@[k],
                        prods,
                    ) by {
                        if k < old_work.len() {
                            assert(old_work[k] == work@[k]);
                        }
                    }
                }
            }
            i = i + 1;
        }
        proof {
            assert forall|y: Item| input.contains(y) implies work@.contains(y) by {
                let k = choose|k: int| 0 <= k < items@.len() && items@[k] == y;
            }
        }
        let mut j: usize = 0;
        while j < work.len()
            invariant
                prods == prod_views(productions@),
                j <= work@.len(),
                work@.no_duplicates(),
                items_wf(work@, prods),
                j <= item_universe(prods),
                forall|y: Item| input.contains(y) ==> #[trigger] work@.contains(y),
                forall|t: Set<Item>|
                    input.subset_of(t) && #[trigger] closed(t, prods) ==> work@.to_set().subset_of(
                        t,
                    ),
                forall|k: int|
                    0 <= k < j ==> item_expansion_in(work@.to_set(), prods, #[trigger] work@[k]),
            decreases item_universe(prods) - j,
        {
            proof {
                lemma_items_count(work@, prods);
                assert(j < work@.len() && work@.len() <= item_universe(prods));
            }
            let it = work[j];
            let rhs_len = productions[it.prod].right.len();
            if it.dot < rhs_len {
                let sym = productions[it.prod].right[it.dot];
                proof {
                    assert(sym == next_sym(it, prods));
                }
                let mut p: usize = 1;
                while p < productions.len()
                    invariant
                        prods == prod_views(productions@),
                        1 <= p <= productions@.len(),
                        j < work@.len(),
                        work@[j as int] == it,
                        item_wf(it, prods),
                        (it.dot as int) < prods[it.prod as int].1.len(),
                        sym == next_sym(it, prods),
                        work@.no_duplicates(),
                        items_wf(work@, prods),
                        forall|y: Item| input.contains(y) ==> #[trigger] work@.contains(y),
                        forall|t: Set<Item>|
                            input.subset_of(t) && #[trigger] closed(t, prods)
                                ==> work@.to_set().subset_of(t),
                        forall|k: int|
                            0 <= k < j ==> item_expansion_in(
                                work@.to_set(),
                                prods,
                                #[trigger] work@[k],
                            ),
                        forall|q: int|
                            1 <= q < p && (#[trigger] prods[q]).0 == sym ==> work@.contains(
                                Item { prod: q as usize, dot: 0 },
                            ),
                    decreases productions@.len() - p,
                {
                    let mut pushed_new = false;
                    if productions[p].left == sym {
                        let cand = Item { prod: p, dot: 0 };
                        let present = contains_item(&work, cand);
                        if !present {
                            let ghost old_work = work@;
                            work.push(cand);
                            pushed_new = true;
                            proof {
                                lemma_work_push(old_work, cand, prods, input, j as int);
                                assert(prods[p as int].0 == sym);
                                assert(item_wf(cand, prods));
                                assert(work@[old_work.len() as int] == cand);
                                assert(work@.contains(cand));
                                assert forall|t: Set<Item>|
                                    input.subset_of(t) && #[trigger] closed(t, prods)
                                        implies work@.to_set().subset_of(t) by {
                                    assert(old_work.to_set().subset_of(t));
                                    assert(old_work.contains(it));
                                    assert(old_work.to_set().contains(it));
                                    assert(t.contains(it));
                                    assert(item_expansion_in(t, prods, it));
                                    assert(t.contains(cand));
                                    lemma_item_push_to_set(old_work, cand);
                                }
                            }
                        }
                    }
                    proof {
                        assert forall|q: int|
                            1 <= q < p + 1 && (#[trigger] prods[q]).0 == sym implies work@.contains(
                                Item { prod: q as usize, dot: 0 },
                            ) by {
                        }
                    }
                    p = p + 1;
                }
            }
            j = j + 1;
            proof {
                assert forall|k: int| 0 <= k < j implies item_expansion_in(
                    work@.to_set(),
                    prods,
                    #[trigger] work@[k],
                ) by {
                }
            }
        }
        let r = sort_items(&work);
        proof {
            assert(r@.to_set() == work@.to_set());
            assert forall|k: int| 0 <= k < r@.len() implies item_wf(#[trigger] r@[k], prods) by {
                assert(r@.contains(r@[k]));
                assert(r@.to_set().contains(r@[k]));
                assert(work@.to_set().contains(r@[k]));
                let m = choose|m: int| 0 <= m < work@.len() && work@[m] == r@[k];
            }
            assert forall|y: Item| input.contains(y) implies r@.to_set().contains(y) by {
                assert(work@.contains(y));
            }
            assert(closed(r@.to_set(), prods)) by {
                assert forall|y: Item| #[trigger] r@.to_set().contains(y) implies item_expansion_in(
                    r@.to_set(),
                    prods,
                    y,
                ) by {
                    let m = choose|m: int| 0 <= m < work@.len() && work@[m] == y;
                    assert(item_expansion_in(work@.to_set(), prods, work@[m]));
                }
            }
        }
        r
    }

    /// The goto move: selects every item whose dot stands right before the
    /// symbol, advances each dot by one, and closes the result. An input
    /// without such items yields the empty set.
    pub fn goto(items: &Vec<Item>, symbol: char, productions: &Vec<Production>) -> (r: Vec<Item>)
        requires
            items_wf(items@, prod_views(productions@)),
        ensures
            closure_post(
                prod_views(productions@),
                goto_kernel(items@.to_set(), symbol, prod_views(productions@)),
                r@,
            ),
    {
        let ghost prods = prod_views(productions@);
        let mut kernel: Vec<Item> = Vec::new();
        let mut i: usize = 0;
        while i < items.len()
            invariant
                i <= items@.len(),
                prods == prod_views(productions@),
                items_wf(items@, prods),
                items_wf(kernel@, prods),
                forall|y: Item| #[trigger] kernel@.contains(y) ==> goto_kernel(
                    items@.to_set(),
                    symbol,
                    prods,
                ).contains(y),
                forall|k: int|
                    0 <= k < i && (#[trigger] items@[k]).dot < prods[items@[k].prod as int].1.len()
                        && prods[items@[k].prod as int].1[items@[k].dot as int] == symbol
                        ==> kernel@.contains(
                        Item { prod: items@[k].prod, dot: (items@[k].dot + 1) as usize },
                    ),
            decreases items@.len() - i,
        {
            let it = items[i];
            let rhs_len = productions[it.prod].right.len();
            if it.dot < rhs_len && productions[it.prod].right[it.dot] == symbol {
                let cand = Item { prod: it.prod, dot: it.dot + 1 };
                let present = contains_item(&kernel, cand);
                if !present {
                    let ghost old_kernel = kernel@;
                    kernel.push(cand);
                    proof {
                        assert(kernel@ == old_kernel.push(cand));
                        assert(kernel@[old_kernel.len() as int] == cand);
                        assert(forall|k: int|
                            0 <= k < old_kernel.len() ==> kernel@[k] == old_kernel[k]);
                        assert(items@.to_set().contains(it)) by {
                            assert(items@[i as int] == it);
                        }
                        assert(item_wf(cand, prods));
                        assert(goto_kernel(items@.to_set(), symbol, prods).contains(cand));
                        assert forall|y: Item| #[trigger] kernel@.contains(y) implies goto_kernel(
                            items@.to_set(),
                            symbol,
                            prods,
                        ).contains(y) by {
                            let k = choose|k: int| 0 <= k < kernel@.len() && kernel@[k] == y;
                            if k < old_kernel.len() {
                                assert(old_kernel.contains(y));
                            }
                        }
                        assert forall|k: int| 0 <= k < kernel@.len() implies item_wf(
                            #[trigger] kernel@[k],
                            prods,
                        ) by {
                            if k < old_kernel.len() {
                                assert(old_kernel[k] == kernel@[k]);
                            }
                        }
                    }
                }
            }
            i = i + 1;
        }
        proof {
            assert(kernel@.to_set() =~= goto_kernel(items@.to_set(), symbol, prods)) by {
                assert forall|y: Item| kernel@.to_set().contains(y) implies goto_kernel(
                    items@.to_set(),
                    symbol,
                    prods,
                ).contains(y) by {
                    assert(kernel@.contains(y));
                }
                assert forall|y: Item|
                    goto_kernel(items@.to_set(), symbol, prods).contains(y) implies kernel@
                    .to_set().contains(y) by {
                    let prev = Item { prod: y.prod, dot: (y.dot - 1) as usize };
                    assert(items@.to_set().contains(prev));
                    let k = choose|k: int| 0 <= k < items@.len() && items@[k] == prev;
                    assert(kernel@.contains(Item { prod: prev.prod, dot: (prev.dot + 1) as usize }));
                    assert(Item { prod: prev.prod, dot: (prev.dot + 1) as usize } == y);
                }
            }
        }
        Self::closure(&kernel, productions)
    }
}

/// A closure holds everything it was grown from: each input item stands in
/// the result.
pub proof fn lemma_closure_superset(
    prods: Seq<(char, Seq<char>)>,
    input: Set<Item>,
    out: Seq<Item>,
)
    requires
        closure_post(prods, input, out),
    ensures
        forall|it: Item| input.contains(it) ==> out.contains(it),
{
    assert forall|it: Item| input.contains(it) implies out.contains(it) by {
        assert(out.to_set().contains(it));
    }
}

/// The closure of a set is pinned: any two canonical results for the same
/// input are equal.
pub proof fn lemma_closure_post_unique(
    prods: Seq<(char, Seq<char>)>,
    input: Set<Item>,
    r1: Seq<Item>,
    r2: Seq<Item>,
)
    requires
        closure_post(prods, input, r1),
        closure_post(prods, input, r2),
    ensures
        r1 == r2,
{
    assert(r1.to_set().subset_of(r2.to_set()));
    assert(r2.to_set().subset_of(r1.to_set()));
    assert(r1.to_set() =~= r2.to_set());
    lemma_sorted_canonical(r1, r2);
}

/// Taking the closure twice adds nothing: the closure of a closure's member
/// set is that closure again. Together with the input-containment clause of
/// [`closure_post`], this is the fixpoint law of the closure operation.
pub proof fn lemma_closure_idempotent(
    prods: Seq<(char, Seq<char>)>,
    input: Set<Item>,
    r1: Seq<Item>,
    r2: Seq<Item>,
)
    requires
        closure_post(prods, input, r1),
        closure_post(prods, r1.to_set(), r2),
    ensures
        r2 == r1,
{
    assert(r1.to_set().subset_of(r1.to_set()));
    assert(r2.to_set().subset_of(r1.to_set()));
    assert(r1.to_set().subset_of(r2.to_set()));
    assert(r1.to_set() =~= r2.to_set());
    lemma_sorted_canonical(r2, r1);
}

/// Pushing a fresh item onto the working vector keeps its bookkeeping.
proof fn lemma_work_push(
    old_work: Seq<Item>,
    cand: Item,
    prods: Seq<(char, Seq<char>)>,
    input: Set<Item>,
    j: int,
)
    requires
        old_work.no_duplicates(),
        !old_work.contains(cand),
        items_wf(old_work, prods),
        item_wf(cand, prods),
        forall|y: Item| input.contains(y) ==> #[trigger] old_work.contains(y),
        forall|k: int|
            0 <= k < j ==> item_expansion_in(old_work.to_set(), prods, #[trigger] old_work[k]),
        0 <= j < old_work.len(),
    ensures
        old_work.push(cand).no_duplicates(),
        items_wf(old_work.push(cand), prods),
        forall|y: Item| input.contains(y) ==> #[trigger] old_work.push(cand).contains(y),
        forall|k: int|
            0 <= k < j ==> item_expansion_in(
                old_work.push(cand).to_set(),
                prods,
                #[trigger] old_work.push(cand)[k],
            ),
        forall|q: int|
            1 <= q < prods.len() && old_work.contains(
                Item { prod: q as usize, dot: 0 },
            ) ==> #[trigger] old_work.push(cand).contains(Item { prod: q as usize, dot: 0 }),
{
    let new_work = old_work.push(cand);
    lemma_item_push_to_set(old_work, cand);
    assert(forall|k: int| 0 <= k < old_work.len() ==> new_work[k] == old_work[k]);
    assert(new_work[old_work.len() as int] == cand);
    assert(new_work.no_duplicates()) by {
        assert forall|i: int, j2: int|
            0 <= i < new_work.len() && 0 <= j2 < new_work.len() && i != j2 implies new_work[i]
            != new_work[j2] by {
            if i < old_work.len() && j2 < old_work.len() {
            } else if i < old_work.len() {
                assert(old_work.contains(old_work[i]));
            } else if j2 < old_work.len() {
                assert(old_work.contains(old_work[j2]));
            }
        }
    }
    assert forall|k: int| 0 <= k < new_work.len() implies item_wf(#[trigger] new_work[k], prods) by {
        if k < old_work.len() {
            assert(old_work[k] == new_work[k]);
        }
    }
    assert forall|y: Item| input.contains(y) implies #[trigger] new_work.contains(y) by {
        assert(old_work.contains(y));
        let k = choose|k: int| 0 <= k < old_work.len() && old_work[k] == y;
        assert(new_work[k] == y);
    }
    assert forall|k: int| 0 <= k < j implies item_expansion_in(
        new_work.to_set(),
        prods,
        #[trigger] new_work[k],
    ) by {
        assert(new_work[k] == old_work[k]);
        assert(item_expansion_in(old_work.to_set(), prods, old_work[k]));
        assert(new_work.to_set() == old_work.to_set().insert(cand));
    }
    assert forall|q: int|
        1 <= q < prods.len() && old_work.contains(
            Item { prod: q as usize, dot: 0 },
        ) implies #[trigger] new_work.contains(Item { prod: q as usize, dot: 0 }) by {
        let k = choose|k: int|
            0 <= k < old_work.len() && old_work[k] == Item { prod: q as usize, dot: 0 };
        assert(new_work[k] == Item { prod: q as usize, dot: 0 });
    }
}

/// A sequence extended by one item holds exactly one more member.
pub proof fn lemma_item_push_to_set(s: Seq<Item>, x: Item)
    ensures
        s.push(x).to_set() == s.to_set().insert(x),
{
    assert forall|y: Item| s.push(x).to_set().contains(y) implies s.to_set().insert(x).contains(
        y,
    ) by {
        let i = choose|i: int| 0 <= i < s.push(x).len() && s.push(x)[i] == y;
        if i < s.len() {
            assert(s[i] == y);
        }
    }
    assert forall|y: Item| s.to_set().insert(x).contains(y) implies s.push(x).to_set().contains(
        y,
    ) by {
        if y == x {
            assert(s.push(x)[s.len() as int] == y);
        } else {
            let i = choose|i: int| 0 <= i < s.len() && s[i] == y;
            assert(s.push(x)[i] == y);
        }
    }
    assert(s.push(x).to_set() =~= s.to_set().insert(x));
}

} // verus!
