//! The parser object: an immutable action/goto table built once from a
//! grammar, and the shift-reduce driver that consumes it.
//!
//! The driver is a step machine over a configuration of three parts: a state
//! stack, a parallel stack of finished subtrees, and the input position.
//! [`step`] says exactly what one move does; [`run`] iterates it under an
//! iteration budget. The budget makes the driver total: a grammar whose
//! reductions cycle without consuming input (mutually recursive unit
//! productions, for example) would otherwise loop forever, and a run that
//! exhausts the budget reports failure by an empty forest, like any other
//! failed parse.

use vstd::prelude::*;
use crate::grammar::Production;
use crate::grammar::prod_views;
use crate::grammar::reducer_views;
use crate::grammar::reducer_of;
use crate::grammar::text_wf;
use crate::grammar::line_wf;
use crate::grammar::line_error;
use crate::grammar::first_bad_line;
use crate::grammar::split_lines;
use crate::grammar::nonterminals_of;
use crate::grammar::terminals_of;
use crate::ast::AstNode;
use crate::ast::Tree;
use crate::ast::tree_of;
use crate::ast::forest_of;
use crate::ast::lemma_forest_of;
use crate::table::aug_prods;
use crate::table::symbols_of;
use crate::table::col_of;
use crate::table::lemma_col_of;
use crate::table::table_views;
use crate::table::table_ok;
use crate::table::table_basic;
use crate::text::str_to_chars;
use crate::text::push_char;
use vstd::string::StringExecFns;

verus! {

/// One cell of the action/goto table.
#[derive(PartialEq, Eq, Structural, Clone, Copy, Debug)]
pub enum Action {
    /// Consume the input symbol and move to the given state.
    Shift(usize),
    /// Replace a recognized right-hand side by its production's left symbol;
    /// the index is 1-based into the user production list.
    Reduce(usize),
    /// Full input recognized.
    Accept,
    /// Post-reduce transition on a nonterminal.
    Goto(usize),
    /// No action defined.
    Error,
}

/// A ready-to-use parser: the productions (the synthetic start production at
/// index 0, the user productions after it in file order), the symbol
/// classification, the table's column order, and the action/goto table
/// itself. All fields are read-only after construction; the driver keeps its
/// per-call scratch in locals, so one parser may serve many calls.
pub struct Parser {
    /// Index 0 is the synthetic start production; user productions follow in
    /// file order. The left symbol of index 0 is never consulted.
    pub productions: Vec<Production>,
    /// The grammar's terminals, in order of first occurrence.
    pub terminals: Vec<char>,
    /// The grammar's nonterminals, in order of first left-hand occurrence.
    pub non_terminals: Vec<char>,
    /// The table's column order: terminals, the end marker `'$'`, then
    /// nonterminals.
    pub symbols: Vec<char>,
    /// One row per automaton state, one cell per symbol.
    pub table: Vec<Vec<Action>>,
}

/// The action the table holds for a state and an input symbol: `Error` when
/// the state is out of range or the symbol is not a column.
pub open spec fn action_spec(
    symbols: Seq<char>,
    table: Seq<Seq<Action>>,
    state: int,
    sym: char,
) -> Action {
    if state < 0 || state >= table.len() {
        Action::Error
    } else {
        let c = col_of(symbols, sym);
        if c < 0 || c >= table[state].len() {
            Action::Error
        } else {
            table[state][c]
        }
    }
}

/// A driver configuration: the state stack, the finished subtrees, and the
/// input position.
pub struct Config {
    pub stack: Seq<usize>,
    pub asts: Seq<Tree>,
    pub pos: int,
}

/// What one driver move yields: the next configuration, or the finished
/// forest.
pub enum StepResult {
    Next(Config),
    Done(Seq<Tree>),
}

/// The configuration every parse starts from: state 0 pushed, no subtrees,
/// the cursor at the first input symbol.
pub open spec fn init_config() -> Config {
    Config { stack: seq![0usize], asts: Seq::empty(), pos: 0 }
}

/// One move of the driver. Exhausted input yields the forest built so far;
/// `Shift` pushes the state and a leaf; `Reduce` folds the recognized
/// right-hand side into one node, uncovers the state beneath and follows its
/// goto entry if there is one; `Accept` yields the forest; anything else,
/// and any out-of-range index, yields the empty forest.
pub open spec fn step(
    prods: Seq<(char, Seq<char>)>,
    symbols: Seq<char>,
    table: Seq<Seq<Action>>,
    input: Seq<char>,
    c: Config,
) -> StepResult {
    if c.pos < 0 || c.pos >= input.len() {
        StepResult::Done(c.asts)
    } else if c.stack.len() == 0 {
        StepResult::Done(Seq::empty())
    } else {
        let sym = input[c.pos];
        let st = c.stack.last();
        match action_spec(symbols, table, st as int, sym) {
            Action::Shift(s) => StepResult::Next(
                Config {
                    stack: c.stack.push(s),
                    asts: c.asts.push(Tree::Leaf(sym)),
                    pos: c.pos + 1,
                },
            ),
            Action::Reduce(id) => {
                if id < 1 || id >= prods.len() {
                    StepResult::Done(Seq::empty())
                } else {
                    let width = prods[id as int].1.len() as int;
                    let left = prods[id as int].0;
                    if c.stack.len() < width + 1 || c.asts.len() < width {
                        StepResult::Done(Seq::empty())
                    } else {
                        let children = c.asts.subrange(
                            c.asts.len() - width,
                            c.asts.len() as int,
                        ).reverse();
                        let node = Tree::Node(left, children);
                        let asts2 = c.asts.subrange(0, c.asts.len() - width).push(node);
                        let stack2 = c.stack.subrange(0, c.stack.len() - width);
                        let stack3 = match action_spec(
                            symbols,
                            table,
                            stack2.last() as int,
                            left,
                        ) {
                            Action::Goto(nx) => stack2.push(nx),
                            _ => stack2,
                        };
                        StepResult::Next(Config { stack: stack3, asts: asts2, pos: c.pos })
                    }
                }
            },
            Action::Accept => StepResult::Done(c.asts),
            Action::Goto(_) => StepResult::Done(Seq::empty()),
            Action::Error => StepResult::Done(Seq::empty()),
        }
    }
}

/// The forest the driver yields from a configuration within the given
/// number of moves; an exhausted budget is a failed parse.
pub open spec fn run(
    prods: Seq<(char, Seq<char>)>,
    symbols: Seq<char>,
    table: Seq<Seq<Action>>,
    input: Seq<char>,
    c: Config,
    fuel: nat,
) -> Seq<Tree>
    decreases fuel,
{
    if fuel == 0 {
        Seq::empty()
    } else {
        match step(prods, symbols, table, input, c) {
            StepResult::Done(r) => r,
            StepResult::Next(c2) => run(prods, symbols, table, input, c2, (fuel - 1) as nat),
        }
    }
}

/// The driver's iteration budget for an input of the given length: ample
/// for any terminating parse of realistic size, and what makes the driver
/// total on grammars whose reductions cycle.
pub open spec fn parse_budget(n: nat) -> nat {
    n * 4096 + 1048576
}

/// What a parse returns: the budgeted run of the step machine from the
/// initial configuration.
pub open spec fn parse_result(p: Parser, input: Seq<char>) -> Seq<Tree> {
    run(
        prod_views(p.productions@),
        p.symbols@,
        table_views(p.table@),
        input,
        init_config(),
        parse_budget(input.len()),
    )
}

/// The message construction fails with: the first bad line's error for
/// malformed text, otherwise the report that the grammar is empty.
pub open spec fn construction_error(s: Seq<char>) -> Seq<char> {
    if !text_wf(s) {
        line_error(split_lines(s)[first_bad_line(split_lines(s))])
    } else {
        "Grammar has no productions"@
    }
}

/// The decimal digit character of a value below ten.
pub open spec fn digit_char(d: nat) -> char {
    ((48 + d) as u8) as char
}

/// The decimal digits of a number, most significant first.
pub open spec fn dec_digits(n: nat) -> Seq<char>
    decreases n,
{
    if n < 10 {
        seq![digit_char(n)]
    } else {
        dec_digits(n / 10).push(digit_char(n % 10))
    }
}

/// The rendering of a table cell: `s`/`r`/`g` with the target number,
/// `acc`, or nothing for `Error`.
pub open spec fn action_text(a: Action) -> Seq<char> {
    match a {
        Action::Shift(s) => seq!['s'] + dec_digits(s as nat),
        Action::Reduce(p) => seq!['r'] + dec_digits(p as nat),
        Action::Goto(s) => seq!['g'] + dec_digits(s as nat),
        Action::Accept => seq!['a', 'c', 'c'],
        Action::Error => Seq::empty(),
    }
}

/// Writes the decimal digits of a number onto the string.
pub(crate) fn push_decimal(out: &mut String, n: usize)
    ensures
        final(out)@ == old(out)@ + dec_digits(n as nat),
    decreases n,
{
    if n < 10 {
        let d = 48 + (n as u8);
        push_char(out, d as char);
        proof {
            assert(d as char == digit_char(n as nat));
            assert(out@ =~= old(out)@ + dec_digits(n as nat));
        }
    } else {
        push_decimal(out, n / 10);
        let d = 48 + ((n % 10) as u8);
        push_char(out, d as char);
        proof {
            assert(d as char == digit_char(n as nat % 10));
            assert(n as nat / 10 == (n / 10) as nat);
            assert(dec_digits(n as nat) == dec_digits(n as nat / 10).push(
                digit_char(n as nat % 10),
            ));
            assert(out@ =~= old(out)@ + dec_digits(n as nat));
        }
    }
}

/// The relation between a parser and the grammar it was built from.
pub open spec fn built_from(p: Parser, rv: Seq<(char, Seq<char>)>) -> bool {
    &&& rv.len() >= 1
    &&& prod_views(p.productions@) == aug_prods(rv)
    &&& p.non_terminals@ == nonterminals_of(rv)
    &&& p.terminals@ == terminals_of(rv)
    &&& p.symbols@ == symbols_of(rv)
    &&& table_ok(rv, p.symbols@, table_views(p.table@))
    &&& table_basic(p.symbols@, table_views(p.table@), p.productions@.len() as int)
}

/// Two parsers built from the same grammar agree on everything the grammar
/// pins down: the augmented productions, the symbol classification, and the
/// column order.
pub proof fn lemma_built_parsers_agree(p1: Parser, p2: Parser, rv: Seq<(char, Seq<char>)>)
    requires
        built_from(p1, rv),
        built_from(p2, rv),
    ensures
        prod_views(p1.productions@) == prod_views(p2.productions@),
        p1.terminals@ == p2.terminals@,
        p1.non_terminals@ == p2.non_terminals@,
        p1.symbols@ == p2.symbols@,
{
}

impl Parser {
    /// Builds a parser from a textual production list. Fails exactly on
    /// malformed text, with the error naming the first bad line, and on a
    /// grammar with no productions at all.
    pub fn new_from_string(reducer_str: &str) -> (r: Result<Parser, String>)
        ensures
            r is Ok <==> (text_wf(reducer_str@) && reducer_of(reducer_str@).len() >= 1),
            r matches Ok(p) ==> built_from(p, reducer_of(reducer_str@)),
            r matches Err(e) ==> e@ == construction_error(reducer_str@),
    {
        let reducer_map = match crate::grammar::from_reducer_string(reducer_str) {
            Ok(m) => m,
            Err(e) => {
                proof {
                    let ls = split_lines(reducer_str@);
                    let k = choose|k: int|
                        0 <= k < ls.len() && !line_wf(#[trigger] ls[k]) && e@ == line_error(ls[k])
                            && (forall|j: int| 0 <= j < k ==> line_wf(ls[j]));
                    crate::grammar::lemma_first_bad_line(ls, k);
                    assert(!text_wf(reducer_str@));
                }
                return Err(e);
            },
        };
        if reducer_map.is_empty() {
            proof {
                assert(reducer_views(reducer_map@).len() == 0);
                reveal_strlit("Grammar has no productions");
            }
            return Err(String::from_str("Grammar has no productions"));
        }
        let ghost rv = reducer_views(reducer_map@);
        let (symbols, table) = Self::generate_lr0_table(&reducer_map);
        let (productions, non_terminals, terminals) = Self::augmented_grammar(&reducer_map);
        let p = Parser { productions, terminals, non_terminals, symbols, table };
        proof {
            assert(rv == reducer_of(reducer_str@));
            assert(p.productions@.len() == rv.len() + 1) by {
                assert(prod_views(p.productions@).len() == aug_prods(rv).len());
            }
            assert(built_from(p, reducer_of(reducer_str@)));
        }
        Ok(p)
    }

    /// The action for a state and an input symbol. A state out of range or
    /// a symbol that is not a column yields `Error`; the driver treats an
    /// input symbol outside the grammar's alphabet as a failed parse this
    /// way.
    pub fn action(&self, state: usize, input: char) -> (a: Action)
        ensures
            a == action_spec(self.symbols@, table_views(self.table@), state as int, input),
    {
        proof {
            lemma_col_of(self.symbols@, input);
        }
        if state >= self.table.len() {
            return Action::Error;
        }
        let row = &self.table[state];
        proof {
            assert(table_views(self.table@)[state as int] == row@);
        }
        let mut i: usize = 0;
        while i < self.symbols.len()
            invariant
                i <= self.symbols@.len(),
                (state as int) < table_views(self.table@).len(),
                row@ == table_views(self.table@)[state as int],
                forall|j: int| 0 <= j < i ==> self.symbols@[j] != input,
            decreases self.symbols@.len() - i,
        {
            if self.symbols[i] == input {
                proof {
                    lemma_col_of(self.symbols@, input);
                    assert(self.symbols@.contains(input)) by {
                        assert(self.symbols@[i as int] == input);
                    }
                    assert(col_of(self.symbols@, input) == i as int);
                }
                if i < row.len() {
                    return row[i];
                } else {
                    return Action::Error;
                }
            }
            i = i + 1;
        }
        proof {
            lemma_col_of(self.symbols@, input);
            if self.symbols@.contains(input) {
                assert(self.symbols@[col_of(self.symbols@, input)] == input);
                assert(false);
            }
        }
        Action::Error
    }

    /// The width and left symbol of the user production a reduce action
    /// names: how many nodes to fold, and the nonterminal that results.
    pub fn apply_reducer(&self, id: usize) -> (r: (usize, char))
        requires
            1 <= id < self.productions@.len(),
        ensures
            r.0 == prod_views(self.productions@)[id as int].1.len(),
            r.1 == prod_views(self.productions@)[id as int].0,
    {
        let width = self.productions[id].right.len();
        let left = self.productions[id].left;
        (width, left)
    }

    /// Parses an input symbol string into a syntax forest by the table: the
    /// budgeted run of the step machine from the initial configuration. The
    /// caller appends the end marker `'$'` itself. A failed parse — an
    /// `Error` cell, an input symbol outside the alphabet, or an exhausted
    /// budget — yields the empty forest; an anomalous completion may yield
    /// more than one root, and the forest is returned as it stands.
    pub fn parse(&self, input: &str) -> (r: Vec<AstNode>)
        ensures
            forest_of(r@) == parse_result(*self, input@),
    {
        let ghost prods = prod_views(self.productions@);
        let ghost symbols = self.symbols@;
        let ghost tbl = table_views(self.table@);
        let chars = str_to_chars(input);
        let n = chars.len();
        let budget: u128 = (n as u128) * 4096 + 1048576;
        let mut stack: Vec<usize> = Vec::new();
        stack.push(0);
        let mut ast_stack: Vec<AstNode> = Vec::new();
        let mut pos: usize = 0;
        let mut steps: u128 = 0;
        let ghost full = run(prods, symbols, tbl, input@, init_config(), budget as nat);
        proof {
            assert(budget as nat == parse_budget(input@.len()));
            assert(stack@ =~= seq![0usize]);
            assert(forest_of(ast_stack@) =~= Seq::<Tree>::empty());
            assert(Config { stack: stack@, asts: forest_of(ast_stack@), pos: pos as int }
                == init_config());
        }
        loop
            invariant
                prods == prod_views(self.productions@),
                symbols == self.symbols@,
                tbl == table_views(self.table@),
                chars@ == input@,
                n == input@.len(),
                budget as nat == parse_budget(input@.len()),
                pos <= n,
                steps <= budget,
                full == run(prods, symbols, tbl, input@, init_config(), parse_budget(input@.len())),
                full == run(
                    prods,
                    symbols,
                    tbl,
                    input@,
                    Config { stack: stack@, asts: forest_of(ast_stack@), pos: pos as int },
                    (budget - steps) as nat,
                ),
            decreases budget - steps,
        {
            let ghost cur = Config {
                stack: stack@,
                asts: forest_of(ast_stack@),
                pos: pos as int,
            };
            let ghost m = (budget - steps) as nat;
            proof {
                lemma_forest_of(ast_stack@);
            }
            if steps == budget {
                let empty: Vec<AstNode> = Vec::new();
                proof {
                    assert(run(prods, symbols, tbl, input@, cur, 0) == Seq::<Tree>::empty());
                    assert(forest_of(empty@) =~= Seq::<Tree>::empty());
                }
                return empty;
            }
            if pos >= n {
                proof {
                    assert(step(prods, symbols, tbl, input@, cur) == StepResult::Done(cur.asts));
                    assert(full == forest_of(ast_stack@));
                }
                return ast_stack;
            }
            if stack.len() == 0 {
                let empty: Vec<AstNode> = Vec::new();
                proof {
                    assert(step(prods, symbols, tbl, input@, cur) == StepResult::Done(
                        Seq::<Tree>::empty(),
                    ));
                    assert(forest_of(empty@) =~= Seq::<Tree>::empty());
                }
                return empty;
            }
            let st = stack[stack.len() - 1];
            let sym = chars[pos];
            proof {
                assert(cur.stack.last() == st);
                assert(input@[pos as int] == sym);
            }
            let act = self.action(st, sym);
            match act {
                Action::Shift(s) => {
                    let ghost old_asts = ast_stack@;
                    let ghost old_stack = stack@;
                    stack.push(s);
                    ast_stack.push(AstNode::Terminal(sym));
                    pos = pos + 1;
                    steps = steps + 1;
                    proof {
                        crate::ast::lemma_forest_push(old_asts, AstNode::Terminal(sym));
                        let c2 = Config {
                            stack: old_stack.push(s),
                            asts: forest_of(old_asts).push(Tree::Leaf(sym)),
                            pos: cur.pos + 1,
                        };
                        assert(step(prods, symbols, tbl, input@, cur) == StepResult::Next(c2));
                        assert(run(prods, symbols, tbl, input@, cur, m) == run(
                            prods,
                            symbols,
                            tbl,
                            input@,
                            c2,
                            (m - 1) as nat,
                        ));
                        assert(stack@ == c2.stack);
                        crate::ast::lemma_tree_of_terminal(sym);
                        assert(tree_of(AstNode::Terminal(sym)) == Tree::Leaf(sym));
                        assert(forest_of(ast_stack@) == c2.asts);
                        assert(pos as int == c2.pos);
                        assert(Config {
                            stack: stack@,
                            asts: forest_of(ast_stack@),
                            pos: pos as int,
                        } == c2);
                    }
                },
                Action::Reduce(id) => {
                    if id < 1 || id >= self.productions.len() {
                        let empty: Vec<AstNode> = Vec::new();
                        proof {
                            assert(step(prods, symbols, tbl, input@, cur) == StepResult::Done(
                                Seq::<Tree>::empty(),
                            ));
                            assert(forest_of(empty@) =~= Seq::<Tree>::empty());
                        }
                        return empty;
                    }
                    let (width, left) = self.apply_reducer(id);
                    if stack.len() <= width || ast_stack.len() < width {
                        let empty: Vec<AstNode> = Vec::new();
                        proof {
                            assert(cur.stack.len() < width + 1 || cur.asts.len() < width);
                            assert(step(prods, symbols, tbl, input@, cur) == StepResult::Done(
                                Seq::<Tree>::empty(),
                            ));
                            assert(forest_of(empty@) =~= Seq::<Tree>::empty());
                        }
                        return empty;
                    }
                    let ghost orig_stack = stack@;
                    let ghost orig_asts = ast_stack@;
                    let mut children: Vec<AstNode> = Vec::new();
                    let mut t: usize = 0;
                    proof {
                        assert(ast_stack@ =~= orig_asts.subrange(0, orig_asts.len() as int));
                    }
                    while t < width
                        invariant
                            t <= width,
                            width <= orig_asts.len(),
                            ast_stack@ == orig_asts.subrange(0, orig_asts.len() - t),
                            children@.len() == t,
                            forall|q: int|
                                0 <= q < t ==> children@[q] == orig_asts[orig_asts.len() - 1 - q],
                        decreases width - t,
                    {
                        let node = ast_stack.pop().unwrap();
                        children.push(node);
                        t = t + 1;
                        proof {
                            assert(ast_stack@ =~= orig_asts.subrange(0, orig_asts.len() - t));
                            assert(children@.last() == orig_asts.subrange(
                                0,
                                orig_asts.len() - t + 1,
                            )[orig_asts.len() - t]);
                        }
                    }
                    let ghost popped_asts = ast_stack@;
                    let ghost children_snap = children@;
                    let ghost node_snap = AstNode::NonTerminal(left, children);
                    let node = AstNode::NonTerminal(left, children);
                    proof {
                        assert(node == node_snap);
                    }
                    ast_stack.push(node);
                    let mut t2: usize = 0;
                    proof {
                        assert(stack@ =~= orig_stack.subrange(0, orig_stack.len() as int));
                    }
                    while t2 < width
                        invariant
                            t2 <= width,
                            width < orig_stack.len(),
                            stack@ == orig_stack.subrange(0, orig_stack.len() - t2),
                        decreases width - t2,
                    {
                        let _ = stack.pop();
                        t2 = t2 + 1;
                        proof {
                            assert(stack@ =~= orig_stack.subrange(0, orig_stack.len() - t2));
                        }
                    }
                    let st2 = stack[stack.len() - 1];
                    let act2 = self.action(st2, left);
                    let is_goto: bool;
                    match act2 {
                        Action::Goto(nx) => {
                            stack.push(nx);
                            is_goto = true;
                        },
                        _ => {
                            is_goto = false;
                        },
                    }
                    steps = steps + 1;
                    proof {
                        lemma_forest_of(orig_asts);
                        lemma_forest_of(children_snap);
                        let clen = cur.asts.len() as int;
                        let w = width as int;
                        let children_trees = cur.asts.subrange(clen - w, clen).reverse();
                        assert(forest_of(children_snap) =~= children_trees) by {
                            assert forall|q: int|
                                0 <= q < w implies forest_of(children_snap)[q] == children_trees[q] by {
                                assert(forest_of(children_snap)[q] == tree_of(children_snap[q]));
                                assert(children_snap[q] == orig_asts[orig_asts.len() - 1 - q]);
                                assert(children_trees[q] == cur.asts.subrange(clen - w, clen)[w - 1
                                    - q]);
                                assert(cur.asts.subrange(clen - w, clen)[w - 1 - q] == cur.asts[clen
                                    - 1 - q]);
                                assert(cur.asts[clen - 1 - q] == tree_of(
                                    orig_asts[orig_asts.len() - 1 - q],
                                ));
                            }
                        }
                        assert(prods[id as int].1.len() == width);
                        assert(prods[id as int].0 == left);
                        let spec_node = Tree::Node(left, children_trees);
                        let asts2 = cur.asts.subrange(0, clen - w).push(spec_node);
                        let stack2 = cur.stack.subrange(0, cur.stack.len() - w);
                        assert(stack2 == orig_stack.subrange(0, orig_stack.len() - t2));
                        assert(st2 == stack2.last());
                        let stack3 = match action_spec(symbols, tbl, stack2.last() as int, left) {
                            Action::Goto(nx) => stack2.push(nx),
                            _ => stack2,
                        };
                        assert(stack@ == stack3);
                        assert(ast_stack@ == popped_asts.push(node_snap));
                        crate::ast::lemma_forest_push(popped_asts, node_snap);
                        assert(tree_of(node_snap) == Tree::Node(left, forest_of(children_snap)));
                        assert(tree_of(node_snap) == spec_node);
                        assert(forest_of(popped_asts) =~= cur.asts.subrange(0, clen - w)) by {
                            lemma_forest_of(popped_asts);
                            assert forall|q: int|
                                0 <= q < clen - w implies forest_of(popped_asts)[q] == cur
                                .asts.subrange(0, clen - w)[q] by {
                                assert(popped_asts[q] == orig_asts[q]);
                                assert(cur.asts[q] == tree_of(orig_asts[q]));
                            }
                        }
                        assert(forest_of(ast_stack@) == asts2);
                        let c2 = Config { stack: stack3, asts: asts2, pos: cur.pos };
                        assert(step(prods, symbols, tbl, input@, cur) == StepResult::Next(c2));
                        assert(run(prods, symbols, tbl, input@, cur, m) == run(
                            prods,
                            symbols,
                            tbl,
                            input@,
                            c2,
                            (m - 1) as nat,
                        ));
                        assert(Config {
                            stack: stack@,
                            asts: forest_of(ast_stack@),
                            pos: pos as int,
                        } == c2);
                    }
                },
                Action::Accept => {
                    proof {
                        assert(step(prods, symbols, tbl, input@, cur) == StepResult::Done(
                            cur.asts,
                        ));
                        assert(full == forest_of(ast_stack@));
                    }
                    return ast_stack;
                },
                Action::Goto(_) => {
                    let empty: Vec<AstNode> = Vec::new();
                    proof {
                        assert(step(prods, symbols, tbl, input@, cur) == StepResult::Done(
                            Seq::<Tree>::empty(),
                        ));
                        assert(forest_of(empty@) =~= Seq::<Tree>::empty());
                    }
                    return empty;
                },
                Action::Error => {
                    let empty: Vec<AstNode> = Vec::new();
                    proof {
                        assert(step(prods, symbols, tbl, input@, cur) == StepResult::Done(
                            Seq::<Tree>::empty(),
                        ));
                        assert(forest_of(empty@) =~= Seq::<Tree>::empty());
                    }
                    return empty;
                },
            }
        }
    }

    /// Read-only access to the column order and the action matrix, for
    /// rendering by a presentation layer.
    pub fn get_parse_table(&self) -> (r: (&Vec<char>, &Vec<Vec<Action>>))
        ensures
            r.0@ == self.symbols@,
            table_views(r.1@) == table_views(self.table@),
    {
        (&self.symbols, &self.table)
    }

    /// The short rendering of one table cell, for a human-readable table.
    pub fn action_to_string(action: &Action) -> (r: String)
        ensures
            r@ == action_text(*action),
    {
        let mut out = String::new();
        match action {
            Action::Shift(s) => {
                push_char(&mut out, 's');
                push_decimal(&mut out, *s);
                proof {
                    assert(out@ =~= action_text(*action));
                }
            },
            Action::Reduce(p) => {
                push_char(&mut out, 'r');
                push_decimal(&mut out, *p);
                proof {
                    assert(out@ =~= action_text(*action));
                }
            },
            Action::Goto(s) => {
                push_char(&mut out, 'g');
                push_decimal(&mut out, *s);
                proof {
                    assert(out@ =~= action_text(*action));
                }
            },
            Action::Accept => {
                push_char(&mut out, 'a');
                push_char(&mut out, 'c');
                push_char(&mut out, 'c');
                proof {
                    assert(out@ =~= action_text(*action));
                }
            },
            Action::Error => {
                proof {
                    assert(out@ =~= action_text(*action));
                }
            },
        }
        out
    }
}

/// An input whose first symbol is not one of the table's columns fails at
/// once: the parse yields the empty forest.
pub proof fn lemma_unknown_symbol_fails(p: Parser, input: Seq<char>)
    requires
        input.len() > 0,
        !p.symbols@.contains(input[0]),
    ensures
        parse_result(p, input) == Seq::<Tree>::empty(),
{
    let tbl = table_views(p.table@);
    let c0 = init_config();
    lemma_col_of(p.symbols@, input[0]);
    assert(col_of(p.symbols@, input[0]) == -1);
    assert(action_spec(p.symbols@, tbl, c0.stack.last() as int, input[0]) == Action::Error);
    assert(step(prod_views(p.productions@), p.symbols@, tbl, input, c0) == StepResult::Done(
        Seq::<Tree>::empty(),
    ));
    assert(parse_budget(input.len()) > 0);
}

} // verus!
