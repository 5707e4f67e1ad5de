//! The code generator: a consumer of the syntax forest that renders
//! expression trees as the text of a small program.
//!
//! Each terminal symbol may be given a semantic role (an operator, an
//! operand, a number); the generator walks the forest the parser produced
//! and prints one evaluated expression per root.

use vstd::prelude::*;
use crate::ast::AstNode;
use crate::ast::Tree;
use crate::ast::tree_of;
use crate::ast::forest_of;
use crate::ast::lemma_forest_of;
use crate::grammar::reducer_views;
use crate::grammar::reducer_of;
use crate::grammar::text_wf;
use crate::parser::Parser;
use crate::parser::built_from;
use crate::parser::parse_result;
use crate::parser::construction_error;
use crate::parser::dec_digits;
use crate::parser::push_decimal;
use crate::text::push_char;
use vstd::string::StringExecFns;

verus! {

/// The semantic role of a terminal symbol: the first entry for it, or
/// `Token` when none is set.
pub open spec fn role_of(tt: Seq<(char, Seq<char>)>, c: char) -> Seq<char>
    decreases tt.len(),
{
    if tt.len() == 0 {
        seq!['T', 'o', 'k', 'e', 'n']
    } else if tt[0].0 == c {
        tt[0].1
    } else {
        role_of(tt.drop_first(), c)
    }
}

/// The operator text a terminal stands for, by its role; a nonterminal
/// contributes nothing.
pub open spec fn op_of(tt: Seq<(char, Seq<char>)>, t: Tree) -> Seq<char> {
    match t {
        Tree::Leaf(sym) => {
            let role = role_of(tt, sym);
            if role == seq!['A', 'd', 'd'] {
                seq!['+']
            } else if role == seq!['M', 'u', 'l'] {
                seq!['*']
            } else if role == seq!['L', '_', 'p', 'a', 'r', 'e', 'n'] {
                seq!['(']
            } else if role == seq!['R', '_', 'p', 'a', 'r', 'e', 'n'] {
                seq![')']
            } else if role == seq!['T', 'o', 'k', 'e', 'n'] {
                Seq::empty()
            } else {
                seq![sym]
            }
        },
        Tree::Node(_, _) => Seq::empty(),
    }
}

/// The expression text of a tree: a number stands for itself, any other
/// terminal becomes a named token, a one-child node passes through, and a
/// three-child expression node prints as a parenthesized binary operation.
pub open spec fn expr_of(tt: Seq<(char, Seq<char>)>, t: Tree) -> Seq<char>
    decreases t,
{
    match t {
        Tree::Leaf(sym) => {
            if role_of(tt, sym) == seq!['N', 'u', 'm'] {
                seq![sym]
            } else {
                seq!['t', 'o', 'k', 'e', 'n', '_', sym]
            }
        },
        Tree::Node(sym, ch) => {
            if sym == 'E' || sym == 'B' {
                if ch.len() == 1 {
                    expr_of(tt, ch[0])
                } else if ch.len() == 3 {
                    seq!['('] + expr_of(tt, ch[0]) + seq![' '] + op_of(tt, ch[1]) + seq![' ']
                        + expr_of(tt, ch[2]) + seq![')']
                } else {
                    "unknown_structure_"@ + seq![sym]
                }
            } else {
                if ch.len() == 1 {
                    expr_of(tt, ch[0])
                } else {
                    "unknown_nonterminal_"@ + seq![sym]
                }
            }
        },
    }
}

/// One generated line pair for the root at the given one-based position.
pub open spec fn gen_line(tt: Seq<(char, Seq<char>)>, t: Tree, idx: nat) -> Seq<char> {
    "    let result_"@ + dec_digits(idx) + " = "@ + expr_of(tt, t)
        + "; // Evaluated expression\n"@ + "    println!(\"Result: {}\", result_"@ + dec_digits(
        idx,
    ) + ");\n"@
}

/// The generated line pairs of a forest, numbered from `idx` on.
pub open spec fn gen_lines(tt: Seq<(char, Seq<char>)>, ts: Seq<Tree>, idx: nat) -> Seq<char>
    decreases ts.len(),
{
    if ts.len() == 0 {
        Seq::empty()
    } else {
        gen_line(tt, ts[0], idx) + gen_lines(tt, ts.drop_first(), idx + 1)
    }
}

/// The whole generated program for a forest, or the report that there is
/// nothing to generate from.
pub open spec fn code_of(tt: Seq<(char, Seq<char>)>, forest: Seq<Tree>) -> Seq<char> {
    if forest.len() == 0 {
        "No AST available. Please parse first or check your input."@
    } else {
        "// Generated Rust code from AST\n"@ + "fn main() {\n"@ + gen_lines(tt, forest, 1)
            + "}\n"@
    }
}

/// Generates and runs program text from parsed expression forests, with a
/// configurable mapping from terminal symbols to semantic roles.
pub struct GeneratorEngine {
    /// The role of each terminal symbol; the first entry for a symbol wins,
    /// and an absent symbol counts as a plain token.
    pub terminal_types: Vec<(char, String)>,
}

impl GeneratorEngine {
    /// An engine with no roles assigned yet.
    pub fn new() -> (r: GeneratorEngine)
        ensures
            r.terminal_types@.len() == 0,
    {
        GeneratorEngine { terminal_types: Vec::new() }
    }

    /// Replaces the role mapping.
    pub fn set_terminal_types(&mut self, terminal_types: Vec<(char, String)>)
        ensures
            final(self).terminal_types == terminal_types,
    {
        self.terminal_types = terminal_types;
    }

    /// The role of one terminal symbol, as text.
    fn get_role(&self, c: char) -> (r: &str)
        ensures
            r@ == role_of(reducer_views(self.terminal_types@), c),
    {
        let ghost tt = reducer_views(self.terminal_types@);
        let mut i: usize = 0;
        proof {
            assert(tt.subrange(0, tt.len() as int) =~= tt);
        }
        while i < self.terminal_types.len()
            invariant
                i <= self.terminal_types@.len(),
                tt == reducer_views(self.terminal_types@),
                role_of(tt, c) == role_of(tt.subrange(i as int, tt.len() as int), c),
            decreases self.terminal_types@.len() - i,
        {
            let ghost suf = tt.subrange(i as int, tt.len() as int);
            proof {
                assert(suf[0] == tt[i as int]);
                assert(suf.drop_first() =~= tt.subrange(i as int + 1, tt.len() as int));
            }
            if self.terminal_types[i].0 == c {
                return self.terminal_types[i].1.as_str();
            }
            i = i + 1;
        }
        proof {
            assert(tt.subrange(tt.len() as int, tt.len() as int) =~= Seq::<(char, Seq<char>)>::empty());
            reveal_strlit("Token");
            assert("Token"@ =~= seq!['T', 'o', 'k', 'e', 'n']);
        }
        "Token"
    }

    /// Whether the role text equals the given five-or-fewer-character name.
    fn role_is(role: &str, name: &str) -> (r: bool)
        ensures
            r == (role@ == name@),
    {
        let role_string = String::from_str(role);
        role_string.eq(&String::from_str(name))
    }

    /// The operator a terminal stands for under the current roles.
    fn get_operator_from_ast(&self, node: &AstNode) -> (r: String)
        ensures
            r@ == op_of(reducer_views(self.terminal_types@), node@),
    {
        let ghost tt = reducer_views(self.terminal_types@);
        match node {
            AstNode::Terminal(sym) => {
                let role = self.get_role(*sym);
                proof {
                    reveal_strlit("Add");
                    reveal_strlit("Mul");
                    reveal_strlit("L_paren");
                    reveal_strlit("R_paren");
                    reveal_strlit("Token");
                    assert("Add"@ =~= seq!['A', 'd', 'd']);
                    assert("Mul"@ =~= seq!['M', 'u', 'l']);
                    assert("L_paren"@ =~= seq!['L', '_', 'p', 'a', 'r', 'e', 'n']);
                    assert("R_paren"@ =~= seq!['R', '_', 'p', 'a', 'r', 'e', 'n']);
                    assert("Token"@ =~= seq!['T', 'o', 'k', 'e', 'n']);
                }
                let mut out = String::new();
                if Self::role_is(role, "Add") {
                    push_char(&mut out, '+');
                } else if Self::role_is(role, "Mul") {
                    push_char(&mut out, '*');
                } else if Self::role_is(role, "L_paren") {
                    push_char(&mut out, '(');
                } else if Self::role_is(role, "R_paren") {
                    push_char(&mut out, ')');
                } else if Self::role_is(role, "Token") {
                } else {
                    push_char(&mut out, *sym);
                }
                proof {
                    assert(node@ == Tree::Leaf(*sym));
                    assert(out@ =~= op_of(tt, node@));
                }
                out
            },
            AstNode::NonTerminal(_, _) => {
                let out = String::new();
                proof {
                    assert(out@ =~= op_of(tt, node@));
                }
                out
            },
        }
    }

    /// The expression text of one tree under the current roles.
    fn generate_expression_from_ast(&self, node: &AstNode) -> (r: String)
        ensures
            r@ == expr_of(reducer_views(self.terminal_types@), node@),
        decreases node,
    {
        let ghost tt = reducer_views(self.terminal_types@);
        match node {
            AstNode::Terminal(sym) => {
                let role = self.get_role(*sym);
                proof {
                    reveal_strlit("Num");
                    assert("Num"@ =~= seq!['N', 'u', 'm']);
                    assert(node@ == Tree::Leaf(*sym));
                }
                let mut out = String::new();
                if Self::role_is(role, "Num") {
                    push_char(&mut out, *sym);
                } else {
                    push_char(&mut out, 't');
                    push_char(&mut out, 'o');
                    push_char(&mut out, 'k');
                    push_char(&mut out, 'e');
                    push_char(&mut out, 'n');
                    push_char(&mut out, '_');
                    push_char(&mut out, *sym);
                }
                proof {
                    assert(out@ =~= expr_of(tt, node@));
                }
                out
            },
            AstNode::NonTerminal(sym, ch) => {
                proof {
                    lemma_forest_of(ch@);
                    assert(node@ == Tree::Node(*sym, forest_of(ch@)));
                    assert(forest_of(ch@).len() == ch@.len());
                }
                let is_expr = *sym == 'E' || *sym == 'B';
                if ch.len() == 1 {
                    proof {
                        assert(*ch == node->NonTerminal_1);
                        assert(decreases_to!(*node => node->NonTerminal_1));
                        assert(decreases_to!(*ch => ch@));
                        assert(decreases_to!(ch@ => ch@[0]));
                        assert(forest_of(ch@)[0] == tree_of(ch@[0]));
                    }
                    let out = self.generate_expression_from_ast(&ch[0]);
                    proof {
                        assert(out@ == expr_of(tt, node@));
                    }
                    out
                } else if is_expr && ch.len() == 3 {
                    proof {
                        assert(*ch == node->NonTerminal_1);
                        assert(decreases_to!(*node => node->NonTerminal_1));
                        assert(decreases_to!(*ch => ch@));
                        assert(decreases_to!(ch@ => ch@[0]));
                        assert(decreases_to!(ch@ => ch@[2]));
                        assert(forest_of(ch@)[0] == tree_of(ch@[0]));
                        assert(forest_of(ch@)[1] == tree_of(ch@[1]));
                        assert(forest_of(ch@)[2] == tree_of(ch@[2]));
                    }
                    let left = self.generate_expression_from_ast(&ch[0]);
                    let op = self.get_operator_from_ast(&ch[1]);
                    let right = self.generate_expression_from_ast(&ch[2]);
                    let mut out = String::new();
                    push_char(&mut out, '(');
                    out.append(left.as_str());
                    push_char(&mut out, ' ');
                    out.append(op.as_str());
                    push_char(&mut out, ' ');
                    out.append(right.as_str());
                    push_char(&mut out, ')');
                    proof {
                        assert(out@ =~= expr_of(tt, node@));
                    }
                    out
                } else {
                    let mut out: String;
                    if is_expr {
                        out = String::from_str("unknown_structure_");
                        proof {
                            assert(out@ == "unknown_structure_"@);
                        }
                    } else {
                        out = String::from_str("unknown_nonterminal_");
                    }
                    push_char(&mut out, *sym);
                    proof {
                        assert(out@ =~= expr_of(tt, node@));
                    }
                    out
                }
            },
        }
    }

    /// Builds a parser from the grammar text, parses the input with the end
    /// marker appended, and renders the resulting forest as program text;
    /// construction failure and an empty forest each yield their report.
    pub fn generate_code(&self, reducer_string: &str, input_string: &str) -> (r: String)
        ensures
            !(text_wf(reducer_string@) && reducer_of(reducer_string@).len() >= 1) ==> r@
                == "Failed to create parser for code generation: "@ + construction_error(
                reducer_string@,
            ),
            (text_wf(reducer_string@) && reducer_of(reducer_string@).len() >= 1) ==> exists|
                p: Parser,
            |
                #[trigger] built_from(p, reducer_of(reducer_string@)) && r@ == code_of(
                    reducer_views(self.terminal_types@),
                    parse_result(p, input_string@ + seq!['$']),
                ),
    {
        let ghost tt = reducer_views(self.terminal_types@);
        match Parser::new_from_string(reducer_string) {
            Ok(parser) => {
                let mut input = String::from_str(input_string);
                push_char(&mut input, '$');
                proof {
                    assert(input@ == input_string@ + seq!['$']) by {
                        assert(input@ =~= input_string@ + seq!['$']);
                    }
                }
                let ast_nodes = parser.parse(input.as_str());
                let ghost forest = parse_result(parser, input_string@ + seq!['$']);
                proof {
                    lemma_forest_of(ast_nodes@);
                }
                if ast_nodes.is_empty() {
                    let out = String::from_str(
                        "No AST available. Please parse first or check your input.",
                    );
                    proof {
                        assert(out@ == code_of(tt, forest));
                    }
                    return out;
                }
                let mut out = String::from_str("// Generated Rust code from AST\n");
                out.append("fn main() {\n");
                let ghost head = out@;
                let n = ast_nodes.len();
                let mut i: usize = 0;
                proof {
                    assert(forest.subrange(0, n as int) =~= forest);
                    assert(head + gen_lines(tt, forest, 1) =~= out@ + gen_lines(
                        tt,
                        forest.subrange(0, n as int),
                        1,
                    ));
                }
                while i < n
                    invariant
                        i <= n,
                        n == ast_nodes@.len(),
                        n >= 1,
                        tt == reducer_views(self.terminal_types@),
                        forest == forest_of(ast_nodes@),
                        forest.len() == n,
                        head + gen_lines(tt, forest, 1) == out@ + gen_lines(
                            tt,
                            forest.subrange(i as int, n as int),
                            i as nat + 1,
                        ),
                    decreases n - i,
                {
                    let ghost suf = forest.subrange(i as int, n as int);
                    proof {
                        lemma_forest_of(ast_nodes@);
                        assert(suf[0] == forest[i as int]);
                        assert(suf.drop_first() =~= forest.subrange(i as int + 1, n as int));
                        assert(forest[i as int] == tree_of(ast_nodes@[i as int]));
                    }
                    out.append("    let result_");
                    push_decimal(&mut out, i + 1);
                    out.append(" = ");
                    let expression = self.generate_expression_from_ast(&ast_nodes[i]);
                    out.append(expression.as_str());
                    out.append("; // Evaluated expression\n");
                    out.append("    println!(\"Result: {}\", result_");
                    push_decimal(&mut out, i + 1);
                    out.append(");\n");
                    i = i + 1;
                    proof {
                        assert(head + gen_lines(tt, forest, 1) =~= out@ + gen_lines(
                            tt,
                            forest.subrange(i as int, n as int),
                            i as nat + 1,
                        ));
                    }
                }
                out.append("}\n");
                proof {
                    assert(forest.subrange(0, n as int) =~= forest);
                    assert(forest.subrange(n as int, n as int) =~= Seq::<Tree>::empty());
                    assert(out@ =~= code_of(tt, forest));
                }
                out
            },
            Err(e) => {
                let mut out = String::from_str("Failed to create parser for code generation: ");
                out.append(e.as_str());
                proof {
                    assert(out@ == "Failed to create parser for code generation: "@
                        + construction_error(reducer_string@));
                }
                out
            },
        }
    }

    /// Reports on running the generated program text: nothing is run yet,
    /// and empty input is named as such.
    pub fn run_rust_code(&self, generated_code: &str) -> (r: String)
        ensures
            generated_code@.len() == 0 ==> r@
                == "No code to run. Please generate code first."@,
            generated_code@.len() > 0 ==> r@ == "Not implemented"@,
    {
        if generated_code.is_empty() {
            return String::from_str("No code to run. Please generate code first.");
        }
        String::from_str("Not implemented")
    }
}

impl Default for GeneratorEngine {
    /// The same engine `new` yields: no roles assigned.
    fn default() -> (r: GeneratorEngine)
        ensures
            r.terminal_types@.len() == 0,
    {
        GeneratorEngine::new()
    }
}

} // verus!
