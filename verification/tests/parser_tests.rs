use lr0_parser_rs::Action;
use lr0_parser_rs::AstNode;
use lr0_parser_rs::Parser;

const EXPR_GRAMMAR: &str = "E -> E*B\nE -> E+B\nE -> B\nB -> 0\nB -> 1";
const PAREN_GRAMMAR: &str = "E -> EE\nE -> <E>\nE -> <>";

#[test]
fn test_parse() {
    let parser = Parser::new_from_string(EXPR_GRAMMAR).unwrap();
    let result = parser.parse("1+1$");
    assert_eq!(
        result,
        vec![AstNode::NonTerminal(
            'E',
            vec![
                AstNode::NonTerminal('B', vec![AstNode::Terminal('1'),],),
                AstNode::Terminal('+'),
                AstNode::NonTerminal(
                    'E',
                    vec![AstNode::NonTerminal('B', vec![AstNode::Terminal('1'),],),],
                ),
            ],
        ),]
    );
    let result = parser.parse("1+1*1$");
    assert_eq!(
        result,
        vec![AstNode::NonTerminal(
            'E',
            vec![
                AstNode::NonTerminal('B', vec![AstNode::Terminal('1')],),
                AstNode::Terminal('*'),
                AstNode::NonTerminal(
                    'E',
                    vec![
                        AstNode::NonTerminal('B', vec![AstNode::Terminal('1')],),
                        AstNode::Terminal('+'),
                        AstNode::NonTerminal(
                            'E',
                            vec![AstNode::NonTerminal('B', vec![AstNode::Terminal('1')],)],
                        ),
                    ],
                ),
            ],
        )]
    );
}

#[test]
fn test_paren_parse() {
    let parser = Parser::new_from_string(PAREN_GRAMMAR).unwrap();
    let result = parser.parse("<<>><>$");
    assert_eq!(
        result,
        vec![AstNode::NonTerminal(
            'E',
            vec![
                AstNode::NonTerminal(
                    'E',
                    vec![AstNode::Terminal('>'), AstNode::Terminal('<'),],
                ),
                AstNode::NonTerminal(
                    'E',
                    vec![
                        AstNode::Terminal('>'),
                        AstNode::NonTerminal(
                            'E',
                            vec![AstNode::Terminal('>'), AstNode::Terminal('<'),],
                        ),
                        AstNode::Terminal('<'),
                    ],
                ),
            ],
        )]
    );
}

#[test]
fn unknown_input_symbol_fails() {
    let parser = Parser::new_from_string(EXPR_GRAMMAR).unwrap();
    let result = parser.parse("2+2$");
    assert_eq!(result, vec![]);
}

#[test]
fn malformed_input_yields_empty_forest() {
    let parser = Parser::new_from_string(EXPR_GRAMMAR).unwrap();
    assert_eq!(parser.parse("++$"), vec![]);
    assert_eq!(parser.parse("$"), vec![]);
}

#[test]
fn parse_without_end_marker_keeps_partial_forest() {
    let parser = Parser::new_from_string(EXPR_GRAMMAR).unwrap();
    let result = parser.parse("1");
    assert_eq!(result, vec![AstNode::Terminal('1')]);
}

#[test]
fn empty_grammar_is_rejected() {
    let err = match Parser::new_from_string("") {
        Err(e) => e,
        Ok(_) => panic!("an empty grammar must be rejected"),
    };
    assert_eq!(err, "Grammar has no productions");
    let err = match Parser::new_from_string("  \n\n  ") {
        Err(e) => e,
        Ok(_) => panic!("a blank grammar must be rejected"),
    };
    assert_eq!(err, "Grammar has no productions");
}

#[test]
fn parser_is_reusable_across_calls() {
    let parser = Parser::new_from_string(EXPR_GRAMMAR).unwrap();
    let first = parser.parse("1+1$");
    let second = parser.parse("1+1$");
    assert_eq!(first, second);
    assert_eq!(first.len(), 1);
}

#[test]
fn action_to_string_renders_cells() {
    assert_eq!(Parser::action_to_string(&Action::Shift(12)), "s12");
    assert_eq!(Parser::action_to_string(&Action::Reduce(3)), "r3");
    assert_eq!(Parser::action_to_string(&Action::Goto(0)), "g0");
    assert_eq!(Parser::action_to_string(&Action::Accept), "acc");
    assert_eq!(Parser::action_to_string(&Action::Error), "");
    assert_eq!(Parser::action_to_string(&Action::Shift(105)), "s105");
}

#[test]
fn print_ast_indents_by_level() {
    let tree = AstNode::NonTerminal(
        'E',
        vec![
            AstNode::Terminal('1'),
            AstNode::NonTerminal('B', vec![AstNode::Terminal('0')]),
        ],
    );
    let text = lr0_parser_rs::print_ast(&tree, 0);
    assert_eq!(text, "E\n    1\n    B\n        0\n");
    let deeper = lr0_parser_rs::print_ast(&AstNode::Terminal('x'), 2);
    assert_eq!(deeper, "        x\n");
}
