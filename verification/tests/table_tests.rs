use lr0_parser_rs::items::Item;
use lr0_parser_rs::Action;
use lr0_parser_rs::Parser;

const EXPR_GRAMMAR: &str = "E -> E*B\nE -> E+B\nE -> B\nB -> 0\nB -> 1";

fn expr_reducer() -> Vec<(char, String)> {
    lr0_parser_rs::from_reducer_string(EXPR_GRAMMAR).unwrap()
}

#[test]
fn symbols_follow_first_occurrence_order() {
    let (symbols, _table) = Parser::generate_lr0_table(&expr_reducer());
    assert_eq!(symbols, vec!['*', '+', '0', '1', '$', 'E', 'B']);
}

#[test]
fn builder_yields_states_with_valid_targets() {
    let (symbols, table) = Parser::generate_lr0_table(&expr_reducer());
    assert!(table.len() >= 1);
    for row in &table {
        assert_eq!(row.len(), symbols.len());
        for cell in row {
            match *cell {
                Action::Shift(s) => assert!(s < table.len()),
                Action::Goto(s) => assert!(s < table.len()),
                Action::Reduce(p) => assert!(1 <= p && p <= 5),
                Action::Accept => {}
                Action::Error => {}
            }
        }
    }
}

#[test]
fn builder_is_deterministic_across_runs() {
    let (symbols1, table1) = Parser::generate_lr0_table(&expr_reducer());
    let (symbols2, table2) = Parser::generate_lr0_table(&expr_reducer());
    assert_eq!(symbols1, symbols2);
    assert_eq!(table1, table2);
}

#[test]
fn table_has_an_accept_cell() {
    let (symbols, table) = Parser::generate_lr0_table(&expr_reducer());
    let dollar = symbols.iter().position(|&c| c == '$').unwrap();
    let accepts = table
        .iter()
        .filter(|row| row[dollar] == Action::Accept)
        .count();
    assert_eq!(accepts, 1);
}

#[test]
fn closure_is_idempotent_and_grows_its_input() {
    let (productions, _nts, _ts) = Parser::augmented_grammar(&expr_reducer());
    let start = vec![Item { prod: 0, dot: 0 }];
    let once = Parser::closure(&start, &productions);
    assert!(once.contains(&Item { prod: 0, dot: 0 }));
    // every production of the start symbol appears as a fresh item
    assert!(once.contains(&Item { prod: 1, dot: 0 }));
    assert!(once.contains(&Item { prod: 3, dot: 0 }));
    assert!(once.contains(&Item { prod: 4, dot: 0 }));
    let twice = Parser::closure(&once, &productions);
    assert_eq!(once, twice);
}

#[test]
fn goto_advances_the_dot() {
    let (productions, _nts, _ts) = Parser::augmented_grammar(&expr_reducer());
    let start = vec![Item { prod: 0, dot: 0 }];
    let state0 = Parser::closure(&start, &productions);
    let moved = Parser::goto(&state0, '0', &productions);
    // production 4 is `B -> 0`; its dot has moved past the `0`
    assert_eq!(moved, vec![Item { prod: 4, dot: 1 }]);
    let nothing = Parser::goto(&state0, 'z', &productions);
    assert_eq!(nothing, vec![]);
}

#[test]
fn get_parse_table_exposes_the_matrix() {
    let parser = Parser::new_from_string(EXPR_GRAMMAR).unwrap();
    let (symbols, table) = parser.get_parse_table();
    assert_eq!(symbols, &vec!['*', '+', '0', '1', '$', 'E', 'B']);
    assert!(table.len() >= 1);
    let (symbols_again, table_again) = Parser::generate_lr0_table(&expr_reducer());
    assert_eq!(symbols, &symbols_again);
    assert_eq!(table, &table_again);
}
