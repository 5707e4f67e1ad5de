use lr0_parser_rs::from_reducer_string;

#[test]
fn test_from_reducer() {
    let reducer = from_reducer_string("A -> A+A").unwrap();
    assert_eq!(reducer[0], ('A', String::from("A+A")));
}

#[test]
fn blank_lines_are_skipped() {
    let reducer = from_reducer_string("\nE -> B\n\n  \nB -> 0\n").unwrap();
    assert_eq!(
        reducer,
        vec![('E', String::from("B")), ('B', String::from("0"))]
    );
}

#[test]
fn right_side_whitespace_is_stripped() {
    let reducer = from_reducer_string("  E  ->  E * B  ").unwrap();
    assert_eq!(reducer, vec![('E', String::from("E*B"))]);
}

#[test]
fn left_side_takes_first_character() {
    let reducer = from_reducer_string("Expr -> ab").unwrap();
    assert_eq!(reducer, vec![('E', String::from("ab"))]);
}

#[test]
fn empty_right_side_is_kept() {
    let reducer = from_reducer_string("A -> ").unwrap();
    assert_eq!(reducer, vec![('A', String::from(""))]);
}

#[test]
fn line_without_arrow_is_an_error() {
    let err = from_reducer_string("E -> B\nbad line\nB -> 0").unwrap_err();
    assert_eq!(err, "Invalid reducer format: bad line");
}

#[test]
fn line_with_two_arrows_is_an_error() {
    let err = from_reducer_string("E -> B -> 0").unwrap_err();
    assert_eq!(err, "Invalid reducer format: E -> B -> 0");
}

#[test]
fn empty_left_side_is_an_error() {
    let err = from_reducer_string("-> B").unwrap_err();
    assert_eq!(err, "Invalid left-hand side");
}

#[test]
fn first_bad_line_wins() {
    let err = from_reducer_string("E -> B\nno arrow here\n-> B").unwrap_err();
    assert_eq!(err, "Invalid reducer format: no arrow here");
}
