use textmate_scope_selector_peg::{parse, Expected, ExpectedSet, LineCol, ParseError};

fn error_of(selector: &str) -> ParseError {
    match parse(selector) {
        Ok(_) => panic!("{:?} was read as a selector", selector),
        Err(error) => error,
    }
}

fn holds_exactly(set: &ExpectedSet, expected: &[Expected]) -> bool {
    let all = [
        Expected::Dash,
        Expected::Open,
        Expected::Close,
        Expected::Comma,
        Expected::Dot,
        Expected::Star,
        Expected::Colon,
        Expected::Marker,
        Expected::Segment,
        Expected::Operator,
        Expected::End,
    ];
    all.iter().all(|what| set.contains(*what) == expected.contains(what))
}

#[test]
fn test_error_empty_text() {
    let error = error_of("");
    assert_eq!(error.location, LineCol { line: 1, column: 1, offset: 0 });
    assert!(holds_exactly(
        &error.expected,
        &[
            Expected::Dash,
            Expected::Marker,
            Expected::Open,
            Expected::Segment,
            Expected::Star
        ]
    ));
}

#[test]
fn test_error_blank_text() {
    let error = error_of("  \t");
    assert_eq!(error.location, LineCol { line: 1, column: 4, offset: 3 });
}

#[test]
fn test_error_unclosed_group() {
    let error = error_of("(a");
    assert_eq!(error.location, LineCol { line: 1, column: 3, offset: 2 });
    assert!(holds_exactly(
        &error.expected,
        &[
            Expected::Segment,
            Expected::Dot,
            Expected::Operator,
            Expected::Comma,
            Expected::Close
        ]
    ));
}

#[test]
fn test_error_unopened_group() {
    let error = error_of("a)");
    assert_eq!(error.location, LineCol { line: 1, column: 2, offset: 1 });
    assert!(holds_exactly(
        &error.expected,
        &[
            Expected::Segment,
            Expected::Dot,
            Expected::Operator,
            Expected::Comma,
            Expected::End
        ]
    ));
}

#[test]
fn test_error_closed_twice() {
    let error = error_of("(a))");
    assert_eq!(error.location.offset, 3);
    assert_eq!(error.location.column, 4);
    assert!(holds_exactly(
        &error.expected,
        &[Expected::Operator, Expected::Comma, Expected::End]
    ));
}

#[test]
fn test_error_opened_twice() {
    let error = error_of("((a)");
    assert_eq!(error.location.offset, 4);
    assert!(error.expected.contains(Expected::Close));
    assert!(!error.expected.contains(Expected::End));
}

#[test]
fn test_error_nothing_between_commas() {
    let error = error_of("a,,b");
    assert_eq!(error.location, LineCol { line: 1, column: 3, offset: 2 });
    assert!(holds_exactly(
        &error.expected,
        &[
            Expected::Dash,
            Expected::Marker,
            Expected::Open,
            Expected::Segment,
            Expected::Star,
            Expected::End
        ]
    ));
}

#[test]
fn test_error_operator_after_operator() {
    let error = error_of("a | & b");
    assert_eq!(error.location, LineCol { line: 1, column: 5, offset: 4 });
    assert!(holds_exactly(
        &error.expected,
        &[
            Expected::Dash,
            Expected::Marker,
            Expected::Open,
            Expected::Segment,
            Expected::Star
        ]
    ));
}

#[test]
fn test_error_operator_at_the_end() {
    let error = error_of("a -");
    assert_eq!(error.location.offset, 3);
    assert_eq!(error.location.column, 4);
}

#[test]
fn test_error_prefix_alone() {
    let error = error_of("L:");
    assert_eq!(error.location, LineCol { line: 1, column: 3, offset: 2 });
    assert!(holds_exactly(
        &error.expected,
        &[Expected::Open, Expected::Segment, Expected::Star]
    ));
}

#[test]
fn test_error_colon_without_marker() {
    let error = error_of("La:b");
    assert_eq!(error.location.offset, 2);
    assert!(error.expected.contains(Expected::End));
    assert!(!error.expected.contains(Expected::Colon));
}

#[test]
fn test_error_marker_without_colon() {
    let error = error_of("L(");
    assert_eq!(error.location.offset, 1);
    assert!(error.expected.contains(Expected::Colon));
    assert!(error.expected.contains(Expected::Segment));
}

#[test]
fn test_error_dash_begins_segment() {
    let error = error_of("a.-b");
    assert_eq!(error.location.offset, 2);
    assert!(holds_exactly(&error.expected, &[Expected::Star]));
}

#[test]
fn test_error_dot_at_the_end() {
    let error = error_of("a.");
    assert_eq!(error.location.offset, 2);
    assert!(holds_exactly(&error.expected, &[Expected::Segment, Expected::Star]));
}

#[test]
fn test_error_line_break() {
    let error = error_of("a\nb");
    assert_eq!(error.location, LineCol { line: 1, column: 2, offset: 1 });
}

#[test]
fn test_error_other_alphabet() {
    let error = error_of("\u{e9}t\u{e9}");
    assert_eq!(error.location, LineCol { line: 1, column: 1, offset: 0 });
    let error = error_of("a \u{e9}");
    assert_eq!(error.location, LineCol { line: 1, column: 3, offset: 2 });
}

#[test]
fn test_error_end_marker_in_text() {
    let error = error_of("a\0");
    assert_eq!(error.location.offset, 1);
    assert!(error.expected.contains(Expected::End));
    let error = error_of("\0");
    assert_eq!(error.location.offset, 0);
}

#[test]
fn test_error_is_not_a_tree() {
    for selector in ["(", ")", "a b)", "(a", "a,,", ",a", "|", "a &", "&", "a | | b", "R:", ":", "a:b"] {
        assert!(parse(selector).is_err(), "{:?}", selector);
    }
}

#[test]
fn test_expected_set() {
    let none = ExpectedSet::new();
    assert!(holds_exactly(&none, &[]));
    let dot = ExpectedSet::of(Expected::Dot);
    assert!(holds_exactly(&dot, &[Expected::Dot]));
    let both = dot.merge(ExpectedSet::of(Expected::End));
    assert!(holds_exactly(&both, &[Expected::Dot, Expected::End]));
    assert_eq!(both.merge(dot), both);
    assert_eq!(none.merge(both), both);
}
