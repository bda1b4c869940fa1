use textmate_scope_selector_peg::matchers::Matcher;
use textmate_scope_selector_peg::parser::{Gap, Input, END};
use textmate_scope_selector_peg::{Expected, ExpectedSet};

#[test]
fn test_input() {
    let input = Input::new("L:a.b  c");
    assert_eq!(input.len(), 8);
    assert_eq!(input.peek(0), 'L');
    assert_eq!(input.peek(7), 'c');
    assert_eq!(input.peek(8), END);
    assert_eq!(input.slice(2, 5), "a.b");
    assert_eq!(input.slice(8, 8), "");
    assert_eq!(input.skip_blanks(5), 7);
    assert_eq!(input.skip_blanks(7), 7);
    assert_eq!(input.skip_blanks(8), 8);
    assert_eq!(Input::new("").len(), 0);
    assert_eq!(Input::new("").peek(0), END);
    assert_eq!(Input::new("\u{e9}a").peek(1), 'a');
}

#[test]
fn test_rule_prefix() {
    let input = Input::new("L:a R L");
    let found = input.prefix(0);
    assert_eq!(found.found, Some(Some("L:")));
    assert_eq!(found.end, 2);
    assert_eq!(found.missing.at, 0);
    assert_eq!(found.missing.expected, ExpectedSet::new());
    let found = input.prefix(2);
    assert_eq!(found.found, Some(None));
    assert_eq!(found.end, 2);
    assert_eq!(found.missing.at, 2);
    assert_eq!(found.missing.expected, ExpectedSet::of(Expected::Marker));
    let found = input.prefix(4);
    assert_eq!(found.found, Some(None));
    assert_eq!(found.end, 4);
    assert_eq!(found.missing.at, 5);
    assert_eq!(found.missing.expected, ExpectedSet::of(Expected::Colon));
    let found = input.prefix(6);
    assert_eq!(found.found, Some(None));
    assert_eq!(found.missing.at, 7);
}

#[test]
fn test_rule_atom() {
    let input = Input::new("ab-c.*-");
    let found = input.atom(0);
    assert_eq!(found.end, 4);
    assert_eq!(found.missing.at, 4);
    assert_eq!(found.missing.expected, ExpectedSet::of(Expected::Segment));
    let tree = found.found.unwrap();
    assert!(tree.matches("ab-c"));
    assert!(!tree.matches("ab"));
    let found = input.atom(5);
    assert_eq!(found.end, 6);
    assert_eq!(found.missing.at, 5);
    assert_eq!(found.missing.expected, ExpectedSet::of(Expected::Segment));
    assert!(found.found.unwrap().matches("x"));
    let found = input.atom(6);
    assert!(found.found.is_none());
    assert_eq!(found.end, 6);
    assert_eq!(found.missing.at, 6);
    assert_eq!(found.missing.expected, ExpectedSet::of(Expected::Star));
    let found = input.atom(4);
    assert!(found.found.is_none());
    assert_eq!(found.missing.at, 4);
    assert_eq!(
        found.missing.expected,
        ExpectedSet::of(Expected::Segment).merge(ExpectedSet::of(Expected::Star))
    );
    let found = input.atom(7);
    assert!(found.found.is_none());
    assert_eq!(found.missing.at, 7);
}

#[test]
fn test_rule_scope_and_path() {
    let input = Input::new("a.b  c.d. e");
    let found = input.scope(0);
    assert_eq!(found.end, 3);
    assert_eq!(found.missing.at, 3);
    assert!(found.found.unwrap().matches("a.b.c"));
    let found = input.scope(5);
    assert_eq!(found.end, 8);
    assert_eq!(found.missing.at, 9);
    let found = input.path(0);
    assert_eq!(found.end, 8);
    assert_eq!(found.missing.at, 9);
    let tree = found.found.unwrap();
    assert!(tree.matches("a.b c.d"));
    assert!(!tree.matches("c.d a.b"));
    let found = input.path(3);
    assert!(found.found.is_none());
    assert_eq!(found.end, 3);
    assert_eq!(found.missing.at, 3);
}

#[test]
fn test_rule_group_and_expression() {
    let input = Input::new("- ( a ) |b");
    let found = input.group(2);
    assert_eq!(found.end, 7);
    assert!(found.found.unwrap().matches("a"));
    let found = input.group(0);
    assert!(found.found.is_none());
    assert_eq!(found.end, 0);
    let found = input.negated_group(0);
    assert_eq!(found.end, 8);
    assert!(!found.found.unwrap().matches("a"));
    let found = input.negated_path(0);
    assert!(found.found.is_none());
    assert_eq!(found.missing.at, 2);
    let found = input.expression(0);
    assert_eq!(found.end, 8);
    let found = input.composite(0);
    assert_eq!(found.end, 10);
    let tree = found.found.unwrap();
    assert!(tree.matches("b"));
    assert!(tree.matches("c"));
    assert!(tree.matches("a b"));
    assert!(!tree.matches("a"));
    let found = input.selector(0);
    assert_eq!(found.end, 10);
    assert_eq!(found.missing.at, 10);
}

#[test]
fn test_rule_selector_with_commas() {
    let input = Input::new("a , b,  )");
    let found = input.selector(0);
    assert_eq!(found.end, 8);
    assert_eq!(found.missing.at, 8);
    let tree = found.found.unwrap();
    assert!(tree.matches("a"));
    assert!(tree.matches("b"));
    assert!(!tree.matches("c"));
    let found = input.composite(4);
    assert_eq!(found.end, 5);
    assert_eq!(found.missing.at, 5);
}

#[test]
fn test_gap() {
    let near = Gap::at(1, Expected::Dot);
    let far = Gap::at(3, Expected::Comma);
    let also = Gap::at(3, Expected::End);
    assert_eq!(near.later(far).at, 3);
    assert_eq!(far.later(near).at, 3);
    assert_eq!(near.later(far).expected, ExpectedSet::of(Expected::Comma));
    assert_eq!(far.later(near).expected, ExpectedSet::of(Expected::Comma));
    let both = far.later(also);
    assert_eq!(both.at, 3);
    assert!(both.expected.contains(Expected::Comma));
    assert!(both.expected.contains(Expected::End));
    assert!(!both.expected.contains(Expected::Dot));
    assert_eq!(Gap::nothing().at, 0);
    assert_eq!(Gap::nothing().expected, ExpectedSet::new());
    assert_eq!(Gap::nothing().later(near).expected, near.expected);
    assert_eq!(Gap::nothing().later(Gap::at(0, Expected::Dash)).expected, ExpectedSet::of(Expected::Dash));
}
