use textmate_scope_selector_peg::matchers::{
    AndMatcher, CompositeMatcher, GroupMatcher, Matcher, MatcherTree, NegateMatcher, OrMatcher,
    PathMatcher, ScopeMatcher, SegmentMatcher, TrueMatcher,
};
use textmate_scope_selector_peg::parse;

fn read(selector: &str) -> Box<MatcherTree> {
    match parse(selector) {
        Ok(tree) => tree,
        Err(error) => panic!("Parsing error for selector {}: {:?}", selector, error),
    }
}

fn segment(text: &str) -> Box<MatcherTree> {
    Box::new(MatcherTree::Segment(SegmentMatcher::new(text)))
}

fn scope(segments: &[&str]) -> Box<MatcherTree> {
    let atoms = segments.iter().map(|text| segment(text)).collect();
    Box::new(MatcherTree::Scope(ScopeMatcher::new(atoms)))
}

fn path(prefix: Option<&str>, token: &str) -> Box<MatcherTree> {
    Box::new(MatcherTree::Path(PathMatcher::new(prefix, vec![scope(&[token])])))
}

#[test]
fn test_wildcard_matches_everything() {
    let star = read("*");
    for input in ["", "a", "a.b.c", "a b", " ", "a  b", ".", "\u{e9}"] {
        assert!(star.matches(input), "{:?}", input);
    }
    assert!(TrueMatcher.matches("anything"));
    assert!(TrueMatcher.matches(""));
    assert_eq!(TrueMatcher.get_prefix("a"), None);
}

#[test]
fn test_scope_matches_longer_token() {
    let selector = read("a.*.c");
    assert!(selector.matches("a.b.c"));
    assert!(selector.matches("a.b.c.d"));
    assert!(selector.matches("a.b.c.d.e.f"));
    assert!(selector.matches("a.b.c."));
    assert!(!selector.matches("a.b"));
    assert!(!selector.matches("a.b.cd"));
}

#[test]
fn test_segment_matcher() {
    let matcher = SegmentMatcher::new("source");
    assert!(matcher.matches("source"));
    assert!(!matcher.matches("sourc"));
    assert!(!matcher.matches("sources"));
    assert!(!matcher.matches(""));
    assert!(!matcher.matches("Source"));
    assert_eq!(matcher.get_prefix("source"), None);
    assert!(SegmentMatcher::new("").matches(""));
}

#[test]
fn test_scope_matcher() {
    let matcher = ScopeMatcher::new(vec![segment("a"), Box::new(MatcherTree::Wildcard(TrueMatcher))]);
    assert!(matcher.matches("a.b"));
    assert!(matcher.matches("a."));
    assert!(matcher.matches("a.b.c"));
    assert!(!matcher.matches("a"));
    assert!(!matcher.matches("b.a"));
    assert_eq!(matcher.get_prefix("a.b"), None);
    let nothing = ScopeMatcher::new(vec![]);
    assert!(nothing.matches("a"));
    assert!(nothing.matches(""));
}

#[test]
fn test_path_matcher() {
    let matcher = PathMatcher::new(Some("L:"), vec![scope(&["a"]), scope(&["c"])]);
    assert!(matcher.matches("a c"));
    assert!(matcher.matches("a b c"));
    assert!(matcher.matches("x a\tb c y"));
    assert!(matcher.matches("a a c c"));
    assert!(!matcher.matches("c a"));
    assert!(!matcher.matches("a"));
    assert!(!matcher.matches("c"));
    assert!(!matcher.matches(""));
    assert_eq!(matcher.get_prefix("a c"), Some('L'));
    assert_eq!(matcher.get_prefix("c a"), None);
}

#[test]
fn test_path_matcher_without_patterns() {
    let matcher = PathMatcher::new(Some("L:"), vec![]);
    assert!(!matcher.matches("a"));
    assert!(!matcher.matches(""));
    assert_eq!(matcher.get_prefix("a"), None);
}

#[test]
fn test_path_takes_a_token_once() {
    let selector = read("a a");
    assert!(!selector.matches("a"));
    assert!(selector.matches("a a"));
    assert!(selector.matches("a b a"));
    let selector = read("a.b a");
    assert!(!selector.matches("a.b"));
    assert!(selector.matches("a.b a.c"));
}

#[test]
fn test_path_blanks() {
    let selector = read("a b");
    assert!(selector.matches("a  b"));
    assert!(selector.matches("a\tb"));
    assert!(selector.matches(" a b "));
    let selector = read("a \t  b");
    assert!(selector.matches("a b"));
    let selector = read("  a b\t");
    assert!(selector.matches("a b"));
    let selector = read("* *");
    assert!(selector.matches("a "));
    assert!(!selector.matches("a"));
}

#[test]
fn test_group_matcher() {
    let matcher = GroupMatcher::new(Some("R:"), path(None, "a"));
    assert!(matcher.matches("a"));
    assert!(!matcher.matches("b"));
    assert_eq!(matcher.get_prefix("a"), Some('R'));
    assert_eq!(matcher.get_prefix("b"), None);
    let matcher = GroupMatcher::new(None, path(Some("L:"), "a"));
    assert!(matcher.matches("a"));
    assert_eq!(matcher.get_prefix("a"), None);
    let matcher = GroupMatcher::new(Some(""), path(None, "a"));
    assert_eq!(matcher.get_prefix("a"), None);
    let matcher = GroupMatcher::new(Some("xyz"), path(None, "a"));
    assert_eq!(matcher.get_prefix("a"), Some('x'));
}

#[test]
fn test_or_matcher() {
    let matcher = OrMatcher::new(path(Some("L:"), "a"), path(Some("R:"), "b"));
    assert!(matcher.matches("a"));
    assert!(matcher.matches("b"));
    assert!(!matcher.matches("c"));
    assert_eq!(matcher.get_prefix("a"), Some('L'));
    assert_eq!(matcher.get_prefix("b"), Some('R'));
    assert_eq!(matcher.get_prefix("a b"), Some('L'));
    assert_eq!(matcher.get_prefix("c"), None);
    let matcher = OrMatcher::new(path(None, "a"), path(Some("R:"), "b"));
    assert_eq!(matcher.get_prefix("a b"), Some('R'));
    assert_eq!(matcher.get_prefix("a"), None);
}

#[test]
fn test_and_matcher() {
    let matcher = AndMatcher::new(path(Some("L:"), "a"), path(Some("R:"), "b"));
    assert!(matcher.matches("a b"));
    assert!(matcher.matches("b a"));
    assert!(!matcher.matches("a"));
    assert!(!matcher.matches("b"));
    assert_eq!(matcher.get_prefix("a b"), Some('L'));
    assert_eq!(matcher.get_prefix("a"), None);
    assert_eq!(matcher.get_prefix("b"), None);
    let matcher = AndMatcher::new(path(None, "a"), path(Some("R:"), "b"));
    assert_eq!(matcher.get_prefix("a b"), None);
}

#[test]
fn test_negate_matcher() {
    let matcher = NegateMatcher::new(path(Some("L:"), "a"));
    assert!(!matcher.matches("a"));
    assert!(matcher.matches("b"));
    assert!(matcher.matches(""));
    assert_eq!(matcher.get_prefix("a"), None);
    assert_eq!(matcher.get_prefix("b"), None);
}

#[test]
fn test_composite_matcher() {
    let either = CompositeMatcher::new(path(Some("L:"), "a"), '|', path(Some("R:"), "b"));
    assert!(either.matches("a"));
    assert!(either.matches("b"));
    assert!(!either.matches("c"));
    assert_eq!(either.get_prefix("b"), Some('R'));
    let both = CompositeMatcher::new(path(Some("L:"), "a"), '&', path(Some("R:"), "b"));
    assert!(both.matches("a b"));
    assert!(!both.matches("a"));
    assert_eq!(both.get_prefix("a b"), Some('L'));
    let without = CompositeMatcher::new(path(Some("L:"), "a"), '-', path(Some("R:"), "b"));
    assert!(without.matches("a"));
    assert!(without.matches("a c"));
    assert!(!without.matches("a b"));
    assert!(!without.matches("b"));
    assert_eq!(without.get_prefix("a"), Some('L'));
    assert_eq!(without.get_prefix("a b"), None);
}

#[test]
fn test_difference_groups_to_the_right() {
    let selector = read("a - b - c");
    assert!(selector.matches("a"));
    assert!(!selector.matches("a b"));
    assert!(selector.matches("a b c"));
    assert!(selector.matches("a c"));
    let selector = read("(a - b) - c");
    assert!(!selector.matches("a b c"));
    assert!(!selector.matches("a c"));
    assert!(selector.matches("a"));
}

#[test]
fn test_operators_after_the_first_group_to_the_right() {
    let selector = read("a | b & c");
    assert!(selector.matches("a"));
    assert!(selector.matches("b c"));
    assert!(!selector.matches("b"));
    let selector = read("a & b | c");
    assert!(!selector.matches("c"));
    assert!(selector.matches("a c"));
    assert!(selector.matches("a b"));
    assert!(!selector.matches("a"));
}

#[test]
fn test_comma_is_weaker_than_operators() {
    let selector = read("a & b, c");
    assert!(selector.matches("c"));
    assert!(selector.matches("a b"));
    assert!(!selector.matches("a"));
    let selector = read("a, b & c");
    assert!(selector.matches("a"));
    assert!(!selector.matches("b"));
    assert!(selector.matches("c b"));
}

#[test]
fn test_trailing_comma() {
    for selector in ["a,", "a ,", "a, ", " a , \t"] {
        let tree = read(selector);
        assert!(tree.matches("a c"), "{:?}", selector);
        assert!(!tree.matches("b c"), "{:?}", selector);
    }
}

#[test]
fn test_dash_within_segment() {
    let selector = read("a-c");
    assert!(selector.matches("a-c"));
    assert!(selector.matches("a-c.d"));
    assert!(!selector.matches("a"));
    assert!(!selector.matches("a b"));
    let selector = read("a-");
    assert!(selector.matches("a-"));
    let selector = read("a--b");
    assert!(selector.matches("a--b"));
    let selector = read("a.b-");
    assert!(selector.matches("a.b-"));
}

#[test]
fn test_negation() {
    let selector = read("-a");
    assert!(!selector.matches("a"));
    assert!(selector.matches("b"));
    let selector = read("- a b");
    assert!(!selector.matches("a b"));
    assert!(selector.matches("b a"));
    let selector = read("-(a | b)");
    assert!(!selector.matches("a"));
    assert!(!selector.matches("b"));
    assert!(selector.matches("c"));
    let selector = read("a - -b");
    assert!(selector.matches("a b"));
    assert!(!selector.matches("a"));
    let selector = read("-a -b");
    assert!(selector.matches("c"));
    assert!(!selector.matches("a"));
    assert!(!selector.matches("b"));
}

#[test]
fn test_prefix_of_path_and_group() {
    assert_eq!(read("L:a").get_prefix("a"), Some('L'));
    assert_eq!(read("R:a").get_prefix("a"), Some('R'));
    assert_eq!(read("B:a").get_prefix("a"), Some('B'));
    assert_eq!(read("L:a").get_prefix("b"), None);
    assert_eq!(read("a").get_prefix("a"), None);
    assert_eq!(read("B:(a)").get_prefix("a"), Some('B'));
    assert_eq!(read("B:(a)").get_prefix("b"), None);
    assert_eq!(read("(L:a)").get_prefix("a"), None);
    assert_eq!(read("L:a b").get_prefix("a c b"), Some('L'));
    assert!(parse("L:a R:b").is_err());
}

#[test]
fn test_prefix_of_operators() {
    assert_eq!(read("R:a | L:b").get_prefix("b"), Some('L'));
    assert_eq!(read("R:a | L:b").get_prefix("a b"), Some('R'));
    assert_eq!(read("a | L:b").get_prefix("a b"), Some('L'));
    assert_eq!(read("R:a, L:b").get_prefix("b"), Some('L'));
    assert_eq!(read("R:a, L:b").get_prefix("a b"), Some('R'));
    assert_eq!(read("L:a & R:b").get_prefix("a b"), Some('L'));
    assert_eq!(read("L:a & R:b").get_prefix("a"), None);
    assert_eq!(read("a & R:b").get_prefix("a b"), None);
    assert_eq!(read("L:a - b").get_prefix("a"), Some('L'));
    assert_eq!(read("L:a - b").get_prefix("a b"), None);
    assert_eq!(read("a - L:b").get_prefix("a"), None);
    assert_eq!(read("-L:a").get_prefix("b"), None);
    assert_eq!(read("-L:a").get_prefix("a"), None);
}

#[test]
fn test_marker_letters_as_segments() {
    assert!(read("L").matches("L"));
    assert!(read("L.a").matches("L.a"));
    assert!(read("Lx").matches("Lx"));
    assert!(read("R B").matches("R B"));
    assert_eq!(read("L").get_prefix("L"), None);
    assert!(read("L:L").matches("L"));
    assert_eq!(read("L:L").get_prefix("L"), Some('L'));
}

#[test]
fn test_segment_characters() {
    assert!(read("c++").matches("c++"));
    assert!(read("+").matches("+"));
    assert!(read("_a-Z09+").matches("_a-Z09+"));
    assert!(read("0").matches("0"));
    assert!(!read("A").matches("a"));
}

#[test]
fn test_empty_path() {
    assert!(!read("a").matches(""));
    assert!(read("-a").matches(""));
    assert!(read("*").matches(""));
    assert_eq!(read("L:*").get_prefix(""), Some('L'));
}

#[test]
fn test_nested_groups() {
    let selector = read("((a))");
    assert!(selector.matches("a"));
    assert!(!selector.matches("b"));
    let selector = read("( a - ( b , c ) ) | d");
    assert!(selector.matches("a"));
    assert!(!selector.matches("a b"));
    assert!(!selector.matches("a c"));
    assert!(selector.matches("a c d"));
    assert!(selector.matches("d"));
}

#[test]
fn test_same_selector_same_answers() {
    let text = "L:text.html - (comment, string), R:source.* meta";
    let first = read(text);
    let second = read(text);
    for input in ["text.html", "text.html comment", "source.js meta", "source", "", "string"] {
        assert_eq!(first.matches(input), second.matches(input), "{:?}", input);
        assert_eq!(first.matches(input), first.matches(input), "{:?}", input);
        assert_eq!(first.get_prefix(input), second.get_prefix(input), "{:?}", input);
    }
    assert_eq!(first.get_prefix("text.html"), Some('L'));
    assert_eq!(first.get_prefix("text.html comment"), None);
    assert_eq!(first.get_prefix("source.js meta"), Some('R'));
}

#[test]
fn test_injection_selectors() {
    let selector = read(
        "source.matlab -comment -entity -support -string -variable -interpolation -source.shell",
    );
    assert!(selector.matches("source.matlab meta.class.matlab"));
    assert!(!selector.matches("source.matlab comment.line"));
    assert!(selector.matches(
        "source.matlab meta.class.matlab meta.class.declaration.matlab entity.name.type.class.matlab"
    ));
    assert!(selector.matches("source.matlab comment.line entity.name"));
    let selector = read(
        "L:text.html.markdown - (comment, string, meta.paragraph.markdown, markup.*.block.markdown)",
    );
    assert_eq!(selector.get_prefix("text.html.markdown meta.paragraph.markdown"), None);
    assert_eq!(selector.get_prefix("text.html.markdown"), Some('L'));
    assert_eq!(selector.get_prefix("text.html.markdown markup.raw.block.markdown"), None);
    assert_eq!(selector.get_prefix("text.html.markdown markup.raw.inline.markdown"), Some('L'));
}
