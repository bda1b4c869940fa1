use textmate_scope_selector_peg::text::{first_char, same_text, Separator};

#[test]
fn test_split_at_dots() {
    assert_eq!(Separator::Dot.split("a.b.c"), vec!["a", "b", "c"]);
    assert_eq!(Separator::Dot.split("source"), vec!["source"]);
    assert_eq!(Separator::Dot.split(""), vec![""]);
    assert_eq!(Separator::Dot.split("."), vec!["", ""]);
    assert_eq!(Separator::Dot.split("a."), vec!["a", ""]);
    assert_eq!(Separator::Dot.split(".a"), vec!["", "a"]);
    assert_eq!(Separator::Dot.split("a..b"), vec!["a", "", "b"]);
    assert_eq!(Separator::Dot.split("a b"), vec!["a b"]);
    assert_eq!(Separator::Dot.split("\u{e9}.\u{4e2d}\u{6587}.z"), vec!["\u{e9}", "\u{4e2d}\u{6587}", "z"]);
}

#[test]
fn test_split_at_blanks() {
    assert_eq!(Separator::Blank.split("a b"), vec!["a", "b"]);
    assert_eq!(Separator::Blank.split("a\tb"), vec!["a", "b"]);
    assert_eq!(Separator::Blank.split("a \tb"), vec!["a", "", "b"]);
    assert_eq!(Separator::Blank.split(" a "), vec!["", "a", ""]);
    assert_eq!(Separator::Blank.split(""), vec![""]);
    assert_eq!(Separator::Blank.split("a.b c.d"), vec!["a.b", "c.d"]);
    assert_eq!(Separator::Blank.split("a\nb"), vec!["a\nb"]);
}

#[test]
fn test_split_as_std_does() {
    for text in ["", "a", "a.b", ".", "..", "a. b.\tc", " .\t. ", "\u{e9} \u{e9}.\u{e9}"] {
        let dots: Vec<&str> = text.split('.').collect();
        assert_eq!(Separator::Dot.split(text), dots, "{:?}", text);
        let blanks: Vec<&str> = text.split(&[' ', '\t']).collect();
        assert_eq!(Separator::Blank.split(text), blanks, "{:?}", text);
    }
}

#[test]
fn test_separators() {
    assert!(Separator::Dot.is_separator('.'));
    assert!(!Separator::Dot.is_separator(' '));
    assert!(Separator::Blank.is_separator(' '));
    assert!(Separator::Blank.is_separator('\t'));
    assert!(!Separator::Blank.is_separator('\n'));
    assert!(!Separator::Blank.is_separator('.'));
}

#[test]
fn test_same_text() {
    assert!(same_text("", ""));
    assert!(same_text("a.b", "a.b"));
    assert!(!same_text("a", "b"));
    assert!(!same_text("a", "ab"));
    assert!(!same_text("ab", "a"));
    assert!(!same_text("", "a"));
    assert!(same_text("\u{e9}", "\u{e9}"));
    assert!(!same_text("\u{e9}", "e"));
}

#[test]
fn test_first_char() {
    assert_eq!(first_char("L:"), Some('L'));
    assert_eq!(first_char(""), None);
    assert_eq!(first_char("\u{e9}a"), Some('\u{e9}'));
}
