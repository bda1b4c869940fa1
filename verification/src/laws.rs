//! What holds of every selector and every scope path.
use vstd::prelude::*;
use crate::error;
use crate::error::{LineCol, ParseError};
use crate::grammar;
use crate::grammar::{clean, Missing};
use crate::matchers::MatcherTree;
use crate::reads;
use crate::selector::{combine, occur, Selector};
use crate::text::{run, segments, split, tokens, Separator};

verus! {

/// The selector that `*` is read as: one path of one scope of one wildcard.
pub open spec fn star() -> Selector {
    Selector::Path(None, seq![Selector::Scope(seq![Selector::Wildcard])])
}

/// A text has at least one piece.
pub proof fn lemma_split_is_not_empty(text: Seq<char>, sep: Separator)
    ensures
        split(text, sep).len() >= 1,
{
}

/// The pieces of a text that goes on after a separator are the pieces of
/// what stands before that separator, and then the pieces of what stands
/// after it.
pub proof fn lemma_split_longer(text: Seq<char>, more: Seq<char>, c: char, sep: Separator)
    requires
        sep.separates(c),
    ensures
        split(text + seq![c] + more, sep) == split(text, sep) + split(more, sep),
    decreases text.len(),
{
    let whole = text + seq![c] + more;
    let n = run(text, sep) as int;
    lemma_run_of_longer(text, seq![c] + more, sep);
    assert(whole == text + (seq![c] + more));
    if n >= text.len() {
        assert(whole[n] == c);
        assert(whole.take(n) == text);
        assert(whole.skip(n + 1) == more);
    } else {
        let rest = text.skip(n + 1);
        assert(whole.take(n) == text.take(n));
        assert(whole.skip(n + 1) == rest + seq![c] + more);
        lemma_split_longer(rest, more, c, sep);
        assert(seq![text.take(n)] + (split(rest, sep) + split(more, sep)) == (seq![text.take(n)]
            + split(rest, sep)) + split(more, sep));
    }
}

/// What follows a text does not change where the first separator of the text
/// is; a text without one runs on into what follows.
proof fn lemma_run_of_longer(text: Seq<char>, more: Seq<char>, sep: Separator)
    ensures
        run(text, sep) <= text.len(),
        run(text, sep) < text.len() ==> run(text + more, sep) == run(text, sep),
        run(text, sep) >= text.len() ==> run(text + more, sep) == text.len() + run(more, sep),
    decreases text.len(),
{
    if text.len() == 0 {
        assert(text + more == more);
    } else {
        assert((text + more)[0] == text[0]);
        assert((text + more).drop_first() == text.drop_first() + more);
        if !sep.separates(text[0]) {
            lemma_run_of_longer(text.drop_first(), more, sep);
        }
    }
}

/// `*` is read as [`star`], and matches every scope path; within a scope, a
/// wildcard matches every segment.
pub proof fn lemma_star_matches_everything(path: Seq<char>)
    ensures
        grammar::parse(seq!['*']) == Ok::<Selector, Missing>(star()),
        star().matches(path),
        Selector::Wildcard.matches(path),
{
    lemma_parse_star();
    let scope = Selector::Scope(seq![Selector::Wildcard]);
    assert forall|token: Seq<char>| scope.matches(token) by {
        reveal_with_fuel(Selector::matches, 2);
        lemma_split_is_not_empty(token, Separator::Dot);
    }
    lemma_split_is_not_empty(path, Separator::Blank);
    let all = tokens(path);
    let patterns = seq![scope];
    lemma_occur_last(patterns, all);
}

/// Patterns occur among tokens where the last pattern is the only one and
/// matches the last token.
proof fn lemma_occur_last(patterns: Seq<Selector>, all: Seq<Seq<char>>)
    requires
        patterns.len() == 1,
        all.len() >= 1,
        patterns[0].matches(all.last()),
    ensures
        occur(patterns, all),
{
    assert(occur(patterns.drop_last(), all.drop_last()));
}

proof fn lemma_parse_star()
    ensures
        grammar::parse(seq!['*']) == Ok::<Selector, Missing>(star()),
{
    reveal(grammar::prefix);
    reveal(grammar::atom);
    reveal(grammar::scope);
    reveal(grammar::path);
    reveal(grammar::negated_path);
    reveal_with_fuel(grammar::more_atoms, 1);
    reveal_with_fuel(grammar::more_scopes, 1);
    reveal_with_fuel(grammar::group, 1);
    reveal_with_fuel(grammar::negated_group, 1);
    reveal_with_fuel(grammar::expression, 1);
    reveal_with_fuel(grammar::chained, 1);
    reveal_with_fuel(grammar::composite, 1);
    reveal_with_fuel(grammar::listed, 1);
    reveal_with_fuel(grammar::selector, 1);
    let s = seq!['*'];
    let wildcard = Selector::Wildcard;
    let scope = Selector::Scope(seq![wildcard]);
    assert(s.len() == 1 && s[0] == '*');
    assert(grammar::blanks(s, 0) == 0);
    assert(grammar::blanks(s, 1) == 0);
    assert(grammar::segment_chars(s, 0) == 0);
    assert(grammar::atom(s, 0).found == Some(wildcard) && grammar::atom(s, 0).taken == 1);
    assert(grammar::more_atoms(s, 1).found == Some(Seq::<Selector>::empty()));
    assert(grammar::more_atoms(s, 1).taken == 0);
    assert(seq![wildcard] + Seq::<Selector>::empty() == seq![wildcard]);
    assert(grammar::scope(s, 0).found == Some(scope) && grammar::scope(s, 0).taken == 1);
    assert(grammar::more_scopes(s, 1).found == Some(Seq::<Selector>::empty()));
    assert(grammar::more_scopes(s, 1).taken == 0);
    assert(seq![scope] + Seq::<Selector>::empty() == seq![scope]);
    assert(grammar::prefix(s, 0).found == Some(None::<char>) && grammar::prefix(s, 0).taken == 0);
    assert(grammar::path(s, 0).found == Some(star()));
    assert(grammar::path(s, 0).taken == 1);
    assert(grammar::negated_group(s, 0).found is None);
    assert(grammar::negated_path(s, 0).found is None);
    assert(grammar::group(s, 0).found is None);
    assert(grammar::expression(s, 0).found == Some(star()));
    assert(grammar::expression(s, 0).taken == 1);
    assert(grammar::chained(s, 0).found is None);
    assert(grammar::composite(s, 0).found == Some(star()));
    assert(grammar::composite(s, 0).taken == 1);
    assert(grammar::listed(s, 0).found is None);
    assert(grammar::selector(s, 0).found == Some(star()));
    assert(grammar::selector(s, 0).taken == 1);
}

/// A scope matches a token by its leading segments: what matches a token
/// matches every token that goes on after it with a dot and more segments.
pub proof fn lemma_scope_matches_longer_token(
    atoms: Seq<Selector>,
    token: Seq<char>,
    more: Seq<char>,
)
    requires
        Selector::Scope(atoms).matches(token),
    ensures
        Selector::Scope(atoms).matches(token + seq!['.'] + more),
{
    lemma_split_longer(token, more, '.', Separator::Dot);
    let parts = segments(token);
    let longer = segments(token + seq!['.'] + more);
    assert forall|i: int| 0 <= i < atoms.len() implies (#[trigger] atoms[i]).matches(
        longer[i],
    ) by {
        assert(longer[i] == parts[i]);
    }
}

/// The three operators: `|` matches where either side does, `&` where both
/// do, and `-` where the left side does and the right side does not.
pub proof fn lemma_operators(left: Selector, right: Selector, path: Seq<char>)
    ensures
        combine(left, '|', right).matches(path) == (left.matches(path) || right.matches(path)),
        combine(left, '&', right).matches(path) == (left.matches(path) && right.matches(path)),
        combine(left, '-', right).matches(path) == (left.matches(path) && !right.matches(path)),
{
    reveal_with_fuel(Selector::matches, 2);
}

/// What a text is read as depends on the text alone: two readings of one
/// text give trees that stand for the same selector, and so give the same
/// answers on every scope path, or they report the same error.
pub proof fn lemma_same_text_same_reading(
    selector: Seq<char>,
    first: Result<Box<MatcherTree>, ParseError>,
    second: Result<Box<MatcherTree>, ParseError>,
    path: Seq<char>,
)
    requires
        reads(selector, first),
        reads(selector, second),
    ensures
        first is Ok <==> second is Ok,
        first is Ok ==> {
            &&& first->Ok_0@ == second->Ok_0@
            &&& first->Ok_0@.matches(path) == second->Ok_0@.matches(path)
            &&& first->Ok_0@.prefix(path) == second->Ok_0@.prefix(path)
        },
        first is Err ==> first->Err_0 == second->Err_0,
{
}

/// A text that is read as a selector holds nothing but characters of
/// selectors.
pub proof fn lemma_selector_is_clean(s: Seq<char>)
    requires
        grammar::parse(s) is Ok,
    ensures
        clean(s, s.len() as int),
{
    grammar::lemma_selector_after_clean_text(s);
}

/// Where a text is no selector, the position that is reported lies on the
/// first line of the text, since no selector goes over a line break: its line
/// is 1, and its column is one more than its offset. Its offset counts the
/// bytes before it as well as the characters.
pub proof fn lemma_error_on_first_line(s: Seq<char>, location: LineCol)
    requires
        grammar::parse(s) matches Err(missing) && location.locates(s, missing.at),
    ensures
        location.offset <= s.len(),
        location.line == 1,
        location.column == location.offset + 1,
        vstd::utf8::encode_utf8(s.take(location.offset as int)).len() == location.offset,
{
    grammar::lemma_error_after_clean_text(s);
    grammar::lemma_clean_within(s, location.offset as int);
    error::lemma_clean_is_one_line(s, location.offset as int);
    error::lemma_clean_is_one_byte_each(s, location.offset as int);
}

} // verus!
