//! The grammar of selectors, as a parsing expression grammar over characters.
//!
//! ```text
//! selector   := composite _ "," _ selector?  /  composite
//! composite  := expression _ operator _ composite  /  expression
//! expression := "-" _ group _  /  "-" _ path _  /  group  /  path
//! group      := prefix? "(" _ selector _ ")"
//! path       := prefix? scope (blank+ scope)*
//! scope      := atom ("." atom)*
//! atom       := segment  /  "*"
//! prefix     := ("L" / "R" / "B") ":"
//! operator   := "|" / "&" / "-"
//! segment    := one or more of a-z A-Z 0-9 _ + -, the first not "-"
//! _          := blank*
//! blank      := " " / tab
//! ```
//!
//! Alternatives are tried from left to right and the first that succeeds is
//! taken; repetitions take as much as they can and are never shortened
//! afterwards. Every rule is a function of the text and of the position at
//! which it is tried. Besides its result a rule reports how far into the text
//! an expected character was found missing, and what was expected there:
//! where the whole text is no selector, the furthest such position is where
//! the error lies. Blanks are never expected, so a missing blank is not
//! reported, and neither is what the `-` that may not begin a segment stands
//! in the way of.
use vstd::prelude::*;
use crate::error::{Expected, ExpectedSet};
use crate::selector::{combine, is_operator, Selector};
use crate::text::Separator;

verus! {

/// What was found missing, and where.
pub struct Missing {
    /// The furthest position at which something was missing, or 0 where
    /// nothing was.
    pub at: int,
    /// What was expected at that position.
    pub expected: ExpectedSet,
}

/// Nothing was found missing.
pub open spec fn nothing() -> Missing {
    Missing { at: 0, expected: ExpectedSet::empty() }
}

/// `what` was found missing at `at`.
pub open spec fn missing(at: int, what: Expected) -> Missing {
    Missing { at, expected: ExpectedSet::only(what) }
}

/// What is missing furthest into the text: the later of the two, or both
/// where they lie at one position.
#[verifier::opaque]
pub open spec fn later(a: Missing, b: Missing) -> Missing {
    if a.at > b.at {
        a
    } else if b.at > a.at {
        b
    } else {
        Missing { at: a.at, expected: a.expected.union(b.expected) }
    }
}

/// The later of two lies where one of them lies, and not before the other.
pub broadcast proof fn lemma_later_at(a: Missing, b: Missing)
    ensures
        #[trigger] later(a, b).at == if a.at >= b.at {
            a.at
        } else {
            b.at
        },
{
    reveal(later);
}

/// It does not matter which two of three are compared first.
pub proof fn lemma_later_in_any_order(a: Missing, b: Missing, c: Missing)
    ensures
        later(later(a, b), c) == later(a, later(b, c)),
{
    reveal(later);
    ExpectedSet::lemma_union(a.expected, b.expected, c.expected);
}

/// Where nothing else is missing, what is missing stays what it is.
pub proof fn lemma_later_nothing(a: Missing)
    requires
        a.at >= 0,
    ensures
        later(a, nothing()) == a,
        later(nothing(), a) == a,
{
    reveal(later);
    ExpectedSet::lemma_union(a.expected, ExpectedSet::empty(), a.expected);
    ExpectedSet::lemma_union(ExpectedSet::empty(), a.expected, a.expected);
}

/// What was counted once need not be counted again.
pub proof fn lemma_later_again(a: Missing, b: Missing)
    ensures
        later(a, a) == a,
        later(later(a, b), a) == later(a, b),
        later(later(a, b), b) == later(a, b),
{
    reveal(later);
    ExpectedSet::lemma_union(a.expected, b.expected, a.expected);
    ExpectedSet::lemma_union(a.expected, b.expected, b.expected);
    ExpectedSet::lemma_union(b.expected, b.expected, b.expected);
}

/// What came of trying a rule at some position.
pub struct Parsed<T> {
    /// The value that was read, or `None` where the rule does not match.
    pub found: Option<T>,
    /// The number of characters that the match took.
    pub taken: nat,
    /// What the rule, where it could have gone on, found missing.
    pub missing: Missing,
}

impl<T> Parsed<T> {
    /// A match of `taken` characters.
    pub open spec fn some(value: T, taken: nat, missing: Missing) -> Self {
        Parsed { found: Some(value), taken, missing }
    }

    /// No match.
    pub open spec fn none(missing: Missing) -> Self {
        Parsed { found: None, taken: 0, missing }
    }

    /// Ordered choice: `self` where it matches, otherwise `other`, which was
    /// then tried as well.
    pub open spec fn or(self, other: Self) -> Self {
        if self.found is Some {
            self
        } else {
            Parsed {
                found: other.found,
                taken: other.taken,
                missing: later(self.missing, other.missing),
            }
        }
    }
}

/// A space or a tab: what separates the tokens of a scope path separates
/// the scopes of a selector.
pub open spec fn is_blank(c: char) -> bool {
    Separator::Blank.separates(c)
}

/// A character that a segment may hold.
pub open spec fn is_segment_char(c: char) -> bool {
    ||| 'a' <= c <= 'z'
    ||| 'A' <= c <= 'Z'
    ||| '0' <= c <= '9'
    ||| c == '_'
    ||| c == '-'
    ||| c == '+'
}

/// One of the three markers.
pub open spec fn is_marker(c: char) -> bool {
    c == 'L' || c == 'R' || c == 'B'
}

/// Whether `c` stands at `pos`.
pub open spec fn has(s: Seq<char>, pos: int, c: char) -> bool {
    0 <= pos < s.len() && s[pos] == c
}

/// `_`: the number of blanks that begin at `pos`.
pub open spec fn blanks(s: Seq<char>, pos: int) -> nat
    decreases s.len() - pos,
{
    if 0 <= pos < s.len() && is_blank(s[pos]) {
        1 + blanks(s, pos + 1)
    } else {
        0
    }
}

/// The number of segment characters that begin at `pos`.
pub open spec fn segment_chars(s: Seq<char>, pos: int) -> nat
    decreases s.len() - pos,
{
    if 0 <= pos < s.len() && is_segment_char(s[pos]) {
        1 + segment_chars(s, pos + 1)
    } else {
        0
    }
}

/// Blanks end where the text does, at the latest.
pub proof fn lemma_blanks_within(s: Seq<char>, pos: int)
    requires
        0 <= pos <= s.len(),
    ensures
        pos + blanks(s, pos) <= s.len(),
    decreases s.len() - pos,
{
    if pos < s.len() && is_blank(s[pos]) {
        lemma_blanks_within(s, pos + 1);
    }
}

/// A segment ends where the text does, at the latest.
pub proof fn lemma_segment_within(s: Seq<char>, pos: int)
    requires
        0 <= pos <= s.len(),
    ensures
        pos + segment_chars(s, pos) <= s.len(),
    decreases s.len() - pos,
{
    if pos < s.len() && is_segment_char(s[pos]) {
        lemma_segment_within(s, pos + 1);
    }
}

/// `prefix?`: the marker of a prefix at `pos`, if one is there. It always
/// matches.
#[verifier::opaque]
pub open spec fn prefix(s: Seq<char>, pos: int) -> Parsed<Option<char>> {
    if 0 <= pos < s.len() && is_marker(s[pos]) {
        if has(s, pos + 1, ':') {
            Parsed::some(Some(s[pos]), 2, nothing())
        } else {
            Parsed::some(None, 0, missing(pos + 1, Expected::Colon))
        }
    } else {
        Parsed::some(None, 0, missing(pos, Expected::Marker))
    }
}

/// `atom`: a segment, or `*`. A segment ends where the next character is
/// not one of a segment. Where `-` stands in the way of a segment, no
/// character of a segment counts as missing.
#[verifier::opaque]
pub open spec fn atom(s: Seq<char>, pos: int) -> Parsed<Selector> {
    let n = segment_chars(s, pos);
    if n > 0 && s[pos] != '-' {
        Parsed::some(
            Selector::Segment(s.subrange(pos, pos + n)),
            n,
            missing(pos + n, Expected::Segment),
        )
    } else if has(s, pos, '*') {
        Parsed::some(Selector::Wildcard, 1, missing(pos, Expected::Segment))
    } else if n > 0 {
        Parsed::none(missing(pos, Expected::Star))
    } else {
        Parsed::none(later(missing(pos, Expected::Segment), missing(pos, Expected::Star)))
    }
}

/// An atom ends where the text does, at the latest.
pub proof fn lemma_atom_within(s: Seq<char>, pos: int)
    requires
        0 <= pos <= s.len(),
    ensures
        pos + atom(s, pos).taken <= s.len(),
{
    reveal(atom);
    lemma_segment_within(s, pos);
}

/// `("." atom)*`: the atoms that follow the first one of a scope.
#[verifier::opaque]
pub open spec fn more_atoms(s: Seq<char>, pos: int) -> Parsed<Seq<Selector>>
    decreases s.len() - pos,
{
    if has(s, pos, '.') {
        let next = atom(s, pos + 1);
        if next.found is Some {
            proof {
                lemma_atom_within(s, pos + 1);
            }
            let rest = more_atoms(s, pos + 1 + next.taken);
            Parsed::some(
                seq![next.found->0] + rest.found->0,
                1 + next.taken + rest.taken,
                later(next.missing, rest.missing),
            )
        } else {
            Parsed::some(Seq::empty(), 0, next.missing)
        }
    } else {
        Parsed::some(Seq::empty(), 0, missing(pos, Expected::Dot))
    }
}

/// The atoms after the first end where the text does, at the latest.
pub proof fn lemma_more_atoms_within(s: Seq<char>, pos: int)
    requires
        0 <= pos <= s.len(),
    ensures
        more_atoms(s, pos).found is Some,
        pos + more_atoms(s, pos).taken <= s.len(),
    decreases s.len() - pos,
{
    reveal_with_fuel(more_atoms, 1);
    if has(s, pos, '.') && atom(s, pos + 1).found is Some {
        lemma_atom_within(s, pos + 1);
        lemma_more_atoms_within(s, pos + 1 + atom(s, pos + 1).taken);
    }
}

/// `scope`: atoms with dots between them.
#[verifier::opaque]
pub open spec fn scope(s: Seq<char>, pos: int) -> Parsed<Selector> {
    let first = atom(s, pos);
    if first.found is Some {
        let rest = more_atoms(s, pos + first.taken);
        Parsed::some(
            Selector::Scope(seq![first.found->0] + rest.found->0),
            first.taken + rest.taken,
            later(first.missing, rest.missing),
        )
    } else {
        Parsed::none(first.missing)
    }
}

/// A scope ends where the text does, at the latest.
pub proof fn lemma_scope_within(s: Seq<char>, pos: int)
    requires
        0 <= pos <= s.len(),
    ensures
        pos + scope(s, pos).taken <= s.len(),
{
    reveal(scope);
    lemma_atom_within(s, pos);
    if atom(s, pos).found is Some {
        lemma_more_atoms_within(s, pos + atom(s, pos).taken);
    }
}

/// `(blank+ scope)*`: the scopes that follow the first one of a path.
#[verifier::opaque]
pub open spec fn more_scopes(s: Seq<char>, pos: int) -> Parsed<Seq<Selector>>
    decreases s.len() - pos,
{
    let gap = blanks(s, pos);
    if gap > 0 {
        let next = scope(s, pos + gap);
        if next.found is Some {
            proof {
                lemma_blanks_within(s, pos);
                lemma_scope_within(s, pos + gap);
            }
            let rest = more_scopes(s, pos + gap + next.taken);
            Parsed::some(
                seq![next.found->0] + rest.found->0,
                gap + next.taken + rest.taken,
                later(next.missing, rest.missing),
            )
        } else {
            Parsed::some(Seq::empty(), 0, next.missing)
        }
    } else {
        Parsed::some(Seq::empty(), 0, nothing())
    }
}

/// The scopes after the first end where the text does, at the latest.
pub proof fn lemma_more_scopes_within(s: Seq<char>, pos: int)
    requires
        0 <= pos <= s.len(),
    ensures
        more_scopes(s, pos).found is Some,
        pos + more_scopes(s, pos).taken <= s.len(),
    decreases s.len() - pos,
{
    reveal_with_fuel(more_scopes, 1);
    let gap = blanks(s, pos);
    if gap > 0 && scope(s, pos + gap).found is Some {
        lemma_blanks_within(s, pos);
        lemma_scope_within(s, pos + gap);
        lemma_more_scopes_within(s, pos + gap + scope(s, pos + gap).taken);
    }
}

/// `path`: scopes with blanks between them, after an optional prefix.
#[verifier::opaque]
pub open spec fn path(s: Seq<char>, pos: int) -> Parsed<Selector> {
    let mark = prefix(s, pos);
    let start = pos + mark.taken;
    let first = scope(s, start);
    if first.found is Some {
        let rest = more_scopes(s, start + first.taken);
        Parsed::some(
            Selector::Path(mark.found->0, seq![first.found->0] + rest.found->0),
            mark.taken + first.taken + rest.taken,
            later(mark.missing, later(first.missing, rest.missing)),
        )
    } else {
        Parsed::none(later(mark.missing, first.missing))
    }
}

/// `"-" _ path _`: a path that is negated.
#[verifier::opaque]
pub open spec fn negated_path(s: Seq<char>, pos: int) -> Parsed<Selector> {
    if has(s, pos, '-') {
        let gap = blanks(s, pos + 1);
        let inner = path(s, pos + 1 + gap);
        if inner.found is Some {
            Parsed::some(
                Selector::Negate(Box::new(inner.found->0)),
                1 + gap + inner.taken + blanks(s, pos + 1 + gap + inner.taken),
                inner.missing,
            )
        } else {
            Parsed::none(inner.missing)
        }
    } else {
        Parsed::none(missing(pos, Expected::Dash))
    }
}

/// `group`: a selector in parentheses, after an optional prefix.
#[verifier::opaque]
pub open spec fn group(s: Seq<char>, pos: int) -> Parsed<Selector>
    decreases s.len() - pos, 0nat,
{
    let mark = prefix(s, pos);
    let open = pos + mark.taken;
    if has(s, open, '(') {
        let gap = blanks(s, open + 1);
        proof {
            lemma_blanks_within(s, open + 1);
        }
        let inner = selector(s, open + 1 + gap);
        if inner.found is Some {
            let end = blanks(s, open + 1 + gap + inner.taken);
            let close = open + 1 + gap + inner.taken + end;
            if has(s, close, ')') {
                Parsed::some(
                    Selector::Group(mark.found->0, Box::new(inner.found->0)),
                    mark.taken + 1 + gap + inner.taken + end + 1,
                    later(mark.missing, inner.missing),
                )
            } else {
                Parsed::none(
                    later(later(mark.missing, inner.missing), missing(close, Expected::Close)),
                )
            }
        } else {
            Parsed::none(later(mark.missing, inner.missing))
        }
    } else {
        Parsed::none(later(mark.missing, missing(open, Expected::Open)))
    }
}

/// `"-" _ group _`: a group that is negated.
#[verifier::opaque]
pub open spec fn negated_group(s: Seq<char>, pos: int) -> Parsed<Selector>
    decreases s.len() - pos, 1nat,
{
    if has(s, pos, '-') {
        let gap = blanks(s, pos + 1);
        proof {
            lemma_blanks_within(s, pos + 1);
        }
        let inner = group(s, pos + 1 + gap);
        if inner.found is Some {
            Parsed::some(
                Selector::Negate(Box::new(inner.found->0)),
                1 + gap + inner.taken + blanks(s, pos + 1 + gap + inner.taken),
                inner.missing,
            )
        } else {
            Parsed::none(inner.missing)
        }
    } else {
        Parsed::none(missing(pos, Expected::Dash))
    }
}

/// `expression`: a group or a path, negated or not.
#[verifier::opaque]
pub open spec fn expression(s: Seq<char>, pos: int) -> Parsed<Selector>
    decreases s.len() - pos, 2nat,
{
    negated_group(s, pos).or(negated_path(s, pos)).or(group(s, pos)).or(path(s, pos))
}

/// `expression _ operator _ composite`: two or more expressions with
/// operators between them. What follows an operator is read first, so that
/// `a - b - c` is `a` without `b - c`.
#[verifier::opaque]
pub open spec fn chained(s: Seq<char>, pos: int) -> Parsed<Selector>
    decreases s.len() - pos, 3nat,
{
    let left = expression(s, pos);
    if left.found is Some {
        let before = blanks(s, pos + left.taken);
        let at = pos + left.taken + before;
        if 0 <= at < s.len() && is_operator(s[at]) {
            let after = blanks(s, at + 1);
            proof {
                lemma_blanks_within(s, at + 1);
            }
            let right = composite(s, at + 1 + after);
            if right.found is Some {
                Parsed::some(
                    Selector::Composite(
                        Box::new(combine(left.found->0, s[at], right.found->0)),
                    ),
                    left.taken + before + 1 + after + right.taken,
                    later(left.missing, right.missing),
                )
            } else {
                Parsed::none(later(left.missing, right.missing))
            }
        } else {
            Parsed::none(later(left.missing, missing(at, Expected::Operator)))
        }
    } else {
        Parsed::none(left.missing)
    }
}

/// `composite`: expressions with operators between them, or one expression.
#[verifier::opaque]
pub open spec fn composite(s: Seq<char>, pos: int) -> Parsed<Selector>
    decreases s.len() - pos, 4nat,
{
    chained(s, pos).or(expression(s, pos))
}

/// `composite _ "," _ selector?`: a composite and a comma, and the selector
/// after the comma if there is one. Without one the comma changes nothing.
#[verifier::opaque]
pub open spec fn listed(s: Seq<char>, pos: int) -> Parsed<Selector>
    decreases s.len() - pos, 5nat,
{
    let left = composite(s, pos);
    if left.found is Some {
        let before = blanks(s, pos + left.taken);
        let at = pos + left.taken + before;
        if has(s, at, ',') {
            let after = blanks(s, at + 1);
            proof {
                lemma_blanks_within(s, at + 1);
            }
            let right = selector(s, at + 1 + after);
            if right.found is Some {
                Parsed::some(
                    Selector::Or(Box::new(left.found->0), Box::new(right.found->0)),
                    left.taken + before + 1 + after + right.taken,
                    later(left.missing, right.missing),
                )
            } else {
                Parsed::some(
                    left.found->0,
                    left.taken + before + 1 + after,
                    later(left.missing, right.missing),
                )
            }
        } else {
            Parsed::none(later(left.missing, missing(at, Expected::Comma)))
        }
    } else {
        Parsed::none(left.missing)
    }
}

/// `selector`: composites with commas between them, or one composite.
#[verifier::opaque]
pub open spec fn selector(s: Seq<char>, pos: int) -> Parsed<Selector>
    decreases s.len() - pos, 6nat,
{
    listed(s, pos).or(composite(s, pos))
}

/// What a whole text is read as: blanks, a selector, blanks, and then the
/// end of the text. Where that is not what the text holds, the result is the
/// furthest position at which something was missing, with what was expected
/// there; the end of the text is what is missing where the text goes on after
/// the selector.
pub open spec fn parse(s: Seq<char>) -> Result<Selector, Missing> {
    let start = blanks(s, 0) as int;
    let whole = selector(s, start);
    if whole.found is Some {
        let end = start + whole.taken + blanks(s, start + whole.taken);
        if end >= s.len() {
            Ok(whole.found->0)
        } else {
            Err(later(whole.missing, missing(end, Expected::End)))
        }
    } else {
        Err(whole.missing)
    }
}

/// A character that some rule of the grammar takes.
pub open spec fn is_selector_char(c: char) -> bool {
    ||| is_blank(c)
    ||| is_segment_char(c)
    ||| c == '*'
    ||| c == '.'
    ||| c == ':'
    ||| c == '('
    ||| c == ')'
    ||| c == ','
    ||| c == '|'
    ||| c == '&'
}

/// Whether `upto` is a position of `s` with nothing but characters of
/// selectors before it.
#[verifier::opaque]
pub open spec fn clean(s: Seq<char>, upto: int) -> bool {
    &&& 0 <= upto <= s.len()
    &&& forall|i: int| 0 <= i < upto ==> is_selector_char(#[trigger] s[i])
}

impl<T> Parsed<T> {
    /// Whether the rule that was tried at `pos` went over nothing but
    /// characters of selectors, both in what it took and up to where it found
    /// something missing.
    pub open spec fn stays_clean(self, s: Seq<char>, pos: int) -> bool {
        &&& clean(s, pos + self.taken)
        &&& clean(s, self.missing.at)
    }
}

/// The beginning of a text is clean.
pub proof fn lemma_clean_start(s: Seq<char>)
    ensures
        clean(s, 0),
{
    reveal(clean);
}

/// A clean position is a position.
pub proof fn lemma_clean_within(s: Seq<char>, upto: int)
    requires
        clean(s, upto),
    ensures
        0 <= upto <= s.len(),
{
    reveal(clean);
}

/// The position after a character of selectors that stands at a clean
/// position is clean.
pub proof fn lemma_clean_next(s: Seq<char>, upto: int)
    requires
        clean(s, upto),
        upto < s.len(),
        is_selector_char(s[upto]),
    ensures
        clean(s, upto + 1),
{
    reveal(clean);
}

/// Blanks leave a clean text clean.
proof fn lemma_blanks_clean(s: Seq<char>, pos: int)
    requires
        clean(s, pos),
    ensures
        clean(s, pos + blanks(s, pos)),
    decreases s.len() - pos,
{
    lemma_clean_within(s, pos);
    if pos < s.len() && is_blank(s[pos]) {
        lemma_clean_next(s, pos);
        lemma_blanks_clean(s, pos + 1);
    }
}

/// The characters of a segment leave a clean text clean.
proof fn lemma_segment_clean(s: Seq<char>, pos: int)
    requires
        clean(s, pos),
    ensures
        clean(s, pos + segment_chars(s, pos)),
    decreases s.len() - pos,
{
    lemma_clean_within(s, pos);
    if pos < s.len() && is_segment_char(s[pos]) {
        lemma_clean_next(s, pos);
        lemma_segment_clean(s, pos + 1);
    }
}

/// `prefix?` stays clean.
proof fn lemma_prefix_clean(s: Seq<char>, pos: int)
    requires
        clean(s, pos),
    ensures
        prefix(s, pos).stays_clean(s, pos),
{
    reveal(prefix);
    broadcast use lemma_later_at;
    lemma_clean_within(s, pos);
    lemma_clean_start(s);
    if pos < s.len() && is_marker(s[pos]) {
        lemma_clean_next(s, pos);
        if has(s, pos + 1, ':') {
            lemma_clean_next(s, pos + 1);
        }
    }
}

/// `atom` stays clean.
proof fn lemma_atom_clean(s: Seq<char>, pos: int)
    requires
        clean(s, pos),
    ensures
        atom(s, pos).stays_clean(s, pos),
{
    reveal(atom);
    broadcast use lemma_later_at;
    lemma_clean_within(s, pos);
    lemma_segment_clean(s, pos);
    if has(s, pos, '*') {
        lemma_clean_next(s, pos);
    }
}

/// `("." atom)*` stays clean.
proof fn lemma_more_atoms_clean(s: Seq<char>, pos: int)
    requires
        clean(s, pos),
    ensures
        more_atoms(s, pos).stays_clean(s, pos),
    decreases s.len() - pos,
{
    reveal_with_fuel(more_atoms, 1);
    broadcast use lemma_later_at;
    lemma_clean_within(s, pos);
    if has(s, pos, '.') {
        lemma_clean_next(s, pos);
        lemma_atom_clean(s, pos + 1);
        if atom(s, pos + 1).found is Some {
            let next = pos + 1 + atom(s, pos + 1).taken;
            lemma_clean_within(s, next);
            lemma_more_atoms_clean(s, next);
        }
    }
}

/// `scope` stays clean.
proof fn lemma_scope_clean(s: Seq<char>, pos: int)
    requires
        clean(s, pos),
    ensures
        scope(s, pos).stays_clean(s, pos),
{
    reveal(scope);
    broadcast use lemma_later_at;
    lemma_atom_clean(s, pos);
    if atom(s, pos).found is Some {
        lemma_more_atoms_clean(s, pos + atom(s, pos).taken);
    }
}

/// `(blank+ scope)*` stays clean.
proof fn lemma_more_scopes_clean(s: Seq<char>, pos: int)
    requires
        clean(s, pos),
    ensures
        more_scopes(s, pos).stays_clean(s, pos),
    decreases s.len() - pos,
{
    reveal_with_fuel(more_scopes, 1);
    broadcast use lemma_later_at;
    lemma_clean_start(s);
    let gap = blanks(s, pos);
    if gap > 0 {
        lemma_blanks_clean(s, pos);
        lemma_scope_clean(s, pos + gap);
        if scope(s, pos + gap).found is Some {
            let next = pos + gap + scope(s, pos + gap).taken;
            lemma_clean_within(s, next);
            lemma_more_scopes_clean(s, next);
        }
    }
}

/// `path` stays clean.
proof fn lemma_path_clean(s: Seq<char>, pos: int)
    requires
        clean(s, pos),
    ensures
        path(s, pos).stays_clean(s, pos),
{
    reveal(path);
    broadcast use lemma_later_at;
    lemma_prefix_clean(s, pos);
    let start = pos + prefix(s, pos).taken;
    lemma_scope_clean(s, start);
    if scope(s, start).found is Some {
        lemma_more_scopes_clean(s, start + scope(s, start).taken);
    }
}

/// A negated path stays clean.
proof fn lemma_negated_path_clean(s: Seq<char>, pos: int)
    requires
        clean(s, pos),
    ensures
        negated_path(s, pos).stays_clean(s, pos),
{
    reveal(negated_path);
    broadcast use lemma_later_at;
    if has(s, pos, '-') {
        lemma_clean_next(s, pos);
        let start = pos + 1 + blanks(s, pos + 1);
        lemma_blanks_clean(s, pos + 1);
        lemma_path_clean(s, start);
        if path(s, start).found is Some {
            lemma_blanks_clean(s, start + path(s, start).taken);
        }
    }
}

/// `group` stays clean.
proof fn lemma_group_clean(s: Seq<char>, pos: int)
    requires
        clean(s, pos),
    ensures
        group(s, pos).stays_clean(s, pos),
    decreases s.len() - pos, 0nat,
{
    reveal_with_fuel(group, 1);
    reveal_with_fuel(selector, 1);
    broadcast use lemma_later_at;
    lemma_prefix_clean(s, pos);
    let open = pos + prefix(s, pos).taken;
    if has(s, open, '(') {
        lemma_clean_next(s, open);
        let start = open + 1 + blanks(s, open + 1);
        lemma_blanks_clean(s, open + 1);
        lemma_clean_within(s, start);
        lemma_selector_clean(s, start);
        if selector(s, start).found is Some {
            let close = start + selector(s, start).taken + blanks(
                s,
                start + selector(s, start).taken,
            );
            lemma_blanks_clean(s, start + selector(s, start).taken);
            if has(s, close, ')') {
                lemma_clean_next(s, close);
            }
        }
    }
}

/// A negated group stays clean.
proof fn lemma_negated_group_clean(s: Seq<char>, pos: int)
    requires
        clean(s, pos),
    ensures
        negated_group(s, pos).stays_clean(s, pos),
    decreases s.len() - pos, 1nat,
{
    reveal_with_fuel(negated_group, 1);
    reveal_with_fuel(group, 1);
    broadcast use lemma_later_at;
    if has(s, pos, '-') {
        lemma_clean_next(s, pos);
        let start = pos + 1 + blanks(s, pos + 1);
        lemma_blanks_clean(s, pos + 1);
        lemma_clean_within(s, start);
        lemma_group_clean(s, start);
        if group(s, start).found is Some {
            lemma_blanks_clean(s, start + group(s, start).taken);
        }
    }
}

/// `expression` stays clean.
proof fn lemma_expression_clean(s: Seq<char>, pos: int)
    requires
        clean(s, pos),
    ensures
        expression(s, pos).stays_clean(s, pos),
    decreases s.len() - pos, 2nat,
{
    reveal_with_fuel(expression, 1);
    reveal_with_fuel(negated_group, 1);
    reveal_with_fuel(group, 1);
    broadcast use lemma_later_at;
    lemma_negated_group_clean(s, pos);
    lemma_negated_path_clean(s, pos);
    lemma_group_clean(s, pos);
    lemma_path_clean(s, pos);
}

/// Expressions with operators between them stay clean.
proof fn lemma_chained_clean(s: Seq<char>, pos: int)
    requires
        clean(s, pos),
    ensures
        chained(s, pos).stays_clean(s, pos),
    decreases s.len() - pos, 3nat,
{
    reveal_with_fuel(chained, 1);
    reveal_with_fuel(expression, 1);
    reveal_with_fuel(composite, 1);
    broadcast use lemma_later_at;
    lemma_clean_within(s, pos);
    lemma_expression_clean(s, pos);
    let left = expression(s, pos);
    if left.found is Some {
        lemma_blanks_clean(s, pos + left.taken);
        let at = pos + left.taken + blanks(s, pos + left.taken);
        if 0 <= at < s.len() && is_operator(s[at]) {
            lemma_clean_next(s, at);
            lemma_blanks_clean(s, at + 1);
            let start = at + 1 + blanks(s, at + 1);
            lemma_clean_within(s, start);
            lemma_composite_clean(s, start);
        }
    }
}

/// `composite` stays clean.
proof fn lemma_composite_clean(s: Seq<char>, pos: int)
    requires
        clean(s, pos),
    ensures
        composite(s, pos).stays_clean(s, pos),
    decreases s.len() - pos, 4nat,
{
    reveal_with_fuel(composite, 1);
    reveal_with_fuel(chained, 1);
    reveal_with_fuel(expression, 1);
    broadcast use lemma_later_at;
    lemma_chained_clean(s, pos);
    lemma_expression_clean(s, pos);
}

/// A composite with a comma after it stays clean.
proof fn lemma_listed_clean(s: Seq<char>, pos: int)
    requires
        clean(s, pos),
    ensures
        listed(s, pos).stays_clean(s, pos),
    decreases s.len() - pos, 5nat,
{
    reveal_with_fuel(listed, 1);
    reveal_with_fuel(composite, 1);
    reveal_with_fuel(selector, 1);
    broadcast use lemma_later_at;
    lemma_clean_within(s, pos);
    lemma_composite_clean(s, pos);
    let left = composite(s, pos);
    if left.found is Some {
        lemma_blanks_clean(s, pos + left.taken);
        let at = pos + left.taken + blanks(s, pos + left.taken);
        if has(s, at, ',') {
            lemma_clean_next(s, at);
            lemma_blanks_clean(s, at + 1);
            let start = at + 1 + blanks(s, at + 1);
            lemma_clean_within(s, start);
            lemma_selector_clean(s, start);
        }
    }
}

/// `selector` stays clean.
proof fn lemma_selector_clean(s: Seq<char>, pos: int)
    requires
        clean(s, pos),
    ensures
        selector(s, pos).stays_clean(s, pos),
    decreases s.len() - pos, 6nat,
{
    reveal_with_fuel(selector, 1);
    reveal_with_fuel(listed, 1);
    reveal_with_fuel(composite, 1);
    broadcast use lemma_later_at;
    lemma_listed_clean(s, pos);
    lemma_composite_clean(s, pos);
}

/// A text that is a selector is clean to its end.
pub proof fn lemma_selector_after_clean_text(s: Seq<char>)
    ensures
        parse(s) is Ok ==> clean(s, s.len() as int),
{
    lemma_clean_start(s);
    lemma_blanks_clean(s, 0);
    let start = blanks(s, 0) as int;
    lemma_selector_clean(s, start);
    if selector(s, start).found is Some {
        let end = start + selector(s, start).taken + blanks(s, start + selector(s, start).taken);
        lemma_blanks_clean(s, start + selector(s, start).taken);
        lemma_clean_within(s, end);
    }
}

/// Where a text is no selector, the position that is reported lies within
/// the text, and every character before it is one that selectors are made of.
pub proof fn lemma_error_after_clean_text(s: Seq<char>)
    ensures
        parse(s) matches Err(missing) ==> clean(s, missing.at),
{
    broadcast use lemma_later_at;

    lemma_clean_start(s);
    lemma_blanks_clean(s, 0);
    let start = blanks(s, 0) as int;
    lemma_selector_clean(s, start);
    if selector(s, start).found is Some {
        lemma_blanks_clean(s, start + selector(s, start).taken);
    }
}

} // verus!
