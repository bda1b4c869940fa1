//! Where a text stops being a selector.
use vstd::prelude::*;
use crate::grammar::{clean, is_selector_char};

verus! {

/// A position in a text.
#[derive(Clone, Copy, PartialEq, Eq, Structural, Debug)]
pub struct LineCol {
    /// The line, counted from 1.
    pub line: usize,
    /// The column, counted from 1.
    pub column: usize,
    /// The number of characters before the position.
    pub offset: usize,
}

/// Something that the parser can find missing.
#[derive(Clone, Copy, PartialEq, Eq, Structural, Debug)]
pub enum Expected {
    /// `-`, which negates.
    Dash,
    /// `(`
    Open,
    /// `)`
    Close,
    /// `,`
    Comma,
    /// `.`
    Dot,
    /// `*`
    Star,
    /// `:`, after a marker.
    Colon,
    /// `L`, `R` or `B`.
    Marker,
    /// A character of a segment.
    Segment,
    /// `|`, `&` or `-`, between two expressions.
    Operator,
    /// The end of the text.
    End,
}

/// Some of the things that the parser can find missing.
#[derive(Clone, Copy, PartialEq, Eq, Structural, Debug)]
pub struct ExpectedSet {
    /// Whether the set holds [`Expected::Dash`].
    pub dash: bool,
    /// Whether the set holds [`Expected::Open`].
    pub open: bool,
    /// Whether the set holds [`Expected::Close`].
    pub close: bool,
    /// Whether the set holds [`Expected::Comma`].
    pub comma: bool,
    /// Whether the set holds [`Expected::Dot`].
    pub dot: bool,
    /// Whether the set holds [`Expected::Star`].
    pub star: bool,
    /// Whether the set holds [`Expected::Colon`].
    pub colon: bool,
    /// Whether the set holds [`Expected::Marker`].
    pub marker: bool,
    /// Whether the set holds [`Expected::Segment`].
    pub segment: bool,
    /// Whether the set holds [`Expected::Operator`].
    pub operator: bool,
    /// Whether the set holds [`Expected::End`].
    pub end: bool,
}

impl ExpectedSet {
    /// Whether `what` is in the set.
    pub open spec fn has(self, what: Expected) -> bool {
        match what {
            Expected::Dash => self.dash,
            Expected::Open => self.open,
            Expected::Close => self.close,
            Expected::Comma => self.comma,
            Expected::Dot => self.dot,
            Expected::Star => self.star,
            Expected::Colon => self.colon,
            Expected::Marker => self.marker,
            Expected::Segment => self.segment,
            Expected::Operator => self.operator,
            Expected::End => self.end,
        }
    }

    /// The set that holds nothing.
    pub open spec fn empty() -> Self {
        ExpectedSet {
            dash: false,
            open: false,
            close: false,
            comma: false,
            dot: false,
            star: false,
            colon: false,
            marker: false,
            segment: false,
            operator: false,
            end: false,
        }
    }

    /// The set that holds `what` and nothing else.
    #[verifier::opaque]
    pub open spec fn only(what: Expected) -> Self {
        ExpectedSet {
            dash: what is Dash,
            open: what is Open,
            close: what is Close,
            comma: what is Comma,
            dot: what is Dot,
            star: what is Star,
            colon: what is Colon,
            marker: what is Marker,
            segment: what is Segment,
            operator: what is Operator,
            end: what is End,
        }
    }

    /// The set that holds what either set holds.
    #[verifier::opaque]
    pub open spec fn union(self, other: Self) -> Self {
        ExpectedSet {
            dash: self.dash || other.dash,
            open: self.open || other.open,
            close: self.close || other.close,
            comma: self.comma || other.comma,
            dot: self.dot || other.dot,
            star: self.star || other.star,
            colon: self.colon || other.colon,
            marker: self.marker || other.marker,
            segment: self.segment || other.segment,
            operator: self.operator || other.operator,
            end: self.end || other.end,
        }
    }

    /// A union holds what its sets hold, whatever the order in which they
    /// are joined and however often.
    pub proof fn lemma_union(a: Self, b: Self, c: Self)
        ensures
            a.union(b).union(c) == a.union(b.union(c)),
            a.union(b) == b.union(a),
            a.union(a) == a,
            a.union(b).union(a) == a.union(b),
            a.union(b).union(b) == a.union(b),
            Self::empty().union(a) == a,
            forall|what: Expected| #[trigger] a.union(b).has(what) == (a.has(what) || b.has(what)),
    {
        reveal(ExpectedSet::union);
    }

    /// The set that holds nothing.
    pub fn new() -> (r: Self)
        ensures
            r == Self::empty(),
    {
        ExpectedSet {
            dash: false,
            open: false,
            close: false,
            comma: false,
            dot: false,
            star: false,
            colon: false,
            marker: false,
            segment: false,
            operator: false,
            end: false,
        }
    }

    /// The set that holds `what` and nothing else.
    pub fn of(what: Expected) -> (r: Self)
        ensures
            r == Self::only(what),
    {
        reveal(ExpectedSet::only);
        let mut set = Self::new();
        match what {
            Expected::Dash => set.dash = true,
            Expected::Open => set.open = true,
            Expected::Close => set.close = true,
            Expected::Comma => set.comma = true,
            Expected::Dot => set.dot = true,
            Expected::Star => set.star = true,
            Expected::Colon => set.colon = true,
            Expected::Marker => set.marker = true,
            Expected::Segment => set.segment = true,
            Expected::Operator => set.operator = true,
            Expected::End => set.end = true,
        }
        set
    }

    /// The set that holds what either set holds.
    pub fn merge(self, other: Self) -> (r: Self)
        ensures
            r == self.union(other),
    {
        reveal(ExpectedSet::union);
        ExpectedSet {
            dash: self.dash || other.dash,
            open: self.open || other.open,
            close: self.close || other.close,
            comma: self.comma || other.comma,
            dot: self.dot || other.dot,
            star: self.star || other.star,
            colon: self.colon || other.colon,
            marker: self.marker || other.marker,
            segment: self.segment || other.segment,
            operator: self.operator || other.operator,
            end: self.end || other.end,
        }
    }

    /// Whether `what` is in the set.
    pub fn contains(&self, what: Expected) -> (r: bool)
        ensures
            r == self.has(what),
    {
        match what {
            Expected::Dash => self.dash,
            Expected::Open => self.open,
            Expected::Close => self.close,
            Expected::Comma => self.comma,
            Expected::Dot => self.dot,
            Expected::Star => self.star,
            Expected::Colon => self.colon,
            Expected::Marker => self.marker,
            Expected::Segment => self.segment,
            Expected::Operator => self.operator,
            Expected::End => self.end,
        }
    }
}

/// The text is not a selector.
#[derive(Clone, Copy, PartialEq, Eq, Structural, Debug)]
pub struct ParseError {
    /// The furthest position at which the parser found something missing.
    pub location: LineCol,
    /// What the parser could have gone on with at that position.
    pub expected: ExpectedSet,
}

/// The number of line breaks among the first `upto` characters of `s`.
pub open spec fn line_breaks(s: Seq<char>, upto: int) -> nat
    decreases upto,
{
    if upto <= 0 {
        0
    } else if s[upto - 1] == '\n' {
        1 + line_breaks(s, upto - 1)
    } else {
        line_breaks(s, upto - 1)
    }
}

/// The number of characters between the last line break among the first
/// `upto` characters of `s`, or the beginning of `s`, and position `upto`.
pub open spec fn since_line_break(s: Seq<char>, upto: int) -> nat
    decreases upto,
{
    if upto <= 0 || s[upto - 1] == '\n' {
        0
    } else {
        1 + since_line_break(s, upto - 1)
    }
}

impl LineCol {
    /// Whether this is the position `offset` of the text `s`.
    pub open spec fn locates(self, s: Seq<char>, offset: int) -> bool {
        &&& self.offset == offset
        &&& self.line == 1 + line_breaks(s, offset)
        &&& self.column == 1 + since_line_break(s, offset)
    }
}

/// No rule of the grammar takes a line break, so a text that is clean up to
/// some position is on its first line there.
pub proof fn lemma_clean_is_one_line(s: Seq<char>, upto: int)
    requires
        clean(s, upto),
    ensures
        line_breaks(s, upto) == 0,
        since_line_break(s, upto) == upto,
    decreases upto,
{
    reveal(clean);
    if upto > 0 {
        assert(is_selector_char(s[upto - 1]));
        lemma_clean_is_one_line(s, upto - 1);
    }
}

/// Selectors are made of characters that take one byte each, so a clean
/// position counts the bytes before it as well as the characters.
pub proof fn lemma_clean_is_one_byte_each(s: Seq<char>, upto: int)
    requires
        clean(s, upto),
    ensures
        vstd::utf8::encode_utf8(s.take(upto)).len() == upto,
{
    reveal(clean);
    let before = s.take(upto);
    assert forall|i: int| 0 <= i < before.len() implies '\0' <= #[trigger] before[i]
        <= '\u{7f}' by {
        assert(is_selector_char(s[i]));
    }
    vstd::utf8::is_ascii_chars_encode_utf8(before);
}

} // verus!
