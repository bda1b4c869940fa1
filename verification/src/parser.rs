//! The parser: the grammar, run on a text.
//!
//! Each function here reads what the rule of the same name in
//! [`crate::grammar`] describes, at one position of the text, and builds the
//! matchers for it. Where the grammar tries the same rule twice at one
//! position, the parser tries it once and keeps the result.
use vstd::prelude::*;
use vstd::string::*;
use crate::error::{Expected, ExpectedSet};
use crate::grammar;
use crate::grammar::{later, Missing, Parsed};
use crate::matchers::{
    lemma_views, prefix_text, views, CompositeMatcher, GroupMatcher, MatcherTree, NegateMatcher,
    OrMatcher, PathMatcher, ScopeMatcher, SegmentMatcher, TrueMatcher,
};
use crate::text::Separator;
use crate::selector::{marker, Selector};

verus! {

/// Stands after the last character of the text. No rule of the grammar takes
/// this character, so no rule goes past the end.
pub const END: char = '\0';

/// A text that is being parsed.
pub struct Input<'a> {
    text: &'a str,
    chars: Vec<char>,
}

/// What was found missing, and where: what [`Missing`] is to the grammar.
#[derive(Clone, Copy)]
pub struct Gap {
    /// The furthest position at which something was missing.
    pub at: usize,
    /// What was expected there.
    pub expected: ExpectedSet,
}

impl View for Gap {
    type V = Missing;

    open spec fn view(&self) -> Missing {
        Missing { at: self.at as int, expected: self.expected }
    }
}

impl Gap {
    /// Nothing was found missing.
    pub fn nothing() -> (r: Self)
        ensures
            r@ == grammar::nothing(),
    {
        Gap { at: 0, expected: ExpectedSet::new() }
    }

    /// `what` was found missing at `at`.
    pub fn at(at: usize, what: Expected) -> (r: Self)
        ensures
            r@ == grammar::missing(at as int, what),
    {
        Gap { at, expected: ExpectedSet::of(what) }
    }

    /// What is missing furthest into the text.
    pub fn later(self, other: Self) -> (r: Self)
        ensures
            r@ == later(self@, other@),
            r.at == if self.at >= other.at {
                self.at
            } else {
                other.at
            },
    {
        reveal(later);
        if self.at > other.at {
            self
        } else if other.at > self.at {
            other
        } else {
            Gap { at: self.at, expected: self.expected.merge(other.expected) }
        }
    }
}

/// What came of trying a rule: what [`Parsed`] is to the grammar.
pub struct Attempt<T> {
    /// What was read, if the rule matched.
    pub found: Option<T>,
    /// Where the match ends.
    pub end: usize,
    /// What was found missing.
    pub missing: Gap,
}

impl<T> Attempt<T> {
    /// Whether the attempt at `pos` came out as `parsed` says, but for the
    /// value that was read.
    pub open spec fn follows<U>(self, parsed: Parsed<U>, pos: int) -> bool {
        &&& self.found is Some <==> parsed.found is Some
        &&& self.found is Some ==> self.end == pos + parsed.taken
        &&& self.missing@ == parsed.missing
    }

    /// Whether the attempt at `pos` stayed within a text of `limit`
    /// characters, and ended where it began if it did not match.
    pub open spec fn within(self, pos: int, limit: int) -> bool {
        &&& self.end <= limit
        &&& self.missing.at <= limit
        &&& self.found is None ==> self.end == pos
    }
}

impl Attempt<Box<MatcherTree>> {
    /// Whether the attempt at `pos` came out as `parsed` says.
    pub open spec fn reads(self, parsed: Parsed<Selector>, pos: int) -> bool {
        &&& self.follows(parsed, pos)
        &&& self.found is Some ==> self.found->0@ == parsed.found->0
    }
}

fn is_blank(c: char) -> (r: bool)
    ensures
        r == grammar::is_blank(c),
{
    Separator::Blank.is_separator(c)
}

fn is_segment_char(c: char) -> (r: bool)
    ensures
        r == grammar::is_segment_char(c),
{
    ('a' <= c && c <= 'z') || ('A' <= c && c <= 'Z') || ('0' <= c && c <= '9') || c == '_' || c
        == '-' || c == '+'
}

fn is_marker(c: char) -> (r: bool)
    ensures
        r == grammar::is_marker(c),
{
    c == 'L' || c == 'R' || c == 'B'
}

fn is_operator(c: char) -> (r: bool)
    ensures
        r == crate::selector::is_operator(c),
{
    c == '|' || c == '&' || c == '-'
}

impl<'a> View for Input<'a> {
    type V = Seq<char>;

    closed spec fn view(&self) -> Seq<char> {
        self.text@
    }
}

impl<'a> Input<'a> {
    /// Whether the characters are those of the text, and the end marker.
    pub closed spec fn wf(&self) -> bool {
        self.chars@ == self.text@.push(END)
    }

    /// Prepares `text` for parsing.
    pub fn new(text: &'a str) -> (r: Self)
        ensures
            r.wf(),
            r@ == text@,
    {
        let mut chars: Vec<char> = Vec::new();
        for c in it: text.chars()
            invariant
                it.seq() == text@,
                chars@ == text@.take(it.index()),
        {
            chars.push(c);
        }
        assert(text@.take(text@.len() as int) == text@);
        chars.push(END);
        Input { text, chars }
    }

    /// The number of characters of the text.
    pub fn len(&self) -> (r: usize)
        requires
            self.wf(),
        ensures
            r == self@.len(),
            r < usize::MAX,
    {
        self.chars.len() - 1
    }

    /// The character at `pos`, or the end marker where `pos` is the end.
    pub fn peek(&self, pos: usize) -> (c: char)
        requires
            self.wf(),
            pos <= self@.len(),
        ensures
            c == if pos < self@.len() {
                self@[pos as int]
            } else {
                END
            },
    {
        self.chars[pos]
    }

    /// The characters from `from` up to `to`.
    pub fn slice(&self, from: usize, to: usize) -> (r: &'a str)
        requires
            self.wf(),
            from <= to <= self@.len(),
        ensures
            r@ == self@.subrange(from as int, to as int),
    {
        self.text.substring_char(from, to)
    }

    /// `_`: goes past the blanks at `pos`.
    pub fn skip_blanks(&self, pos: usize) -> (end: usize)
        requires
            self.wf(),
            pos <= self@.len(),
        ensures
            end == pos + grammar::blanks(self@, pos as int),
            end <= self@.len(),
    {
        let limit = self.len();
        let mut end = pos;
        while is_blank(self.peek(end))
            invariant
                self.wf(),
                limit == self@.len(),
                limit < usize::MAX,
                pos <= end <= limit,
                pos + grammar::blanks(self@, pos as int) == end + grammar::blanks(
                    self@,
                    end as int,
                ),
            decreases limit - end,
        {
            end += 1;
        }
        end
    }
}

impl<'a> Input<'a> {
    /// `prefix?`: the text of a prefix at `pos`, if one is there.
    pub fn prefix(&self, pos: usize) -> (r: Attempt<Option<&'a str>>)
        requires
            self.wf(),
            pos <= self@.len(),
        ensures
            r.follows(grammar::prefix(self@, pos as int), pos as int),
            r.found is Some,
            marker(prefix_text(r.found->0)) == grammar::prefix(self@, pos as int).found->0,
            r.within(pos as int, self@.len() as int),
    {
        proof {
            reveal(grammar::prefix);
        }
        let limit = self.len();
        if is_marker(self.peek(pos)) {
            if self.peek(pos + 1) == ':' {
                Attempt {
                    found: Some(Some(self.slice(pos, pos + 2))),
                    end: pos + 2,
                    missing: Gap::nothing(),
                }
            } else {
                Attempt { found: Some(None), end: pos, missing: Gap::at(pos + 1, Expected::Colon) }
            }
        } else {
            Attempt { found: Some(None), end: pos, missing: Gap::at(pos, Expected::Marker) }
        }
    }

    /// `atom`: a segment, or `*`.
    pub fn atom(&self, pos: usize) -> (r: Attempt<Box<MatcherTree>>)
        requires
            self.wf(),
            pos <= self@.len(),
        ensures
            r.reads(grammar::atom(self@, pos as int), pos as int),
            r.within(pos as int, self@.len() as int),
    {
        proof {
            reveal(grammar::atom);
        }
        let limit = self.len();
        let first = self.peek(pos);
        if is_segment_char(first) && first != '-' {
            let mut end = pos + 1;
            while is_segment_char(self.peek(end))
                invariant
                    self.wf(),
                    limit == self@.len(),
                    limit < usize::MAX,
                    pos < end <= limit,
                    pos + grammar::segment_chars(self@, pos as int) == end
                        + grammar::segment_chars(self@, end as int),
                decreases limit - end,
            {
                end += 1;
            }
            assert(grammar::segment_chars(self@, end as int) == 0);
            assert(grammar::segment_chars(self@, pos as int) > 0);
            let segment = SegmentMatcher::new(self.slice(pos, end));
            Attempt {
                found: Some(Box::new(MatcherTree::Segment(segment))),
                end,
                missing: Gap::at(end, Expected::Segment),
            }
        } else if first == '*' {
            assert(grammar::segment_chars(self@, pos as int) == 0);
            Attempt {
                found: Some(Box::new(MatcherTree::Wildcard(TrueMatcher))),
                end: pos + 1,
                missing: Gap::at(pos, Expected::Segment),
            }
        } else if first == '-' {
            assert(grammar::segment_chars(self@, pos as int) > 0);
            Attempt { found: None, end: pos, missing: Gap::at(pos, Expected::Star) }
        } else {
            assert(grammar::segment_chars(self@, pos as int) == 0);
            let missing = Gap::at(pos, Expected::Segment).later(Gap::at(pos, Expected::Star));
            Attempt { found: None, end: pos, missing }
        }
    }

    /// `scope`: atoms with dots between them.
    pub fn scope(&self, pos: usize) -> (r: Attempt<Box<MatcherTree>>)
        requires
            self.wf(),
            pos <= self@.len(),
        ensures
            r.reads(grammar::scope(self@, pos as int), pos as int),
            r.within(pos as int, self@.len() as int),
    {
        proof {
            reveal(grammar::scope);
            reveal_with_fuel(grammar::more_atoms, 1);
        }
        let limit = self.len();
        let first = self.atom(pos);
        let ghost head = grammar::atom(self@, pos as int);
        let ghost tail = grammar::more_atoms(self@, first.end as int);
        let mut end = first.end;
        let mut missing = first.missing;
        let mut atoms: Vec<Box<MatcherTree>> = Vec::new();
        match first.found {
            None => {
                return Attempt { found: None, end: pos, missing };
            },
            Some(atom) => {
                atoms.push(atom);
            },
        }
        proof {
            lemma_views(atoms@);
            grammar::lemma_more_atoms_within(self@, end as int);
            assert(views(atoms@) + tail.found->0 == seq![head.found->0] + tail.found->0);
        }
        loop
            invariant_except_break
                grammar::more_atoms(self@, end as int).found is Some,
                views(atoms@) + grammar::more_atoms(self@, end as int).found->0
                    == seq![head.found->0] + tail.found->0,
                end + grammar::more_atoms(self@, end as int).taken == first.end + tail.taken,
                later(missing@, grammar::more_atoms(self@, end as int).missing) == later(
                    head.missing,
                    tail.missing,
                ),
            invariant
                self.wf(),
                end <= self@.len() < usize::MAX,
                missing.at <= self@.len(),
                tail == grammar::more_atoms(self@, first.end as int),
            ensures
                views(atoms@) == seq![head.found->0] + tail.found->0,
                end == first.end + tail.taken,
                missing@ == later(head.missing, tail.missing),
            decreases self@.len() - end,
        {
            proof {
                reveal_with_fuel(grammar::more_atoms, 1);
            }
            if self.peek(end) != '.' {
                missing = missing.later(Gap::at(end, Expected::Dot));
                assert(views(atoms@) + Seq::<Selector>::empty() == views(atoms@));
                break ;
            }
            let next = self.atom(end + 1);
            let ghost before = missing@;
            missing = missing.later(next.missing);
            match next.found {
                None => {
                    assert(views(atoms@) + Seq::<Selector>::empty() == views(atoms@));
                    break ;
                },
                Some(atom) => {
                    proof {
                        let rest = grammar::more_atoms(self@, next.end as int);
                        grammar::lemma_more_atoms_within(self@, next.end as int);
                        grammar::lemma_later_in_any_order(before, next.missing@, rest.missing);
                        lemma_views(atoms@);
                        lemma_views(atoms@.push(atom));
                        assert(views(atoms@.push(atom)) == views(atoms@).push(atom@));
                        assert(views(atoms@) + (seq![atom@] + rest.found->0) == views(
                            atoms@,
                        ).push(atom@) + rest.found->0);
                    }
                    atoms.push(atom);
                    end = next.end;
                },
            }
        }
        let scope = ScopeMatcher::new(atoms);
        Attempt { found: Some(Box::new(MatcherTree::Scope(scope))), end, missing }
    }
}

impl<'a> Input<'a> {
    /// `path`: scopes with blanks between them, after an optional prefix.
    pub fn path(&self, pos: usize) -> (r: Attempt<Box<MatcherTree>>)
        requires
            self.wf(),
            pos <= self@.len(),
        ensures
            r.reads(grammar::path(self@, pos as int), pos as int),
            r.within(pos as int, self@.len() as int),
    {
        proof {
            reveal(grammar::path);
            reveal_with_fuel(grammar::more_scopes, 1);
        }
        let mark = self.prefix(pos);
        let first = self.scope(mark.end);
        let ghost head = grammar::scope(self@, mark.end as int);
        let ghost tail = grammar::more_scopes(self@, first.end as int);
        let mut end = first.end;
        let mut missing = mark.missing.later(first.missing);
        let mut scopes: Vec<Box<MatcherTree>> = Vec::new();
        match first.found {
            None => {
                return Attempt { found: None, end: pos, missing };
            },
            Some(scope) => {
                scopes.push(scope);
            },
        }
        proof {
            lemma_views(scopes@);
            grammar::lemma_later_in_any_order(mark.missing@, head.missing, tail.missing);
            grammar::lemma_more_scopes_within(self@, end as int);
            assert(views(scopes@) + tail.found->0 == seq![head.found->0] + tail.found->0);
        }
        loop
            invariant_except_break
                grammar::more_scopes(self@, end as int).found is Some,
                views(scopes@) + grammar::more_scopes(self@, end as int).found->0
                    == seq![head.found->0] + tail.found->0,
                end + grammar::more_scopes(self@, end as int).taken == first.end + tail.taken,
                later(missing@, grammar::more_scopes(self@, end as int).missing) == later(
                    mark.missing@,
                    later(head.missing, tail.missing),
                ),
            invariant
                self.wf(),
                end <= self@.len(),
                missing.at <= self@.len(),
                tail == grammar::more_scopes(self@, first.end as int),
            ensures
                views(scopes@) == seq![head.found->0] + tail.found->0,
                end == first.end + tail.taken,
                missing@ == later(mark.missing@, later(head.missing, tail.missing)),
            decreases self@.len() - end,
        {
            proof {
                reveal_with_fuel(grammar::more_scopes, 1);
                grammar::lemma_later_nothing(missing@);
            }
            if !is_blank(self.peek(end)) {
                assert(grammar::blanks(self@, end as int) == 0);
                assert(views(scopes@) + Seq::<Selector>::empty() == views(scopes@));
                break ;
            }
            assert(grammar::blanks(self@, end as int) > 0);
            let next = self.scope(self.skip_blanks(end));
            let ghost before = missing@;
            missing = missing.later(next.missing);
            match next.found {
                None => {
                    assert(views(scopes@) + Seq::<Selector>::empty() == views(scopes@));
                    break ;
                },
                Some(scope) => {
                    proof {
                        let rest = grammar::more_scopes(self@, next.end as int);
                        grammar::lemma_more_scopes_within(self@, next.end as int);
                        grammar::lemma_later_in_any_order(before, next.missing@, rest.missing);
                        lemma_views(scopes@);
                        lemma_views(scopes@.push(scope));
                        assert(views(scopes@.push(scope)) == views(scopes@).push(scope@));
                        assert(views(scopes@) + (seq![scope@] + rest.found->0) == views(
                            scopes@,
                        ).push(scope@) + rest.found->0);
                    }
                    scopes.push(scope);
                    end = next.end;
                },
            }
        }
        let path = PathMatcher::new(mark.found.unwrap(), scopes);
        Attempt { found: Some(Box::new(MatcherTree::Path(path))), end, missing }
    }
}

impl<'a> Input<'a> {
    /// `group`: a selector in parentheses, after an optional prefix.
    pub fn group(&self, pos: usize) -> (r: Attempt<Box<MatcherTree>>)
        requires
            self.wf(),
            pos <= self@.len(),
        ensures
            r.reads(grammar::group(self@, pos as int), pos as int),
            r.within(pos as int, self@.len() as int),
        decreases self@.len() - pos, 0nat,
    {
        proof {
            reveal_with_fuel(grammar::group, 1);
            reveal_with_fuel(grammar::selector, 1);
        }
        let limit = self.len();
        let mark = self.prefix(pos);
        if self.peek(mark.end) != '(' {
            return Attempt {
                found: None,
                end: pos,
                missing: mark.missing.later(Gap::at(mark.end, Expected::Open)),
            };
        }
        let inner = self.selector(self.skip_blanks(mark.end + 1));
        let missing = mark.missing.later(inner.missing);
        match inner.found {
            None => Attempt { found: None, end: pos, missing },
            Some(selector) => {
                let close = self.skip_blanks(inner.end);
                if self.peek(close) == ')' {
                    let group = GroupMatcher::new(mark.found.unwrap(), selector);
                    Attempt {
                        found: Some(Box::new(MatcherTree::Group(group))),
                        end: close + 1,
                        missing,
                    }
                } else {
                    Attempt {
                        found: None,
                        end: pos,
                        missing: missing.later(Gap::at(close, Expected::Close)),
                    }
                }
            },
        }
    }

    /// `"-" _ group _`: a group that is negated.
    pub fn negated_group(&self, pos: usize) -> (r: Attempt<Box<MatcherTree>>)
        requires
            self.wf(),
            pos <= self@.len(),
        ensures
            r.reads(grammar::negated_group(self@, pos as int), pos as int),
            r.within(pos as int, self@.len() as int),
        decreases self@.len() - pos, 1nat,
    {
        proof {
            reveal_with_fuel(grammar::negated_group, 1);
            reveal_with_fuel(grammar::group, 1);
        }
        let limit = self.len();
        if self.peek(pos) != '-' {
            return Attempt { found: None, end: pos, missing: Gap::at(pos, Expected::Dash) };
        }
        let group = self.group(self.skip_blanks(pos + 1));
        match group.found {
            None => Attempt { found: None, end: pos, missing: group.missing },
            Some(inner) => {
                let negated = NegateMatcher::new(inner);
                Attempt {
                    found: Some(Box::new(MatcherTree::Negate(negated))),
                    end: self.skip_blanks(group.end),
                    missing: group.missing,
                }
            },
        }
    }

    /// `"-" _ path _`: a path that is negated.
    pub fn negated_path(&self, pos: usize) -> (r: Attempt<Box<MatcherTree>>)
        requires
            self.wf(),
            pos <= self@.len(),
        ensures
            r.reads(grammar::negated_path(self@, pos as int), pos as int),
            r.within(pos as int, self@.len() as int),
    {
        proof {
            reveal(grammar::negated_path);
        }
        let limit = self.len();
        if self.peek(pos) != '-' {
            return Attempt { found: None, end: pos, missing: Gap::at(pos, Expected::Dash) };
        }
        let path = self.path(self.skip_blanks(pos + 1));
        match path.found {
            None => Attempt { found: None, end: pos, missing: path.missing },
            Some(inner) => {
                let negated = NegateMatcher::new(inner);
                Attempt {
                    found: Some(Box::new(MatcherTree::Negate(negated))),
                    end: self.skip_blanks(path.end),
                    missing: path.missing,
                }
            },
        }
    }

    /// `expression`: a group or a path, negated or not.
    pub fn expression(&self, pos: usize) -> (r: Attempt<Box<MatcherTree>>)
        requires
            self.wf(),
            pos <= self@.len(),
        ensures
            r.reads(grammar::expression(self@, pos as int), pos as int),
            r.within(pos as int, self@.len() as int),
        decreases self@.len() - pos, 2nat,
    {
        proof {
            reveal_with_fuel(grammar::expression, 1);
            reveal_with_fuel(grammar::negated_group, 1);
            reveal_with_fuel(grammar::group, 1);
        }
        let first = self.negated_group(pos);
        if first.found.is_some() {
            return first;
        }
        let second = self.negated_path(pos);
        let missing = first.missing.later(second.missing);
        if second.found.is_some() {
            return Attempt { found: second.found, end: second.end, missing };
        }
        let third = self.group(pos);
        let missing = missing.later(third.missing);
        if third.found.is_some() {
            return Attempt { found: third.found, end: third.end, missing };
        }
        let fourth = self.path(pos);
        Attempt { found: fourth.found, end: fourth.end, missing: missing.later(fourth.missing) }
    }

    /// `composite`: expressions with operators between them, or one
    /// expression.
    pub fn composite(&self, pos: usize) -> (r: Attempt<Box<MatcherTree>>)
        requires
            self.wf(),
            pos <= self@.len(),
        ensures
            r.reads(grammar::composite(self@, pos as int), pos as int),
            r.within(pos as int, self@.len() as int),
        decreases self@.len() - pos, 4nat,
    {
        proof {
            reveal_with_fuel(grammar::composite, 1);
            reveal_with_fuel(grammar::chained, 1);
            reveal_with_fuel(grammar::expression, 1);
        }
        let limit = self.len();
        let left = self.expression(pos);
        match left.found {
            None => {
                proof {
                    grammar::lemma_later_again(left.missing@, left.missing@);
                }
                Attempt { found: None, end: pos, missing: left.missing }
            },
            Some(first) => {
                let at = self.skip_blanks(left.end);
                let operator = self.peek(at);
                proof {
                    grammar::lemma_later_again(left.missing@, left.missing@);
                    grammar::lemma_later_again(
                        left.missing@,
                        grammar::missing(at as int, Expected::Operator),
                    );
                }
                if !is_operator(operator) {
                    return Attempt {
                        found: Some(first),
                        end: left.end,
                        missing: left.missing.later(Gap::at(at, Expected::Operator)),
                    };
                }
                let right = self.composite(self.skip_blanks(at + 1));
                let missing = left.missing.later(right.missing);
                proof {
                    grammar::lemma_later_again(left.missing@, right.missing@);
                }
                match right.found {
                    None => Attempt { found: Some(first), end: left.end, missing },
                    Some(second) => {
                        let joined = CompositeMatcher::new(first, operator, second);
                        Attempt {
                            found: Some(Box::new(MatcherTree::Composite(joined))),
                            end: right.end,
                            missing,
                        }
                    },
                }
            },
        }
    }

    /// `selector`: composites with commas between them, or one composite.
    pub fn selector(&self, pos: usize) -> (r: Attempt<Box<MatcherTree>>)
        requires
            self.wf(),
            pos <= self@.len(),
        ensures
            r.reads(grammar::selector(self@, pos as int), pos as int),
            r.within(pos as int, self@.len() as int),
        decreases self@.len() - pos, 6nat,
    {
        proof {
            reveal_with_fuel(grammar::selector, 1);
            reveal_with_fuel(grammar::listed, 1);
            reveal_with_fuel(grammar::composite, 1);
        }
        let limit = self.len();
        let left = self.composite(pos);
        match left.found {
            None => {
                proof {
                    grammar::lemma_later_again(left.missing@, left.missing@);
                }
                Attempt { found: None, end: pos, missing: left.missing }
            },
            Some(first) => {
                let at = self.skip_blanks(left.end);
                proof {
                    grammar::lemma_later_again(
                        left.missing@,
                        grammar::missing(at as int, Expected::Comma),
                    );
                }
                if self.peek(at) != ',' {
                    return Attempt {
                        found: Some(first),
                        end: left.end,
                        missing: left.missing.later(Gap::at(at, Expected::Comma)),
                    };
                }
                let start = self.skip_blanks(at + 1);
                let right = self.selector(start);
                let missing = left.missing.later(right.missing);
                match right.found {
                    None => Attempt { found: Some(first), end: start, missing },
                    Some(second) => {
                        let either = OrMatcher::new(first, second);
                        Attempt {
                            found: Some(Box::new(MatcherTree::Or(either))),
                            end: right.end,
                            missing,
                        }
                    },
                }
            },
        }
    }
}

} // verus!
