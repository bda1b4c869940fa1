//! The matchers that a parsed selector is made of.
//!
//! Each kind of node is a type of its own, and [`MatcherTree`] is any one of
//! them. All of them answer the two questions of [`Matcher`], and each has
//! the [`Selector`] that it stands for as its view.
use vstd::prelude::*;
use crate::selector::{
    combine, lemma_occur_is_placement, lemma_places_last, lemma_places_more_tokens,
    lemma_places_push, marker, places, Selector,
};
use crate::text::{first_char, same_text, segments, tokens, Separator};

verus! {

/// What every node of a selector can be asked.
pub trait Matcher: View<V = Selector> {
    /// Whether the node matches `scope`.
    fn matches(&self, scope: &str) -> (r: bool)
        ensures
            r == self@.matches(scope@),
    ;

    /// The marker that the node yields on `scopes`, if any.
    fn get_prefix(&self, scopes: &str) -> (r: Option<char>)
        ensures
            r == self@.prefix(scopes@),
    ;
}

/// Matches one segment, literally.
pub struct SegmentMatcher {
    segment: String,
}

/// Matches any segment.
pub struct TrueMatcher;

/// Matches a token by its leading segments.
pub struct ScopeMatcher {
    segments: Vec<Box<MatcherTree>>,
}

/// Matches what the selector in its parentheses matches.
pub struct GroupMatcher {
    prefix: Option<char>,
    selector: Box<MatcherTree>,
}

/// Matches a path in which its patterns occur in order.
pub struct PathMatcher {
    prefix: Option<char>,
    matchers: Vec<Box<MatcherTree>>,
}

/// Matches where either side does.
pub struct OrMatcher {
    left: Box<MatcherTree>,
    right: Box<MatcherTree>,
}

/// Matches where both sides do.
pub struct AndMatcher {
    left: Box<MatcherTree>,
    right: Box<MatcherTree>,
}

/// Matches where its matcher does not.
pub struct NegateMatcher {
    matcher: Box<MatcherTree>,
}

/// Two selectors joined by `|`, `&` or `-`.
pub struct CompositeMatcher {
    matcher: Box<MatcherTree>,
}

/// A node of a selector, of any kind.
pub enum MatcherTree {
    /// A literal segment.
    Segment(SegmentMatcher),
    /// `*`
    Wildcard(TrueMatcher),
    /// A dotted pattern for one token.
    Scope(ScopeMatcher),
    /// A selector in parentheses.
    Group(GroupMatcher),
    /// Patterns for the tokens of a path.
    Path(PathMatcher),
    /// A disjunction.
    Or(OrMatcher),
    /// A conjunction.
    And(AndMatcher),
    /// A negation.
    Negate(NegateMatcher),
    /// Two selectors and the operator between them.
    Composite(CompositeMatcher),
}

/// The selectors that a list of nodes stands for, in the order of the list.
pub open spec fn views(nodes: Seq<Box<MatcherTree>>) -> Seq<Selector>
    decreases nodes,
{
    if nodes.len() == 0 {
        Seq::empty()
    } else {
        views(nodes.drop_last()).push((*nodes.last())@)
    }
}

/// `views` goes through the list node by node.
pub proof fn lemma_views(nodes: Seq<Box<MatcherTree>>)
    ensures
        views(nodes).len() == nodes.len(),
        forall|i: int| 0 <= i < nodes.len() ==> #[trigger] views(nodes)[i] == nodes[i]@,
    decreases nodes.len(),
{
    reveal_with_fuel(views, 2);
    if nodes.len() > 0 {
        lemma_views(nodes.drop_last());
        assert(views(nodes) == views(nodes.drop_last()).push((*nodes.last())@));
    } else {
        assert(views(nodes) == Seq::<Selector>::empty());
    }
}

impl View for SegmentMatcher {
    type V = Selector;

    closed spec fn view(&self) -> Selector {
        Selector::Segment(self.segment@)
    }
}

impl View for TrueMatcher {
    type V = Selector;

    open spec fn view(&self) -> Selector {
        Selector::Wildcard
    }
}

impl View for ScopeMatcher {
    type V = Selector;

    closed spec fn view(&self) -> Selector
        decreases self,
    {
        Selector::Scope(views(self.segments@))
    }
}

impl View for GroupMatcher {
    type V = Selector;

    closed spec fn view(&self) -> Selector
        decreases self,
    {
        Selector::Group(self.prefix, Box::new((*self.selector)@))
    }
}

impl View for PathMatcher {
    type V = Selector;

    closed spec fn view(&self) -> Selector
        decreases self,
    {
        Selector::Path(self.prefix, views(self.matchers@))
    }
}

impl View for OrMatcher {
    type V = Selector;

    closed spec fn view(&self) -> Selector
        decreases self,
    {
        Selector::Or(Box::new((*self.left)@), Box::new((*self.right)@))
    }
}

impl View for AndMatcher {
    type V = Selector;

    closed spec fn view(&self) -> Selector
        decreases self,
    {
        Selector::And(Box::new((*self.left)@), Box::new((*self.right)@))
    }
}

impl View for NegateMatcher {
    type V = Selector;

    closed spec fn view(&self) -> Selector
        decreases self,
    {
        Selector::Negate(Box::new((*self.matcher)@))
    }
}

impl View for CompositeMatcher {
    type V = Selector;

    closed spec fn view(&self) -> Selector
        decreases self,
    {
        Selector::Composite(Box::new((*self.matcher)@))
    }
}

impl View for MatcherTree {
    type V = Selector;

    open spec fn view(&self) -> Selector
        decreases self,
    {
        match self {
            MatcherTree::Segment(m) => m@,
            MatcherTree::Wildcard(m) => m@,
            MatcherTree::Scope(m) => m@,
            MatcherTree::Group(m) => m@,
            MatcherTree::Path(m) => m@,
            MatcherTree::Or(m) => m@,
            MatcherTree::And(m) => m@,
            MatcherTree::Negate(m) => m@,
            MatcherTree::Composite(m) => m@,
        }
    }
}

/// The text of an optional prefix, as the model has it.
pub open spec fn prefix_text(prefix: Option<&str>) -> Option<Seq<char>> {
    match prefix {
        Some(text) => Some(text@),
        None => None,
    }
}

/// The marker that an optional prefix names.
fn marker_of(prefix: Option<&str>) -> (r: Option<char>)
    ensures
        r == marker(prefix_text(prefix)),
{
    match prefix {
        Some(text) => first_char(text),
        None => None,
    }
}

impl SegmentMatcher {
    /// A matcher for the one segment `segment`.
    pub fn new(segment: &str) -> (r: Self)
        ensures
            r@ == Selector::Segment(segment@),
    {
        Self { segment: segment.to_owned() }
    }
}

impl ScopeMatcher {
    /// A matcher for the tokens whose leading segments match `segments` one
    /// by one.
    pub fn new(segments: Vec<Box<MatcherTree>>) -> (r: Self)
        ensures
            r@ == Selector::Scope(views(segments@)),
    {
        Self { segments }
    }
}

impl GroupMatcher {
    /// A matcher for what `selector` matches, with the marker that `prefix`
    /// begins with.
    pub fn new(prefix: Option<&str>, selector: Box<MatcherTree>) -> (r: Self)
        ensures
            r@ == Selector::Group(marker(prefix_text(prefix)), Box::new(selector@)),
    {
        Self { prefix: marker_of(prefix), selector }
    }
}

impl PathMatcher {
    /// A matcher for the paths in which `matchers` find tokens to match, in
    /// their order, with the marker that `prefix` begins with.
    pub fn new(prefix: Option<&str>, matchers: Vec<Box<MatcherTree>>) -> (r: Self)
        ensures
            r@ == Selector::Path(marker(prefix_text(prefix)), views(matchers@)),
    {
        Self { prefix: marker_of(prefix), matchers }
    }
}

impl OrMatcher {
    /// A matcher for what `left` or `right` matches.
    pub fn new(left: Box<MatcherTree>, right: Box<MatcherTree>) -> (r: Self)
        ensures
            r@ == Selector::Or(Box::new(left@), Box::new(right@)),
    {
        Self { left, right }
    }
}

impl AndMatcher {
    /// A matcher for what both `left` and `right` match.
    pub fn new(left: Box<MatcherTree>, right: Box<MatcherTree>) -> (r: Self)
        ensures
            r@ == Selector::And(Box::new(left@), Box::new(right@)),
    {
        Self { left, right }
    }
}

impl NegateMatcher {
    /// A matcher for what `matcher` does not match.
    pub fn new(matcher: Box<MatcherTree>) -> (r: Self)
        ensures
            r@ == Selector::Negate(Box::new(matcher@)),
    {
        Self { matcher }
    }
}

impl CompositeMatcher {
    /// A matcher for `left` and `right` joined by `operator`, which is `|`,
    /// `&` or `-`.
    pub fn new(left: Box<MatcherTree>, operator: char, right: Box<MatcherTree>) -> (r: Self)
        requires
            crate::selector::is_operator(operator),
        ensures
            r@ == Selector::Composite(Box::new(combine(left@, operator, right@))),
    {
        let matcher = if operator == '|' {
            MatcherTree::Or(OrMatcher::new(left, right))
        } else if operator == '&' {
            MatcherTree::And(AndMatcher::new(left, right))
        } else {
            let negated = Box::new(MatcherTree::Negate(NegateMatcher::new(right)));
            MatcherTree::And(AndMatcher::new(left, negated))
        };
        Self { matcher: Box::new(matcher) }
    }
}

impl Matcher for SegmentMatcher {
    fn matches(&self, scope: &str) -> (r: bool) {
        same_text(scope, self.segment.as_str())
    }

    fn get_prefix(&self, scopes: &str) -> (r: Option<char>) {
        None
    }
}

impl Matcher for TrueMatcher {
    fn matches(&self, scope: &str) -> (r: bool) {
        true
    }

    fn get_prefix(&self, scopes: &str) -> (r: Option<char>) {
        None
    }
}

impl Matcher for ScopeMatcher {
    fn matches(&self, scope: &str) -> (r: bool)
        decreases self,
    {
        let scope_segments = Separator::Dot.split(scope);
        let ghost atoms = views(self.segments@);
        let ghost parts = segments(scope@);
        proof {
            lemma_views(self.segments@);
        }
        if scope_segments.len() < self.segments.len() {
            return false;
        }
        let mut i: usize = 0;
        while i < self.segments.len()
            invariant
                i <= self.segments.len() <= scope_segments.len(),
                atoms == views(self.segments@),
                atoms.len() == self.segments@.len(),
                forall|k: int|
                    0 <= k < self.segments@.len() ==> #[trigger] atoms[k] == self.segments@[k]@,
                parts == segments(scope@),
                parts.len() == scope_segments@.len(),
                forall|k: int|
                    0 <= k < scope_segments@.len() ==> (#[trigger] scope_segments@[k])@
                        == parts[k],
                forall|k: int| 0 <= k < i ==> (#[trigger] atoms[k]).matches(parts[k]),
            decreases self.segments.len() - i,
        {
            if !self.segments[i].matches(scope_segments[i]) {
                assert(!atoms[i as int].matches(parts[i as int]));
                return false;
            }
            i += 1;
        }
        true
    }

    fn get_prefix(&self, scopes: &str) -> (r: Option<char>) {
        None
    }
}

impl Matcher for GroupMatcher {
    fn matches(&self, scopes: &str) -> (r: bool)
        decreases self,
    {
        self.selector.matches(scopes)
    }

    fn get_prefix(&self, scopes: &str) -> (r: Option<char>)
        decreases self,
    {
        if self.matches(scopes) {
            self.prefix
        } else {
            None
        }
    }
}

impl Matcher for PathMatcher {
    fn matches(&self, scopes: &str) -> (r: bool)
        decreases self,
    {
        let scope_tokens = Separator::Blank.split(scopes);
        let ghost patterns = views(self.matchers@);
        let ghost path = tokens(scopes@);
        proof {
            lemma_views(self.matchers@);
        }
        if self.matchers.len() == 0 {
            return false;
        }
        let ghost mut at: Seq<int> = Seq::empty();
        proof {
            assert forall|m: int, other: Seq<int>|
                0 <= m <= patterns.len() && #[trigger] places(
                    patterns.take(m),
                    path.take(0),
                    other,
                ) implies m <= 0 by {
                if m > 0 {
                    assert(0 <= other[0] < path.take(0).len());
                }
            }
        }
        let mut index: usize = 0;
        let mut t: usize = 0;
        while t < scope_tokens.len()
            invariant
                patterns == views(self.matchers@),
                patterns.len() == self.matchers@.len(),
                forall|k: int|
                    0 <= k < self.matchers@.len() ==> #[trigger] patterns[k] == self.matchers@[k]@,
                path == tokens(scopes@),
                path.len() == scope_tokens@.len(),
                forall|k: int|
                    0 <= k < scope_tokens@.len() ==> (#[trigger] scope_tokens@[k])@ == path[k],
                index < self.matchers.len(),
                t <= scope_tokens.len(),
                places(patterns.take(index as int), path.take(t as int), at),
                forall|m: int, other: Seq<int>|
                    0 <= m <= patterns.len() && #[trigger] places(
                        patterns.take(m),
                        path.take(t as int),
                        other,
                    ) ==> m <= index,
            decreases scope_tokens.len() - t,
        {
            let hit = self.matchers[index].matches(scope_tokens[t]);
            assert(hit == patterns[index as int].matches(path[t as int]));
            proof {
                assert forall|m: int, other: Seq<int>|
                    0 <= m <= patterns.len() && #[trigger] places(
                        patterns.take(m),
                        path.take(t + 1),
                        other,
                    ) implies m <= index + if hit {
                    1int
                } else {
                    0int
                } by {
                    lemma_places_last(patterns, path, other, m, t as int);
                    if m > 0 && other[m - 1] >= t {
                        assert(places(patterns.take(m - 1), path.take(t as int), other.drop_last()));
                    } else {
                        assert(places(patterns.take(m), path.take(t as int), other));
                    }
                }
                if hit {
                    lemma_places_push(patterns, path, at, index as int, t as int);
                    at = at.push(t as int);
                } else {
                    lemma_places_more_tokens(patterns.take(index as int), path, at, t as int, t + 1);
                }
            }
            if hit {
                index += 1;
                if index >= self.matchers.len() {
                    proof {
                        lemma_places_more_tokens(
                            patterns.take(index as int),
                            path,
                            at,
                            t + 1,
                            path.len() as int,
                        );
                        assert(patterns.take(index as int) == patterns);
                        assert(path.take(path.len() as int) == path);
                        assert(places(patterns, path, at));
                        lemma_occur_is_placement(patterns, path);
                    }
                    return true;
                }
            }
            t += 1;
        }
        proof {
            assert(path.take(t as int) == path);
            assert(patterns.take(patterns.len() as int) == patterns);
            assert forall|other: Seq<int>| !places(patterns, path, other) by {
                if places(patterns, path, other) {
                    assert(places(patterns.take(patterns.len() as int), path.take(t as int), other));
                }
            }
            lemma_occur_is_placement(patterns, path);
        }
        false
    }

    fn get_prefix(&self, scopes: &str) -> (r: Option<char>)
        decreases self,
    {
        if self.matches(scopes) {
            self.prefix
        } else {
            None
        }
    }
}

impl Matcher for OrMatcher {
    fn matches(&self, scopes: &str) -> (r: bool)
        decreases self,
    {
        self.left.matches(scopes) || self.right.matches(scopes)
    }

    fn get_prefix(&self, scopes: &str) -> (r: Option<char>)
        decreases self,
    {
        match self.left.get_prefix(scopes) {
            Some(prefix) => Some(prefix),
            None => self.right.get_prefix(scopes),
        }
    }
}

impl Matcher for AndMatcher {
    fn matches(&self, scopes: &str) -> (r: bool)
        decreases self,
    {
        self.left.matches(scopes) && self.right.matches(scopes)
    }

    fn get_prefix(&self, scopes: &str) -> (r: Option<char>)
        decreases self,
    {
        if self.matches(scopes) {
            self.left.get_prefix(scopes)
        } else {
            None
        }
    }
}

impl Matcher for NegateMatcher {
    fn matches(&self, scopes: &str) -> (r: bool)
        decreases self,
    {
        !self.matcher.matches(scopes)
    }

    fn get_prefix(&self, scopes: &str) -> (r: Option<char>) {
        None
    }
}

impl Matcher for CompositeMatcher {
    fn matches(&self, scopes: &str) -> (r: bool)
        decreases self,
    {
        self.matcher.matches(scopes)
    }

    fn get_prefix(&self, scopes: &str) -> (r: Option<char>)
        decreases self,
    {
        self.matcher.get_prefix(scopes)
    }
}

impl Matcher for MatcherTree {
    fn matches(&self, scope: &str) -> (r: bool)
        decreases self,
    {
        match self {
            MatcherTree::Segment(m) => m.matches(scope),
            MatcherTree::Wildcard(m) => m.matches(scope),
            MatcherTree::Scope(m) => m.matches(scope),
            MatcherTree::Group(m) => m.matches(scope),
            MatcherTree::Path(m) => m.matches(scope),
            MatcherTree::Or(m) => m.matches(scope),
            MatcherTree::And(m) => m.matches(scope),
            MatcherTree::Negate(m) => m.matches(scope),
            MatcherTree::Composite(m) => m.matches(scope),
        }
    }

    fn get_prefix(&self, scopes: &str) -> (r: Option<char>)
        decreases self,
    {
        match self {
            MatcherTree::Segment(m) => m.get_prefix(scopes),
            MatcherTree::Wildcard(m) => m.get_prefix(scopes),
            MatcherTree::Scope(m) => m.get_prefix(scopes),
            MatcherTree::Group(m) => m.get_prefix(scopes),
            MatcherTree::Path(m) => m.get_prefix(scopes),
            MatcherTree::Or(m) => m.get_prefix(scopes),
            MatcherTree::And(m) => m.get_prefix(scopes),
            MatcherTree::Negate(m) => m.get_prefix(scopes),
            MatcherTree::Composite(m) => m.get_prefix(scopes),
        }
    }
}

} // verus!
