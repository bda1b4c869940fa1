//! The abstract syntax of a selector, and what it means for one to match.
use vstd::prelude::*;
use crate::text::{segments, tokens};

verus! {

/// A selector, as a mathematical value.
pub enum Selector {
    /// One literal segment, such as `source`.
    Segment(Seq<char>),
    /// `*`, which stands for any segment.
    Wildcard,
    /// A dotted pattern such as `source.*.embedded`, read against one token.
    Scope(Seq<Selector>),
    /// Patterns that have to occur in this order among the tokens of a path,
    /// with an optional marker.
    Path(Option<char>, Seq<Selector>),
    /// A selector in parentheses, with an optional marker.
    Group(Option<char>, Box<Selector>),
    /// Either of two selectors.
    Or(Box<Selector>, Box<Selector>),
    /// Both of two selectors.
    And(Box<Selector>, Box<Selector>),
    /// Not the selector.
    Negate(Box<Selector>),
    /// Two selectors joined by an infix operator, already resolved.
    Composite(Box<Selector>),
}

/// Whether the patterns occur among the tokens, in their order: each pattern
/// matches a token of its own, and a later pattern a later token. Either the
/// last token is not needed, or it is the one that the last pattern matches.
pub open spec fn occur(patterns: Seq<Selector>, tokens: Seq<Seq<char>>) -> bool
    decreases patterns, tokens.len(),
{
    if patterns.len() == 0 {
        true
    } else if tokens.len() == 0 {
        false
    } else {
        ||| occur(patterns, tokens.drop_last())
        ||| patterns.last().matches(tokens.last()) && occur(
            patterns.drop_last(),
            tokens.drop_last(),
        )
    }
}

/// Whether `at` names one token for each of `patterns` patterns, the tokens
/// in the order of the patterns: a strictly increasing list of positions
/// among `tokens` tokens.
pub open spec fn ascends(at: Seq<int>, patterns: nat, tokens: nat) -> bool {
    &&& at.len() == patterns
    &&& forall|k: int| 0 <= k < at.len() ==> 0 <= #[trigger] at[k] < tokens
    &&& forall|j: int, k: int| 0 <= j < k < at.len() ==> #[trigger] at[j] < #[trigger] at[k]
}

/// Whether `at` gives every pattern a token of its own that it matches, the
/// tokens chosen in the order of the patterns.
pub open spec fn places(patterns: Seq<Selector>, tokens: Seq<Seq<char>>, at: Seq<int>) -> bool {
    &&& ascends(at, patterns.len(), tokens.len())
    &&& forall|k: int|
        0 <= k < patterns.len() ==> (#[trigger] patterns[k]).matches(tokens[at[k]])
}

/// The three infix operators.
pub open spec fn is_operator(c: char) -> bool {
    c == '|' || c == '&' || c == '-'
}

/// What an infix operator makes of the selectors on its two sides: `|` is
/// disjunction, `&` is conjunction, and `-` is the left side without the
/// right.
pub open spec fn combine(left: Selector, operator: char, right: Selector) -> Selector {
    if operator == '|' {
        Selector::Or(Box::new(left), Box::new(right))
    } else if operator == '&' {
        Selector::And(Box::new(left), Box::new(right))
    } else {
        Selector::And(Box::new(left), Box::new(Selector::Negate(Box::new(right))))
    }
}

/// The marker that the text of a prefix such as `L:` names: its first
/// character.
pub open spec fn marker(prefix: Option<Seq<char>>) -> Option<char> {
    match prefix {
        Some(text) => if text.len() > 0 {
            Some(text[0])
        } else {
            None
        },
        None => None,
    }
}

impl Selector {
    /// Whether the selector matches `text`: a segment for `Segment` and
    /// `Wildcard`, a token for `Scope`, a whole scope path for the others.
    pub open spec fn matches(self, text: Seq<char>) -> bool
        decreases self, 0nat,
    {
        match self {
            Selector::Segment(literal) => text == literal,
            Selector::Wildcard => true,
            Selector::Scope(atoms) => {
                let parts = segments(text);
                &&& atoms.len() <= parts.len()
                &&& forall|i: int|
                    0 <= i < atoms.len() ==> (#[trigger] atoms[i]).matches(parts[i])
            },
            Selector::Path(_, scopes) => scopes.len() > 0 && occur(scopes, tokens(text)),
            Selector::Group(_, inner) => inner.matches(text),
            Selector::Or(left, right) => left.matches(text) || right.matches(text),
            Selector::And(left, right) => left.matches(text) && right.matches(text),
            Selector::Negate(inner) => !inner.matches(text),
            Selector::Composite(inner) => inner.matches(text),
        }
    }

    /// The marker that the selector yields on `text`, if any.
    pub open spec fn prefix(self, text: Seq<char>) -> Option<char>
        decreases self,
    {
        match self {
            Selector::Segment(_) | Selector::Wildcard | Selector::Scope(_) => None,
            Selector::Path(marker, _) | Selector::Group(marker, _) => if self.matches(text) {
                marker
            } else {
                None
            },
            Selector::Or(left, right) => match left.prefix(text) {
                Some(marker) => Some(marker),
                None => right.prefix(text),
            },
            Selector::And(left, _) => if self.matches(text) {
                left.prefix(text)
            } else {
                None
            },
            Selector::Negate(_) => None,
            Selector::Composite(inner) => inner.prefix(text),
        }
    }
}

/// A placement stays one when another token follows.
pub proof fn lemma_places_more_tokens(
    patterns: Seq<Selector>,
    tokens: Seq<Seq<char>>,
    at: Seq<int>,
    t: int,
    u: int,
)
    requires
        0 <= t <= u <= tokens.len(),
        places(patterns, tokens.take(t), at),
    ensures
        places(patterns, tokens.take(u), at),
{
    assert forall|k: int| 0 <= k < patterns.len() implies (#[trigger] patterns[k]).matches(
        tokens.take(u)[at[k]],
    ) by {
        assert(tokens.take(t)[at[k]] == tokens.take(u)[at[k]]);
    }
}

/// A placement of the first `m` patterns on the first `t` tokens becomes one
/// of the first `m + 1` patterns when token `t` matches the next pattern.
pub proof fn lemma_places_push(
    patterns: Seq<Selector>,
    tokens: Seq<Seq<char>>,
    at: Seq<int>,
    m: int,
    t: int,
)
    requires
        0 <= m < patterns.len(),
        0 <= t < tokens.len(),
        places(patterns.take(m), tokens.take(t), at),
        patterns[m].matches(tokens[t]),
    ensures
        places(patterns.take(m + 1), tokens.take(t + 1), at.push(t)),
{
    let longer = at.push(t);
    assert forall|k: int| 0 <= k < m + 1 implies (#[trigger] patterns.take(m + 1)[k]).matches(
        tokens.take(t + 1)[longer[k]],
    ) by {
        if k < m {
            assert(patterns.take(m)[k].matches(tokens.take(t)[at[k]]));
        }
    }
}

/// A placement on the first `t + 1` tokens either leaves token `t` alone, or
/// puts its last pattern there and the others before it.
pub proof fn lemma_places_last(
    patterns: Seq<Selector>,
    tokens: Seq<Seq<char>>,
    at: Seq<int>,
    m: int,
    t: int,
)
    requires
        0 <= m <= patterns.len(),
        0 <= t < tokens.len(),
        places(patterns.take(m), tokens.take(t + 1), at),
    ensures
        m == 0 || at[m - 1] < t ==> places(patterns.take(m), tokens.take(t), at),
        m > 0 && at[m - 1] >= t ==> {
            &&& places(patterns.take(m - 1), tokens.take(t), at.drop_last())
            &&& patterns[m - 1].matches(tokens[t])
        },
{
    if m == 0 || at[m - 1] < t {
        assert forall|k: int| 0 <= k < m implies 0 <= #[trigger] at[k] < t by {
            if k < m - 1 {
                assert(at[k] < at[m - 1]);
            }
        }
        assert forall|k: int| 0 <= k < m implies (#[trigger] patterns.take(m)[k]).matches(
            tokens.take(t)[at[k]],
        ) by {
            assert(tokens.take(t)[at[k]] == tokens.take(t + 1)[at[k]]);
        }
    } else {
        let shorter = at.drop_last();
        assert(at[m - 1] == t);
        assert(patterns.take(m)[m - 1].matches(tokens.take(t + 1)[at[m - 1]]));
        assert forall|k: int| 0 <= k < m - 1 implies 0 <= #[trigger] shorter[k] < t by {
            assert(at[k] < at[m - 1]);
        }
        assert forall|k: int| 0 <= k < m - 1 implies (#[trigger] patterns.take(m - 1)[k]).matches(
            tokens.take(t)[shorter[k]],
        ) by {
            assert(at[k] < at[m - 1]);
            assert(patterns.take(m)[k].matches(tokens.take(t + 1)[at[k]]));
        }
    }
}

/// The patterns occur among the tokens exactly when some list of positions
/// gives each pattern a token that it matches, later patterns later tokens.
pub proof fn lemma_occur_is_placement(patterns: Seq<Selector>, tokens: Seq<Seq<char>>)
    ensures
        occur(patterns, tokens) <==> exists|at: Seq<int>| places(patterns, tokens, at),
    decreases tokens.len(),
{
    let m = patterns.len() as int;
    if m == 0 {
        assert(places(patterns, tokens, Seq::<int>::empty()));
    } else if tokens.len() == 0 {
        assert forall|at: Seq<int>| !places(patterns, tokens, at) by {
            if places(patterns, tokens, at) {
                assert(0 <= at[0] < tokens.len());
            }
        }
    } else {
        let t = tokens.len() - 1;
        assert(tokens.take(t) == tokens.drop_last());
        assert(tokens.take(t + 1) == tokens);
        assert(patterns.take(m) == patterns);
        assert(patterns.take(m - 1) == patterns.drop_last());
        lemma_occur_is_placement(patterns, tokens.drop_last());
        lemma_occur_is_placement(patterns.drop_last(), tokens.drop_last());
        if occur(patterns, tokens) {
            if occur(patterns, tokens.drop_last()) {
                let at = choose|at: Seq<int>| places(patterns, tokens.drop_last(), at);
                lemma_places_more_tokens(patterns, tokens, at, t, t + 1);
                assert(places(patterns, tokens, at));
            } else {
                let at = choose|at: Seq<int>|
                    places(patterns.drop_last(), tokens.drop_last(), at);
                lemma_places_push(patterns, tokens, at, m - 1, t);
                assert(places(patterns, tokens, at.push(t)));
            }
        }
        if exists|at: Seq<int>| places(patterns, tokens, at) {
            let at = choose|at: Seq<int>| places(patterns, tokens, at);
            lemma_places_last(patterns, tokens, at, m, t);
            if at[m - 1] >= t {
                assert(places(patterns.drop_last(), tokens.drop_last(), at.drop_last()));
            } else {
                assert(places(patterns, tokens.drop_last(), at));
            }
        }
    }
}

} // verus!
