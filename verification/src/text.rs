//! Scope paths as text: tokens separated by blanks, segments separated by dots.
use vstd::prelude::*;
use vstd::std_specs::iter::IteratorSpec;

verus! {

/// The characters at which a scope path is cut.
#[derive(Clone, Copy, PartialEq, Eq, Structural, Debug)]
pub enum Separator {
    /// `.` separates the segments of a token.
    Dot,
    /// A space or a tab separates the tokens of a path.
    Blank,
}

impl Separator {
    /// Whether `c` is a separator of this kind.
    pub open spec fn separates(self, c: char) -> bool {
        match self {
            Separator::Dot => c == '.',
            Separator::Blank => c == ' ' || c == '\t',
        }
    }

    /// Whether `c` is a separator of this kind.
    pub fn is_separator(self, c: char) -> (r: bool)
        ensures
            r == self.separates(c),
    {
        match self {
            Separator::Dot => c == '.',
            Separator::Blank => c == ' ' || c == '\t',
        }
    }
}

/// The number of characters of `text` before its first separator, which is
/// all of them where it has none.
pub open spec fn run(text: Seq<char>, sep: Separator) -> nat
    decreases text.len(),
{
    if text.len() == 0 || sep.separates(text[0]) {
        0
    } else {
        1 + run(text.drop_first(), sep)
    }
}

/// The pieces into which the separators cut `text`. Every separator ends a
/// piece, so a text with `n` separators has `n + 1` pieces, some of which may
/// be empty; the empty text is one empty piece.
pub open spec fn split(text: Seq<char>, sep: Separator) -> Seq<Seq<char>>
    decreases text.len(),
{
    let n = run(text, sep) as int;
    if n >= text.len() {
        seq![text]
    } else {
        seq![text.take(n)] + split(text.skip(n + 1), sep)
    }
}

/// The segments of one token of a scope path.
pub open spec fn segments(token: Seq<char>) -> Seq<Seq<char>> {
    split(token, Separator::Dot)
}

/// The tokens of a scope path.
pub open spec fn tokens(path: Seq<char>) -> Seq<Seq<char>> {
    split(path, Separator::Blank)
}

/// A stretch of `text` that holds no separator and is followed by one, or
/// by the end of `text`, is the first piece of what begins with it.
proof fn lemma_run(text: Seq<char>, sep: Separator, n: int)
    requires
        0 <= n <= text.len(),
        forall|j: int| 0 <= j < n ==> !sep.separates(#[trigger] text[j]),
        n < text.len() ==> sep.separates(text[n]),
    ensures
        run(text, sep) == n,
    decreases n,
{
    if n > 0 {
        let rest = text.drop_first();
        assert forall|j: int| 0 <= j < n - 1 implies !sep.separates(#[trigger] rest[j]) by {
            assert(rest[j] == text[j + 1]);
        }
        lemma_run(rest, sep, n - 1);
    }
}

impl Separator {
    /// Cuts `text` at each separator of this kind.
    pub fn split<'a>(self, text: &'a str) -> (pieces: Vec<&'a str>)
        ensures
            pieces@.len() == split(text@, self).len(),
            forall|k: int|
                0 <= k < pieces@.len() ==> (#[trigger] pieces@[k])@ == split(text@, self)[k],
    {
        let n = text.unicode_len();
        let mut pieces: Vec<&'a str> = Vec::new();
        let mut start: usize = 0;
        let mut i: usize = 0;
        let ghost mut done: Seq<Seq<char>> = Seq::empty();
        assert(text@.skip(0) == text@);
        assert(done + split(text@, self) == split(text@, self));
        for c in rest: text.chars()
            invariant
                rest.seq() == text@,
                n == text@.len(),
                i == rest.index(),
                start <= i <= n,
                forall|j: int| start <= j < i ==> !self.separates(#[trigger] text@[j]),
                done.len() == pieces@.len(),
                forall|k: int| 0 <= k < pieces@.len() ==> (#[trigger] pieces@[k])@ == done[k],
                split(text@, self) == done + split(text@.skip(start as int), self),
        {
            if self.is_separator(c) {
                let piece = text.substring_char(start, i);
                proof {
                    let tail = text@.skip(start as int);
                    lemma_run(tail, self, i - start);
                    assert(tail.take(i - start) == text@.subrange(start as int, i as int));
                    assert(tail.skip(i - start + 1) == text@.skip(i + 1));
                    assert(done + (seq![piece@] + split(text@.skip(i + 1), self)) == done.push(
                        piece@,
                    ) + split(text@.skip(i + 1), self));
                    done = done.push(piece@);
                }
                pieces.push(piece);
                start = i + 1;
            }
            i += 1;
        }
        let piece = text.substring_char(start, n);
        proof {
            let tail = text@.skip(start as int);
            lemma_run(tail, self, n - start);
            assert(tail == text@.subrange(start as int, n as int));
            assert(done + seq![piece@] == done.push(piece@));
        }
        pieces.push(piece);
        pieces
    }
}

/// The first character of `text`, if it has one.
pub fn first_char(text: &str) -> (r: Option<char>)
    ensures
        r == if text@.len() > 0 {
            Some(text@[0])
        } else {
            None
        },
{
    let mut chars = text.chars();
    chars.next()
}

/// Whether two texts are the same, character by character.
pub fn same_text(a: &str, b: &str) -> (r: bool)
    ensures
        r == (a@ == b@),
{
    let mut x = a.chars();
    let mut y = b.chars();
    let ghost mut n: int = 0;
    loop
        invariant
            0 <= n <= a@.len(),
            n <= b@.len(),
            x.remaining() == a@.skip(n),
            y.remaining() == b@.skip(n),
            a@.take(n) == b@.take(n),
        decreases a@.len() - n,
    {
        let c = x.next();
        let d = y.next();
        match (c, d) {
            (None, None) => {
                assert(a@.skip(n).len() == 0 && b@.skip(n).len() == 0);
                assert(a@ == a@.take(n) && b@ == b@.take(n));
                return true;
            },
            (Some(c), Some(d)) => {
                if c != d {
                    return false;
                }
                proof {
                    n = n + 1;
                }
            },
            _ => {
                return false;
            },
        }
    }
}

} // verus!
