//! Scope selectors: boolean expressions over the scope stack of a token.
//!
//! A selector such as `source.js - (comment, string)` is parsed into a tree of
//! matchers, and the tree is then asked whether it matches a scope path such
//! as `source.js meta.function.js`, and which injection marker (`L`, `R` or
//! `B`) the matching part of the selector carries.
//!
//! Every executable function is specified against a mathematical model:
//! [`selector::Selector`] is the abstract syntax of a selector together with
//! its meaning, and [`grammar`] is the parsing expression grammar that reads
//! one from text.
use vstd::prelude::*;

pub mod error;
pub mod grammar;
pub mod laws;
pub mod matchers;
pub mod parser;
pub mod selector;
pub mod text;

pub use error::{Expected, ExpectedSet, LineCol, ParseError};
use matchers::MatcherTree;
use parser::{Gap, Input};

verus! {

/// Whether `r` is what the text `selector` is read as: the tree of matchers
/// for the selector that the grammar finds in it, or, where the grammar finds
/// none, the furthest position at which something was missing and what was
/// expected there.
pub open spec fn reads(selector: Seq<char>, r: Result<Box<MatcherTree>, ParseError>) -> bool {
    match grammar::parse(selector) {
        Ok(tree) => r is Ok && r->Ok_0@ == tree,
        Err(missing) => {
            &&& r is Err
            &&& r->Err_0.location.locates(selector, missing.at)
            &&& r->Err_0.expected == missing.expected
        },
    }
}

/// Reads `selector` as the grammar says.
pub fn parse(selector: &str) -> (r: Result<Box<MatcherTree>, ParseError>)
    ensures
        reads(selector@, r),
{
    let input = Input::new(selector);
    let limit = input.len();
    let whole = input.selector(input.skip_blanks(0));
    let missing = match whole.found {
        None => whole.missing,
        Some(tree) => {
            let end = input.skip_blanks(whole.end);
            if end >= limit {
                return Ok(tree);
            }
            whole.missing.later(Gap::at(end, Expected::End))
        },
    };
    let offset = missing.at;
    proof {
        grammar::lemma_error_after_clean_text(selector@);
        error::lemma_clean_is_one_line(selector@, offset as int);
    }
    Err(
        ParseError {
            location: LineCol { line: 1, column: offset + 1, offset },
            expected: missing.expected,
        },
    )
}

} // verus!
