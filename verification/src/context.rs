//! Where lexer plugins report the errors that do not stop them.

use vstd::prelude::*;

use std::ops::Range;

use crate::lex::{LexError, NoLexerPlugins};
use crate::sourcefile::NoLineParsers;
use crate::text::{byte_len, lemma_byte_len_encode};

verus! {

/// Collects the errors that are reported without stopping the lexer.
#[derive(Debug)]
pub struct Reporter {
    errors: Vec<LexError>,
}

impl Reporter {
    /// The errors reported so far, in order
    pub closed spec fn spec_errors(&self) -> Seq<LexError> {
        self.errors@
    }

    /// A reporter with no errors
    pub fn new() -> (r: Self)
        ensures
            r.spec_errors() == Seq::<LexError>::empty(),
    {
        Reporter { errors: Vec::new() }
    }

    /// Record an error
    pub fn report(&mut self, e: LexError)
        ensures
            final(self).spec_errors() == old(self).spec_errors().push(e),
    {
        self.errors.push(e);
    }

    /// Whether any error was reported
    pub fn failing(&self) -> (r: bool)
        ensures
            r == (self.spec_errors().len() > 0),
    {
        self.errors.len() > 0
    }

    /// The errors reported so far
    pub fn errors(&self) -> (r: &Vec<LexError>)
        ensures
            r@ == self.spec_errors(),
    {
        &self.errors
    }
}

/// Context for testing lexer plugins. It provides a reporter and places
/// every text so that it ends at `usize::MAX / 2`.
#[derive(Debug)]
pub struct MockContext(pub Reporter);

impl MockContext {
    /// Create a new mock
    pub fn new() -> (r: Self)
        ensures
            r.0.spec_errors() == Seq::<LexError>::empty(),
    {
        MockContext(Reporter::new())
    }

    /// The position of the unparsed text `tail`: the mock places the end of
    /// every text at `usize::MAX / 2`.
    pub fn pos(&self, tail: &str) -> (r: usize)
        requires
            byte_len(tail@) <= usize::MAX / 2,
        ensures
            r == usize::MAX / 2 - byte_len(tail@),
    {
        proof {
            lemma_byte_len_encode(tail@);
        }
        usize::MAX / 2 - tail.as_bytes().len()
    }

    /// The lexer plugins of the mock: none
    pub fn lexers(&self) -> (r: NoLexerPlugins) {
        NoLexerPlugins
    }

    /// The line parsers of the mock: none
    pub fn line_parsers(&self) -> (r: NoLineParsers) {
        NoLineParsers
    }

    /// The range of a token of `len` bytes followed by the text `tail`: it
    /// ends where `tail` starts.
    pub fn range(&self, len: usize, tail: &str) -> (r: Range<usize>)
        requires
            byte_len(tail@) + len <= usize::MAX / 2,
        ensures
            r.end == usize::MAX / 2 - byte_len(tail@),
            r.start == r.end - len,
    {
        let end = self.pos(tail);
        Range { start: end - len, end }
    }
}

} // verus!
