//! The reference lexer's facade.
//!
//! An outside lexer generator serves only as a cross-check against the
//! automaton built here.  This type carries the input and the token
//! stream that cross-check produced; driving the outside lexer itself is
//! the application's business, which stores its result here.

use vstd::prelude::*;

verus! {

/// The input text and the token stream of the reference lexer.
pub struct LibLex4Oat {
    /// The source text.
    pub input: String,
    /// The (token name, lexeme) pairs the reference lexer produced.
    pub tokens: Vec<(String, String)>,
}

impl LibLex4Oat {
    /// Creates a holder for the given input with no tokens yet.
    pub fn new(input: String) -> (r: LibLex4Oat)
        ensures
            r.input == input,
            r.tokens@.len() == 0,
    {
        LibLex4Oat { input, tokens: Vec::new() }
    }

    /// The stored token stream.
    pub fn tokens(&self) -> (r: &Vec<(String, String)>)
        ensures
            r == self.tokens,
    {
        &self.tokens
    }

    /// Stores the token stream the reference lexer produced.
    pub fn set_tokens(&mut self, tokens: Vec<(String, String)>)
        ensures
            final(self).input == old(self).input,
            final(self).tokens == tokens,
    {
        self.tokens = tokens;
    }
}

} // verus!
