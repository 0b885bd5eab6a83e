//! Lexemes: the tokens of an input, with their places in it.

use vstd::prelude::*;

verus! {

/// One token of the input: which token it is, where it starts and how long it is. A lexeme
/// that error recovery inserts has length 0.
#[derive(Clone, Copy, Debug, Hash, PartialEq, Eq, Structural)]
pub struct Lexeme {
    pub tok_id: u32,
    pub start: usize,
    pub len: usize,
}

impl Lexeme {
    /// A lexeme of token `tok_id` that starts at offset `start` and spans `len` bytes.
    pub fn new(tok_id: u32, start: usize, len: usize) -> (l: Lexeme)
        ensures
            l == (Lexeme { tok_id, start, len }),
    {
        Lexeme { tok_id, start, len }
    }

    /// The token that this lexeme is an instance of.
    pub fn tok_id(&self) -> (t: u32)
        ensures
            t == self.tok_id,
    {
        self.tok_id
    }

    /// The offset at which this lexeme starts.
    pub fn start(&self) -> (s: usize)
        ensures
            s == self.start,
    {
        self.start
    }

    /// The number of bytes that this lexeme spans.
    pub fn len(&self) -> (n: usize)
        ensures
            n == self.len,
    {
        self.len
    }
}

} // verus!
