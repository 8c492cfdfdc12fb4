//! The one error type of the compiler: a kind and a one-line message.

use vstd::prelude::*;

verus! {

/// The stage at which a compilation stopped.
#[derive(Debug, Clone, Copy, PartialEq, Eq, Structural)]
pub enum ErrorKind {
    /// The compiler was not handed exactly one source text.
    Usage,
    /// The lexer met a character, or a `!`, that starts no token.
    Lex,
    /// The parser met a token other than the one the grammar asks for.
    Parse,
    /// The generator was handed a tree it has no code for.
    Codegen,
}

/// A fatal error: every stage stops at its first one.
#[derive(Debug, Clone, PartialEq, Eq)]
pub struct CompileError {
    pub kind: ErrorKind,
    pub message: String,
}

impl CompileError {
    /// An error of the given kind with the given message.
    pub fn new(kind: ErrorKind, message: &str) -> (e: CompileError)
        ensures
            e.kind == kind,
            e.message@ == message@,
    {
        CompileError { kind, message: String::from_str(message) }
    }

    /// The message, as it is shown to the user.
    pub fn to_string(&self) -> (s: String)
        ensures
            s@ == self.message@,
    {
        self.message.clone()
    }
}

} // verus!
