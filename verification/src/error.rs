//! The error type shared by the lexer and the parser.

use vstd::prelude::*;

verus! {

/// An error raised while decoding source text into a program.
///
/// `TryNext` is the internal signal of a backtracking parser: the attempted
/// grammar rule does not apply and the caller should try the next
/// alternative. It never escapes to a user of the pipeline; every function
/// of this crate that returns a `DecodeError` promises `Fatal` in its
/// contract. `Fatal` carries a human-readable message and aborts the whole
/// pipeline run.
#[derive(Debug)]
pub enum DecodeError {
    TryNext,
    Fatal(String),
}

impl DecodeError {
    /// Wraps a message as a fatal error.
    pub fn fatal(message: String) -> (r: DecodeError)
        ensures
            r == DecodeError::Fatal(message),
    {
        DecodeError::Fatal(message)
    }

    /// The text a host should show for this error.
    pub fn message(&self) -> (r: String)
        ensures
            self is Fatal ==> r@ == self->Fatal_0@,
            self is TryNext ==> r@ == "Please try next method"@,
    {
        match self {
            DecodeError::TryNext => "Please try next method".to_owned(),
            DecodeError::Fatal(message) => message.clone(),
        }
    }
}

} // verus!
