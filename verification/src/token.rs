//! Tokens: the smallest lexical units of the language.

use vstd::prelude::*;

verus! {

/// The classes of tokens the lexer can produce.
#[derive(Clone, Copy, Debug, PartialEq, Eq, Structural)]
pub enum TokenKind {
    /// The reserved word `function`.
    Keyword,
    /// A name: a letter followed by letters, digits or underscores.
    Identifier,
    /// A double-quoted string literal; the token text holds the decoded
    /// characters, with escape sequences already replaced.
    StringLiteral,
    /// A single structural character: `(`, `)`, `{`, `}`, `;` or `,`.
    Separator,
    /// An operator such as `+`, `++`, `+=`, `-`, `*`, `/` or `/=`.
    Operator,
    /// The end of the input; emitted exactly once, as the last token.
    EOF,
}

/// The mathematical model of a [`Token`]: its kind, its text as a character
/// sequence, and the line and column where it starts.
#[verifier::ext_equal]
pub ghost struct TokenModel {
    pub kind: TokenKind,
    pub text: Seq<char>,
    pub line: nat,
    pub col: nat,
}

/// A single token: a kind, its literal text, and the position (line and
/// column of its first character) where it was read. Immutable once
/// produced.
#[derive(Debug)]
pub struct Token {
    pub kind: TokenKind,
    pub text: String,
    pub line: usize,
    pub col: usize,
}

impl View for Token {
    type V = TokenModel;

    open spec fn view(&self) -> TokenModel {
        TokenModel {
            kind: self.kind,
            text: self.text@,
            line: self.line as nat,
            col: self.col as nat,
        }
    }
}

} // verus!
