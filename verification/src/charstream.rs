//! The character stream: one-character lookahead over source text, with
//! line and column tracking.

use crate::text::collect_chars;
use vstd::prelude::*;

verus! {

/// The name for what `char::is_whitespace` returns.
pub uninterp spec fn is_whitespace_char(c: char) -> bool;

/// The name for what `char::is_alphabetic` returns.
pub uninterp spec fn is_alphabetic_char(c: char) -> bool;

/// The name for what `char::is_alphanumeric` returns.
pub uninterp spec fn is_alphanumeric_char(c: char) -> bool;

/// Relies on `char::is_whitespace`: whether the character has the Unicode
/// whitespace property. The result depends on the character alone.
#[verifier::external_body]
pub fn whitespace_char(c: char) -> (r: bool)
    ensures
        r == is_whitespace_char(c),
{
    c.is_whitespace()
}

/// Relies on `char::is_alphabetic`: whether the character is a letter. The
/// result depends on the character alone.
#[verifier::external_body]
pub fn alphabetic_char(c: char) -> (r: bool)
    ensures
        r == is_alphabetic_char(c),
{
    c.is_alphabetic()
}

/// Relies on `char::is_alphanumeric`: whether the character is a letter or
/// a digit. The result depends on the character alone.
#[verifier::external_body]
pub fn alphanumeric_char(c: char) -> (r: bool)
    ensures
        r == is_alphanumeric_char(c),
{
    c.is_alphanumeric()
}

/// A character that may continue an identifier: a letter, a digit or an
/// underscore.
pub open spec fn ident_char(c: char) -> bool {
    c == '_' || is_alphanumeric_char(c)
}

/// Decides [`ident_char`].
pub fn is_identifier_char(c: char) -> (r: bool)
    ensures
        r == ident_char(c),
{
    c == '_' || alphanumeric_char(c)
}

/// The line number after `p` characters of the source have been consumed:
/// lines start at one, and each newline begins a new line.
pub open spec fn line_at(s: Seq<char>, p: int) -> int
    decreases p,
{
    if p <= 0 {
        1
    } else {
        line_at(s, p - 1) + (if s[p - 1] == '\n' {
            1int
        } else {
            0int
        })
    }
}

/// The column after `p` characters of the source have been consumed: zero
/// at the start of each line, advancing by one per other character.
pub open spec fn col_at(s: Seq<char>, p: int) -> int
    decreases p,
{
    if p <= 0 {
        0
    } else if s[p - 1] == '\n' {
        0
    } else {
        col_at(s, p - 1) + 1
    }
}

/// Line and column stay within the consumed length.
pub proof fn lemma_position_bounds(s: Seq<char>, p: int)
    requires
        0 <= p,
    ensures
        1 <= line_at(s, p) <= p + 1,
        0 <= col_at(s, p) <= p,
    decreases p,
{
    if p > 0 {
        lemma_position_bounds(s, p - 1);
    }
}

/// Source text with one-character lookahead and a line/column position.
/// Characters are consumed one at a time and never re-read: rewinding is a
/// lexer-level concept, never a stream-level one.
pub struct CharStream {
    pub data: Vec<char>,
    pub pos: usize,
    pub line: usize,
    pub col: usize,
}

impl CharStream {
    /// The stored position agrees with the consumed prefix.
    pub open spec fn wf(&self) -> bool {
        &&& self.pos <= self.data@.len()
        &&& self.data@.len() < usize::MAX
        &&& self.line as int == line_at(self.data@, self.pos as int)
        &&& self.col as int == col_at(self.data@, self.pos as int)
    }

    /// A stream over the characters of the source text, at line one and
    /// column zero.
    pub fn new(data: &str) -> (r: CharStream)
        requires
            data@.len() < usize::MAX,
        ensures
            r.wf(),
            r.data@ == data@,
            r.pos == 0,
    {
        let chars = collect_chars(data);
        CharStream { data: chars, pos: 0, line: 1, col: 0 }
    }

    /// The current line, starting at one.
    pub fn line(&self) -> (r: usize)
        ensures
            r == self.line,
    {
        self.line
    }

    /// The current column, reset to zero by each newline.
    pub fn col(&self) -> (r: usize)
        ensures
            r == self.col,
    {
        self.col
    }

    /// The next character, without consuming it.
    pub fn peek(&self) -> (r: Option<char>)
        ensures
            r == (if self.pos < self.data@.len() {
                Some(self.data@[self.pos as int])
            } else {
                None::<char>
            }),
    {
        if self.pos < self.data.len() {
            Some(self.data[self.pos])
        } else {
            None
        }
    }

    /// Consumes and returns the next character, updating line and column: a
    /// newline increments the line and resets the column to zero; any other
    /// character increments the column.
    pub fn next(&mut self) -> (r: Option<char>)
        requires
            old(self).wf(),
        ensures
            final(self).wf(),
            final(self).data == old(self).data,
            r == (if old(self).pos < old(self).data@.len() {
                Some(old(self).data@[old(self).pos as int])
            } else {
                None::<char>
            }),
            final(self).pos as int == if old(self).pos < old(self).data@.len() {
                old(self).pos + 1
            } else {
                old(self).pos as int
            },
    {
        if self.pos < self.data.len() {
            let c = self.data[self.pos];
            proof {
                lemma_position_bounds(self.data@, self.pos as int);
            }
            self.pos = self.pos + 1;
            if c == '\n' {
                self.line = self.line + 1;
                self.col = 0;
            } else {
                self.col = self.col + 1;
            }
            Some(c)
        } else {
            None
        }
    }
}

} // verus!
