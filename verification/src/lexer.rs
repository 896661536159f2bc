//! The lexer: turns source text into the token sequence the parser
//! consumes.
//!
//! Per token, in priority order: whitespace is skipped; an exhausted stream
//! yields one end-of-input token, after which the lexer stays silent (the
//! end-of-input state is sticky); `"` opens a string literal with `\n` and
//! `\\` as its only escapes; `(` `)` `{` `}` `;` `,` are one-character
//! separators; `+`, `-`, `*` and `/` open operators, matched greedily
//! (`++`, `+=`, `/=`, ...); `//` and `/* ... */` are comments, skipped
//! before the next real token; a letter opens an identifier, which is the
//! keyword if it reads `function`; anything else is a fatal lexical error
//! with its position.

use crate::charstream::{CharStream, alphabetic_char, col_at, ident_char, is_alphabetic_char,
    is_identifier_char, is_whitespace_char, line_at, whitespace_char};
use crate::error::DecodeError;
use crate::text::{chars_to_string, dec_rep, str_eq, usize_to_string};
use crate::token::{Token, TokenKind, TokenModel};
use vstd::prelude::*;
use vstd::string::StringExecFns;

verus! {

broadcast use vstd::string::group_string_axioms;

/// What can stop the lexer: each fatal lexical error, with the position the
/// stream had reached when it was found.
#[verifier::ext_equal]
pub ghost enum LexErrModel {
    UnexpectedLineBreak { line: nat, col: nat },
    UnknownEscape { line: nat, col: nat },
    UnterminatedString { line: nat, col: nat },
    UnterminatedComment,
    InvalidChar { c: char, line: nat, col: nat },
}

/// The message each lexical error carries.
pub open spec fn lex_error_message(e: LexErrModel) -> Seq<char> {
    match e {
        LexErrModel::UnexpectedLineBreak { line, col } => "Unexpected line break at "@ + dec_rep(
            line,
        ) + ":"@ + dec_rep(col),
        LexErrModel::UnknownEscape { line, col } => "Unexpected \\ at "@ + dec_rep(line) + ":"@
            + dec_rep(col),
        LexErrModel::UnterminatedString { line, col } => "Expecting \" at "@ + dec_rep(line) + ":"@
            + dec_rep(col),
        LexErrModel::UnterminatedComment => "No */ found until EOF"@,
        LexErrModel::InvalidChar { c, line, col } => "Invalid token "@ + seq![c] + " at "@
            + dec_rep(line) + ":"@ + dec_rep(col),
    }
}

/// The first position at or after `i` whose character is not whitespace.
pub open spec fn ws_end(s: Seq<char>, i: int) -> int
    decreases s.len() - i,
{
    if 0 <= i < s.len() && is_whitespace_char(s[i]) {
        ws_end(s, i + 1)
    } else {
        i
    }
}

/// Skipping whitespace moves forward, at most to the end.
pub proof fn lemma_ws_end_bounds(s: Seq<char>, i: int)
    requires
        0 <= i <= s.len(),
    ensures
        i <= ws_end(s, i) <= s.len(),
    decreases s.len() - i,
{
    if i < s.len() && is_whitespace_char(s[i]) {
        lemma_ws_end_bounds(s, i + 1);
    }
}

/// The position of the next newline at or after `i`, or the end.
pub open spec fn line_end(s: Seq<char>, i: int) -> int
    decreases s.len() - i,
{
    if 0 <= i < s.len() && s[i] != '\n' {
        line_end(s, i + 1)
    } else {
        i
    }
}

/// Skipping a line moves forward, at most to the end.
pub proof fn lemma_line_end_bounds(s: Seq<char>, i: int)
    requires
        0 <= i <= s.len(),
    ensures
        i <= line_end(s, i) <= s.len(),
    decreases s.len() - i,
{
    if i < s.len() && s[i] != '\n' {
        lemma_line_end_bounds(s, i + 1);
    }
}

/// The position just past the first `*/` at or after `i`, if the comment
/// closes before the end of the input.
pub open spec fn block_end(s: Seq<char>, i: int) -> Option<int>
    decreases s.len() - i,
{
    if 0 <= i && i + 1 < s.len() {
        if s[i] == '*' && s[i + 1] == '/' {
            Some(i + 2)
        } else {
            block_end(s, i + 1)
        }
    } else {
        None
    }
}

/// A closed block comment ends after where it starts, at most at the end.
pub proof fn lemma_block_end_bounds(s: Seq<char>, i: int)
    requires
        block_end(s, i) is Some,
    ensures
        i + 2 <= block_end(s, i)->0 <= s.len(),
    decreases s.len() - i,
{
    if 0 <= i && i + 1 < s.len() {
        if s[i] == '*' && s[i + 1] == '/' {
        } else {
            lemma_block_end_bounds(s, i + 1);
        }
    }
}

/// The first position at or after `i` whose character cannot continue an
/// identifier.
pub open spec fn ident_end(s: Seq<char>, i: int) -> int
    decreases s.len() - i,
{
    if 0 <= i < s.len() && ident_char(s[i]) {
        ident_end(s, i + 1)
    } else {
        i
    }
}

/// An identifier ends at or after where it starts, at most at the end.
pub proof fn lemma_ident_end_bounds(s: Seq<char>, i: int)
    requires
        0 <= i <= s.len(),
    ensures
        i <= ident_end(s, i) <= s.len(),
    decreases s.len() - i,
{
    if i < s.len() && ident_char(s[i]) {
        lemma_ident_end_bounds(s, i + 1);
    }
}

/// How scanning a string literal body can end: the decoded text and the
/// position just past the closing quote, or a fatal error.
#[verifier::ext_equal]
pub ghost enum StrScan {
    Done { text: Seq<char>, next: int },
    Fail { err: LexErrModel },
}

/// Scans a string literal body from the position after the opening quote:
/// `\n` and `\\` decode to a newline and a backslash, any other escape is
/// fatal, an unescaped newline is fatal, and so is the end of the input
/// before the closing quote.
pub open spec fn str_body(s: Seq<char>, i: int) -> StrScan
    decreases s.len() - i,
{
    if !(0 <= i < s.len()) {
        StrScan::Fail {
            err: LexErrModel::UnterminatedString {
                line: line_at(s, s.len() as int) as nat,
                col: col_at(s, s.len() as int) as nat,
            },
        }
    } else if s[i] == '\n' {
        StrScan::Fail {
            err: LexErrModel::UnexpectedLineBreak {
                line: line_at(s, i) as nat,
                col: col_at(s, i) as nat,
            },
        }
    } else if s[i] == '\\' {
        if i + 1 < s.len() && s[i + 1] == 'n' {
            match str_body(s, i + 2) {
                StrScan::Done { text, next } => StrScan::Done { text: seq!['\n'] + text, next },
                StrScan::Fail { err } => StrScan::Fail { err },
            }
        } else if i + 1 < s.len() && s[i + 1] == '\\' {
            match str_body(s, i + 2) {
                StrScan::Done { text, next } => StrScan::Done { text: seq!['\\'] + text, next },
                StrScan::Fail { err } => StrScan::Fail { err },
            }
        } else {
            StrScan::Fail {
                err: LexErrModel::UnknownEscape {
                    line: line_at(s, i + 1) as nat,
                    col: col_at(s, i + 1) as nat,
                },
            }
        }
    } else if s[i] == '"' {
        StrScan::Done { text: Seq::empty(), next: i + 1 }
    } else {
        match str_body(s, i + 1) {
            StrScan::Done { text, next } => StrScan::Done { text: seq![s[i]] + text, next },
            StrScan::Fail { err } => StrScan::Fail { err },
        }
    }
}

/// A scanned literal ends after where it starts, at most at the end.
pub proof fn lemma_str_body_bounds(s: Seq<char>, i: int)
    requires
        str_body(s, i) is Done,
    ensures
        i < str_body(s, i)->Done_next <= s.len(),
    decreases s.len() - i,
{
    if 0 <= i < s.len() {
        if s[i] == '\n' {
        } else if s[i] == '\\' {
            if i + 1 < s.len() && (s[i + 1] == 'n' || s[i + 1] == '\\') {
                lemma_str_body_bounds(s, i + 2);
            }
        } else if s[i] == '"' {
        } else {
            lemma_str_body_bounds(s, i + 1);
        }
    }
}

/// Whether a character is one of the six one-character separators.
pub open spec fn sep_char(c: char) -> bool {
    c == '(' || c == ')' || c == '{' || c == '}' || c == ';' || c == ','
}

/// How one lexing step can end: a token with its text, start and end
/// positions; the end of the input; or a fatal error.
#[verifier::ext_equal]
pub ghost enum TokenStep {
    Tok { kind: TokenKind, text: Seq<char>, start: int, next: int },
    End,
    Fail { err: LexErrModel },
}

/// One lexing step from position `i`: skip whitespace and comments, then
/// read one token, as the module description lays out.
pub open spec fn token_step(s: Seq<char>, i: int) -> TokenStep
    decreases s.len() - i,
    via token_step_decreases
{
    let j = ws_end(s, i);
    if !(j < s.len()) {
        TokenStep::End
    } else {
        let c = s[j];
        if c == '"' {
            match str_body(s, j + 1) {
                StrScan::Done { text, next } => TokenStep::Tok {
                    kind: TokenKind::StringLiteral,
                    text,
                    start: j,
                    next,
                },
                StrScan::Fail { err } => TokenStep::Fail { err },
            }
        } else if sep_char(c) {
            TokenStep::Tok { kind: TokenKind::Separator, text: seq![c], start: j, next: j + 1 }
        } else if c == '+' || c == '-' {
            if j + 1 < s.len() && s[j + 1] == c {
                TokenStep::Tok { kind: TokenKind::Operator, text: seq![c, c], start: j, next: j + 2 }
            } else if j + 1 < s.len() && s[j + 1] == '=' {
                TokenStep::Tok {
                    kind: TokenKind::Operator,
                    text: seq![c, '='],
                    start: j,
                    next: j + 2,
                }
            } else {
                TokenStep::Tok { kind: TokenKind::Operator, text: seq![c], start: j, next: j + 1 }
            }
        } else if c == '*' {
            if j + 1 < s.len() && s[j + 1] == '=' {
                TokenStep::Tok {
                    kind: TokenKind::Operator,
                    text: seq!['*', '='],
                    start: j,
                    next: j + 2,
                }
            } else {
                TokenStep::Tok { kind: TokenKind::Operator, text: seq!['*'], start: j, next: j + 1 }
            }
        } else if c == '/' {
            if j + 1 < s.len() && s[j + 1] == '/' {
                token_step(s, line_end(s, j + 2))
            } else if j + 1 < s.len() && s[j + 1] == '*' {
                match block_end(s, j + 2) {
                    Some(e) => token_step(s, e),
                    None => TokenStep::Fail { err: LexErrModel::UnterminatedComment },
                }
            } else if j + 1 < s.len() && s[j + 1] == '=' {
                TokenStep::Tok {
                    kind: TokenKind::Operator,
                    text: seq!['/', '='],
                    start: j,
                    next: j + 2,
                }
            } else {
                TokenStep::Tok { kind: TokenKind::Operator, text: seq!['/'], start: j, next: j + 1 }
            }
        } else if is_alphabetic_char(c) {
            let e = ident_end(s, j + 1);
            let text = s.subrange(j, e);
            TokenStep::Tok {
                kind: (if text == "function"@ {
                    TokenKind::Keyword
                } else {
                    TokenKind::Identifier
                }),
                text,
                start: j,
                next: e,
            }
        } else {
            TokenStep::Fail {
                err: LexErrModel::InvalidChar {
                    c,
                    line: line_at(s, j) as nat,
                    col: col_at(s, j) as nat,
                },
            }
        }
    }
}

#[via_fn]
proof fn token_step_decreases(s: Seq<char>, i: int) {
    let j = ws_end(s, i);
    if 0 <= i <= s.len() {
        lemma_ws_end_bounds(s, i);
    }
    if 0 <= j + 2 <= s.len() {
        lemma_line_end_bounds(s, j + 2);
    }
    if block_end(s, j + 2) is Some {
        lemma_block_end_bounds(s, j + 2);
    }
}

/// A produced token starts at or after the scan position and ends past it,
/// at most at the end of the input.
pub proof fn lemma_token_step_bounds(s: Seq<char>, i: int)
    requires
        0 <= i <= s.len(),
        token_step(s, i) is Tok,
    ensures
        i <= token_step(s, i)->start < token_step(s, i)->Tok_next <= s.len(),
        token_step(s, i)->start < s.len(),
        token_step(s, i)->kind != TokenKind::EOF,
    decreases s.len() - i,
{
    let j = ws_end(s, i);
    lemma_ws_end_bounds(s, i);
    if j < s.len() {
        let c = s[j];
        if c == '"' {
            if str_body(s, j + 1) is Done {
                lemma_str_body_bounds(s, j + 1);
            }
        } else if c == '/' && j + 1 < s.len() && s[j + 1] == '/' {
            lemma_line_end_bounds(s, j + 2);
            lemma_token_step_bounds(s, line_end(s, j + 2));
        } else if c == '/' && j + 1 < s.len() && s[j + 1] == '*' {
            if block_end(s, j + 2) is Some {
                lemma_block_end_bounds(s, j + 2);
                lemma_token_step_bounds(s, block_end(s, j + 2)->0);
            }
        } else if !(sep_char(c) || c == '+' || c == '-' || c == '*' || c == '/') && is_alphabetic_char(
            c,
        ) {
            lemma_ident_end_bounds(s, j + 1);
        }
    }
}

/// The end-of-input token, positioned at the end of the source.
pub open spec fn eof_token(s: Seq<char>) -> TokenModel {
    TokenModel {
        kind: TokenKind::EOF,
        text: Seq::empty(),
        line: line_at(s, s.len() as int) as nat,
        col: col_at(s, s.len() as int) as nat,
    }
}

/// The token one lexing step produces, with the position of its first
/// character.
pub open spec fn step_token(s: Seq<char>, st: TokenStep) -> TokenModel {
    TokenModel {
        kind: st->kind,
        text: st->text,
        line: line_at(s, st->start) as nat,
        col: col_at(s, st->start) as nat,
    }
}

/// The whole token sequence of the source from position `i` on: the tokens
/// in order, ending in exactly one end-of-input token, or the first fatal
/// lexical error.
pub open spec fn tokens_from(s: Seq<char>, i: int) -> Result<Seq<TokenModel>, LexErrModel>
    decreases s.len() - i,
    via tokens_from_decreases
{
    if !(0 <= i <= s.len()) {
        Ok(seq![eof_token(s)])
    } else {
        match token_step(s, i) {
            TokenStep::End => Ok(seq![eof_token(s)]),
            TokenStep::Tok { kind, text, start, next } => match tokens_from(s, next) {
                Ok(rest) => Ok(seq![step_token(s, token_step(s, i))] + rest),
                Err(e) => Err(e),
            },
            TokenStep::Fail { err } => Err(err),
        }
    }
}

#[via_fn]
proof fn tokens_from_decreases(s: Seq<char>, i: int) {
    if 0 <= i <= s.len() && token_step(s, i) is Tok {
        lemma_token_step_bounds(s, i);
    }
}

/// A lexed token sequence ends in exactly one end-of-input token: the last
/// token is it, and no earlier one is. The parser relies on this to bound
/// its scan.
pub proof fn lemma_tokens_single_eof(s: Seq<char>, i: int)
    requires
        0 <= i <= s.len(),
        tokens_from(s, i) is Ok,
    ensures
        tokens_from(s, i)->Ok_0.len() >= 1,
        tokens_from(s, i)->Ok_0.last().kind == TokenKind::EOF,
        forall|j: int|
            0 <= j < tokens_from(s, i)->Ok_0.len() - 1 ==> (#[trigger] tokens_from(
                s,
                i,
            )->Ok_0[j]).kind != TokenKind::EOF,
    decreases s.len() - i,
{
    match token_step(s, i) {
        TokenStep::Tok { kind, text, start, next } => {
            lemma_token_step_bounds(s, i);
            lemma_tokens_single_eof(s, next);
            let out = tokens_from(s, i)->Ok_0;
            let rest = tokens_from(s, next)->Ok_0;
            assert forall|j: int| 0 <= j < out.len() - 1 implies (#[trigger] out[j]).kind
                != TokenKind::EOF by {
                if j > 0 {
                    assert(out[j] == rest[j - 1]);
                }
            }
        },
        TokenStep::End => {},
        TokenStep::Fail { err } => {},
    }
}

/// The lexer: a character stream and the sticky end-of-input flag. Once
/// the end-of-input token has been emitted, the flag is set and the lexer
/// yields nothing further — the flag is held, not re-derived from the
/// stream.
pub struct Tokenizer {
    pub stream: CharStream,
    pub eof: bool,
}

impl Tokenizer {
    /// The source text being lexed.
    pub open spec fn src(&self) -> Seq<char> {
        self.stream.data@
    }

    /// The stream position agrees with its line and column.
    pub open spec fn wf(&self) -> bool {
        self.stream.wf()
    }

    /// A lexer over the given source text.
    pub fn new(code: &str) -> (r: Tokenizer)
        requires
            code@.len() < usize::MAX,
        ensures
            r.wf(),
            r.src() == code@,
            r.stream.pos == 0,
            !r.eof,
    {
        Tokenizer { stream: CharStream::new(code), eof: false }
    }

    /// A lexer over an existing stream, wherever it stands.
    pub fn from_stream(stream: CharStream) -> (r: Tokenizer)
        requires
            stream.wf(),
        ensures
            r.wf(),
            r.stream == stream,
            !r.eof,
    {
        Tokenizer { stream, eof: false }
    }

    /// Skips whitespace characters.
    #[verifier::loop_isolation(false)]
    fn skip_whitespaces(&mut self)
        requires
            old(self).wf(),
        ensures
            final(self).wf(),
            final(self).stream.data == old(self).stream.data,
            final(self).eof == old(self).eof,
            final(self).stream.pos as int == ws_end(
                old(self).stream.data@,
                old(self).stream.pos as int,
            ),
    {
        let ghost s = self.stream.data@;
        let ghost p0 = self.stream.pos as int;
        let mut done = false;
        while !done
            invariant
                self.wf(),
                self.stream.data == old(self).stream.data,
                self.stream.data@ == s,
                self.eof == old(self).eof,
                !done ==> ws_end(s, p0) == ws_end(s, self.stream.pos as int),
                done ==> self.stream.pos as int == ws_end(s, p0),
            decreases s.len() - self.stream.pos + (if done {
                0int
            } else {
                1int
            }),
        {
            match self.stream.peek() {
                Some(c) => {
                    if whitespace_char(c) {
                        let _ = self.stream.next();
                    } else {
                        done = true;
                    }
                },
                None => {
                    done = true;
                },
            }
        }
    }

    /// Skips to the end of the current line, leaving the newline itself in
    /// the stream; used after `//`.
    #[verifier::loop_isolation(false)]
    fn skip_line(&mut self)
        requires
            old(self).wf(),
        ensures
            final(self).wf(),
            final(self).stream.data == old(self).stream.data,
            final(self).eof == old(self).eof,
            final(self).stream.pos as int == line_end(
                old(self).stream.data@,
                old(self).stream.pos as int,
            ),
    {
        let ghost s = self.stream.data@;
        let ghost p0 = self.stream.pos as int;
        let mut done = false;
        while !done
            invariant
                self.wf(),
                self.stream.data == old(self).stream.data,
                self.stream.data@ == s,
                self.eof == old(self).eof,
                !done ==> line_end(s, p0) == line_end(s, self.stream.pos as int),
                done ==> self.stream.pos as int == line_end(s, p0),
            decreases s.len() - self.stream.pos + (if done {
                0int
            } else {
                1int
            }),
        {
            match self.stream.peek() {
                Some(c) => {
                    if c != '\n' {
                        let _ = self.stream.next();
                    } else {
                        done = true;
                    }
                },
                None => {
                    done = true;
                },
            }
        }
    }

    /// Skips a block comment from the position just after `/*`, consuming
    /// through the matching `*/`; the end of the input before it is fatal.
    #[verifier::loop_isolation(false)]
    fn skip_block_comment(&mut self) -> (r: Result<(), String>)
        requires
            old(self).wf(),
        ensures
            final(self).wf(),
            final(self).stream.data == old(self).stream.data,
            final(self).eof == old(self).eof,
            match block_end(old(self).stream.data@, old(self).stream.pos as int) {
                Some(e) => r is Ok && final(self).stream.pos as int == e,
                None => r matches Err(m) && m@ == lex_error_message(
                    LexErrModel::UnterminatedComment,
                ),
            },
    {
        let ghost s = self.stream.data@;
        let ghost p0 = self.stream.pos as int;
        loop
            invariant
                self.wf(),
                self.stream.data == old(self).stream.data,
                self.stream.data@ == s,
                self.eof == old(self).eof,
                p0 <= self.stream.pos as int,
                block_end(s, p0) == block_end(s, self.stream.pos as int),
            decreases s.len() - self.stream.pos,
        {
            let ghost p = self.stream.pos as int;
            match self.stream.peek() {
                None => {
                    return Err("No */ found until EOF".to_owned());
                },
                Some(c) => {
                    let _ = self.stream.next();
                    if c == '*' {
                        match self.stream.peek() {
                            Some(c2) => {
                                if c2 == '/' {
                                    let _ = self.stream.next();
                                    proof {
                                        assert(block_end(s, p) == Some(p + 2));
                                    }
                                    return Ok(());
                                }
                            },
                            None => {
                                return Err("No */ found until EOF".to_owned());
                            },
                        }
                    }
                },
            }
        }
    }
    /// Reads an identifier: the alphabetic character ahead and every
    /// following letter, digit or underscore. The text `function` is the
    /// keyword; anything else is an identifier.
    #[verifier::loop_isolation(false)]
    fn parse_identifier(&mut self) -> (t: Token)
        requires
            old(self).wf(),
            old(self).stream.pos < old(self).stream.data@.len(),
            is_alphabetic_char(old(self).stream.data@[old(self).stream.pos as int]),
        ensures
            final(self).wf(),
            final(self).stream.data == old(self).stream.data,
            final(self).eof == old(self).eof,
            ({
                let s = old(self).stream.data@;
                let p0 = old(self).stream.pos as int;
                let e = ident_end(s, p0 + 1);
                &&& final(self).stream.pos as int == e
                &&& t@ == (TokenModel {
                    kind: (if s.subrange(p0, e) == "function"@ {
                        TokenKind::Keyword
                    } else {
                        TokenKind::Identifier
                    }),
                    text: s.subrange(p0, e),
                    line: line_at(s, p0) as nat,
                    col: col_at(s, p0) as nat,
                })
            }),
    {
        let ghost s = self.stream.data@;
        let ghost p0 = self.stream.pos as int;
        let line = self.stream.line();
        let col = self.stream.col();
        let mut text: Vec<char> = Vec::new();
        let c0 = self.stream.next().unwrap();
        text.push(c0);
        proof {
            assert(text@ =~= s.subrange(p0, p0 + 1));
        }
        let mut done = false;
        while !done
            invariant
                self.wf(),
                self.stream.data == old(self).stream.data,
                self.stream.data@ == s,
                self.eof == old(self).eof,
                p0 + 1 <= self.stream.pos as int <= s.len(),
                text@ == s.subrange(p0, self.stream.pos as int),
                !done ==> ident_end(s, p0 + 1) == ident_end(s, self.stream.pos as int),
                done ==> self.stream.pos as int == ident_end(s, p0 + 1),
            decreases s.len() - self.stream.pos + (if done {
                0int
            } else {
                1int
            }),
        {
            let ghost p = self.stream.pos as int;
            match self.stream.peek() {
                Some(c) => {
                    if is_identifier_char(c) {
                        let _ = self.stream.next();
                        text.push(c);
                        proof {
                            assert(text@ =~= s.subrange(p0, p + 1));
                        }
                    } else {
                        done = true;
                    }
                },
                None => {
                    done = true;
                },
            }
        }
        let word = chars_to_string(&text);
        let kind = if str_eq(word.as_str(), "function") {
            TokenKind::Keyword
        } else {
            TokenKind::Identifier
        };
        Token { kind, text: word, line, col }
    }

    /// Reads a string literal: the quote ahead, the escaped body, the
    /// closing quote. The token text holds the decoded characters.
    #[verifier::loop_isolation(false)]
    #[verifier::rlimit(60)]
    fn parse_string_literal(&mut self) -> (r: Result<Token, String>)
        requires
            old(self).wf(),
            old(self).stream.pos < old(self).stream.data@.len(),
            old(self).stream.data@[old(self).stream.pos as int] == '"',
        ensures
            final(self).wf(),
            final(self).stream.data == old(self).stream.data,
            final(self).eof == old(self).eof,
            ({
                let s = old(self).stream.data@;
                let p0 = old(self).stream.pos as int;
                match str_body(s, p0 + 1) {
                    StrScan::Done { text, next } => r matches Ok(t) && t@ == (TokenModel {
                        kind: TokenKind::StringLiteral,
                        text,
                        line: line_at(s, p0) as nat,
                        col: col_at(s, p0) as nat,
                    }) && final(self).stream.pos as int == next,
                    StrScan::Fail { err } => r matches Err(m) && m@ == lex_error_message(err),
                }
            }),
    {
        let ghost s = self.stream.data@;
        let ghost p0 = self.stream.pos as int;
        let line = self.stream.line();
        let col = self.stream.col();
        let _ = self.stream.next();
        let mut text: Vec<char> = Vec::new();
        loop
            invariant
                self.wf(),
                self.stream.data == old(self).stream.data,
                self.stream.data@ == s,
                self.eof == old(self).eof,
                p0 + 1 <= self.stream.pos as int <= s.len(),
                (match str_body(s, self.stream.pos as int) {
                    StrScan::Done { text: t2, next } => str_body(s, p0 + 1) == (StrScan::Done {
                        text: text@ + t2,
                        next,
                    }),
                    StrScan::Fail { err } => str_body(s, p0 + 1) == (StrScan::Fail { err }),
                }),
            decreases s.len() - self.stream.pos,
        {
            let ghost p = self.stream.pos as int;
            let ghost acc = text@;
            match self.stream.peek() {
                None => {
                    let mut m = "Expecting \" at ".to_owned();
                    m.append(usize_to_string(self.stream.line()).as_str());
                    m.append(":");
                    m.append(usize_to_string(self.stream.col()).as_str());
                    proof {
                        assert(m@ =~= lex_error_message(str_body(s, p)->Fail_err));
                    }
                    return Err(m);
                },
                Some(c) => {
                    if c == '\n' {
                        let mut m = "Unexpected line break at ".to_owned();
                        m.append(usize_to_string(self.stream.line()).as_str());
                        m.append(":");
                        m.append(usize_to_string(self.stream.col()).as_str());
                        proof {
                            assert(m@ =~= lex_error_message(str_body(s, p)->Fail_err));
                        }
                        return Err(m);
                    } else if c == '\\' {
                        let _ = self.stream.next();
                        let esc = self.stream.peek();
                        match esc {
                            Some(c2) => {
                                if c2 == 'n' {
                                    let _ = self.stream.next();
                                    text.push('\n');
                                    proof {
                                        assert(text@ =~= acc + seq!['\n']);
                                        if str_body(s, p + 2) is Done {
                                            assert(acc + (seq!['\n'] + str_body(
                                                s,
                                                p + 2,
                                            )->Done_text) =~= text@ + str_body(
                                                s,
                                                p + 2,
                                            )->Done_text);
                                        }
                                    }
                                } else if c2 == '\\' {
                                    let _ = self.stream.next();
                                    text.push('\\');
                                    proof {
                                        assert(text@ =~= acc + seq!['\\']);
                                        if str_body(s, p + 2) is Done {
                                            assert(acc + (seq!['\\'] + str_body(
                                                s,
                                                p + 2,
                                            )->Done_text) =~= text@ + str_body(
                                                s,
                                                p + 2,
                                            )->Done_text);
                                        }
                                    }
                                } else {
                                    let mut m = "Unexpected \\ at ".to_owned();
                                    m.append(usize_to_string(self.stream.line()).as_str());
                                    m.append(":");
                                    m.append(usize_to_string(self.stream.col()).as_str());
                                    proof {
                                        assert(m@ =~= lex_error_message(str_body(s, p)->Fail_err));
                                    }
                                    return Err(m);
                                }
                            },
                            None => {
                                let mut m = "Unexpected \\ at ".to_owned();
                                m.append(usize_to_string(self.stream.line()).as_str());
                                m.append(":");
                                m.append(usize_to_string(self.stream.col()).as_str());
                                proof {
                                    assert(m@ =~= lex_error_message(str_body(s, p)->Fail_err));
                                }
                                return Err(m);
                            },
                        }
                    } else if c == '"' {
                        let _ = self.stream.next();
                        let word = chars_to_string(&text);
                        let t = Token { kind: TokenKind::StringLiteral, text: word, line, col };
                        proof {
                            assert(str_body(s, p) == (StrScan::Done {
                                text: Seq::<char>::empty(),
                                next: p + 1,
                            }));
                            assert(text@ + Seq::<char>::empty() =~= text@);
                        }
                        return Ok(t);
                    } else {
                        let _ = self.stream.next();
                        text.push(c);
                        proof {
                            assert(text@ =~= acc + seq![c]);
                            if str_body(s, p + 1) is Done {
                                assert(acc + (seq![c] + str_body(s, p + 1)->Done_text) =~= text@
                                    + str_body(s, p + 1)->Done_text);
                            }
                        }
                    }
                },
            }
        }
    }

    /// Produces the next token, skipping whitespace and comments before it.
    /// The end of the input yields the end-of-input token exactly once;
    /// after that the lexer yields nothing. A malformed literal, an
    /// unterminated block comment or an unrecognised character is a fatal
    /// error carrying its position.
    #[verifier::loop_isolation(false)]
    #[verifier::rlimit(100)]
    pub fn next_token(&mut self) -> (r: Result<Option<Token>, DecodeError>)
        requires
            old(self).wf(),
        ensures
            final(self).wf(),
            final(self).stream.data == old(self).stream.data,
            old(self).eof ==> (r matches Ok(t) && t is None && final(self).stream
                == old(self).stream && final(self).eof),
            !old(self).eof ==> ({
                let s = old(self).stream.data@;
                let p0 = old(self).stream.pos as int;
                match token_step(s, p0) {
                    TokenStep::Tok { kind, text, start, next } => (r matches Ok(Some(tk))
                        && tk@ == step_token(s, token_step(s, p0))
                        && final(self).stream.pos as int == next && !final(self).eof),
                    TokenStep::End => (r matches Ok(Some(tk)) && tk@ == eof_token(s)
                        && final(self).eof && final(self).stream.pos as int == s.len()),
                    TokenStep::Fail { err } => (r matches Err(d) && d is Fatal && d->Fatal_0@
                        == lex_error_message(err)),
                }
            }),
    {
        if self.eof {
            return Ok(None);
        }
        let ghost s = self.stream.data@;
        let ghost p0 = self.stream.pos as int;
        loop
            invariant
                self.wf(),
                self.stream.data == old(self).stream.data,
                self.stream.data@ == s,
                !self.eof,
                token_step(s, p0) == token_step(s, self.stream.pos as int),
            decreases s.len() - self.stream.pos,
        {
            let ghost head = self.stream.pos as int;
            self.skip_whitespaces();
            let ghost j = self.stream.pos as int;
            proof {
                assert(j == ws_end(s, head));
                lemma_ws_end_bounds(s, head);
            }
            match self.stream.peek() {
                None => {
                    let line = self.stream.line();
                    let col = self.stream.col();
                    self.eof = true;
                    proof {
                        assert(token_step(s, head) is End);
                    }
                    return Ok(Some(Token { kind: TokenKind::EOF, text: String::new(), line, col }));
                },
                Some(c) => {
                    let line = self.stream.line();
                    let col = self.stream.col();
                    if c == '"' {
                        let res = self.parse_string_literal();
                        match res {
                            Ok(t) => {
                                return Ok(Some(t));
                            },
                            Err(m) => {
                                return Err(DecodeError::Fatal(m));
                            },
                        }
                    } else if c == '(' || c == ')' || c == '{' || c == '}' || c == ';' || c == ',' {
                        let _ = self.stream.next();
                        let word = chars_to_string(&vec![c]);
                        proof {
                            assert(word@ =~= seq![c]);
                        }
                        return Ok(Some(Token { kind: TokenKind::Separator, text: word, line, col }));
                    } else if c == '+' || c == '-' || c == '*' {
                        let _ = self.stream.next();
                        let second = self.stream.peek();
                        match second {
                            Some(c2) => {
                                if c != '*' && c2 == c {
                                    let _ = self.stream.next();
                                    let word = chars_to_string(&vec![c, c]);
                                    proof {
                                        assert(word@ =~= seq![c, c]);
                                    }
                                    return Ok(Some(
                                        Token { kind: TokenKind::Operator, text: word, line, col },
                                    ));
                                } else if c2 == '=' {
                                    let _ = self.stream.next();
                                    let word = chars_to_string(&vec![c, '=']);
                                    proof {
                                        assert(word@ =~= seq![c, '=']);
                                    }
                                    return Ok(Some(
                                        Token { kind: TokenKind::Operator, text: word, line, col },
                                    ));
                                } else {
                                    let word = chars_to_string(&vec![c]);
                                    proof {
                                        assert(word@ =~= seq![c]);
                                    }
                                    return Ok(Some(
                                        Token { kind: TokenKind::Operator, text: word, line, col },
                                    ));
                                }
                            },
                            None => {
                                let word = chars_to_string(&vec![c]);
                                proof {
                                    assert(word@ =~= seq![c]);
                                }
                                return Ok(Some(
                                    Token { kind: TokenKind::Operator, text: word, line, col },
                                ));
                            },
                        }
                    } else if c == '/' {
                        let _ = self.stream.next();
                        let second = self.stream.peek();
                        match second {
                            Some(c2) => {
                                if c2 == '/' {
                                    self.skip_line();
                                    proof {
                                        assert(line_end(s, j + 1) == line_end(s, j + 2));
                                        assert(token_step(s, head) == token_step(
                                            s,
                                            self.stream.pos as int,
                                        ));
                                        lemma_line_end_bounds(s, j + 2);
                                    }
                                } else if c2 == '*' {
                                    let _ = self.stream.next();
                                    let res = self.skip_block_comment();
                                    match res {
                                        Ok(()) => {
                                            proof {
                                                assert(token_step(s, head) == token_step(
                                                    s,
                                                    self.stream.pos as int,
                                                ));
                                                lemma_block_end_bounds(s, j + 2);
                                            }
                                        },
                                        Err(m) => {
                                            return Err(DecodeError::Fatal(m));
                                        },
                                    }
                                } else if c2 == '=' {
                                    let _ = self.stream.next();
                                    let word = chars_to_string(&vec![c, '=']);
                                    proof {
                                        assert(word@ =~= seq!['/', '=']);
                                    }
                                    return Ok(Some(
                                        Token { kind: TokenKind::Operator, text: word, line, col },
                                    ));
                                } else {
                                    let word = chars_to_string(&vec![c]);
                                    proof {
                                        assert(word@ =~= seq!['/']);
                                    }
                                    return Ok(Some(
                                        Token { kind: TokenKind::Operator, text: word, line, col },
                                    ));
                                }
                            },
                            None => {
                                let word = chars_to_string(&vec![c]);
                                proof {
                                    assert(word@ =~= seq!['/']);
                                }
                                return Ok(Some(
                                    Token { kind: TokenKind::Operator, text: word, line, col },
                                ));
                            },
                        }
                    } else if alphabetic_char(c) {
                        let t = self.parse_identifier();
                        return Ok(Some(t));
                    } else {
                        let mut m = "Invalid token ".to_owned();
                        m.append(chars_to_string(&vec![c]).as_str());
                        m.append(" at ");
                        m.append(usize_to_string(line).as_str());
                        m.append(":");
                        m.append(usize_to_string(col).as_str());
                        proof {
                            assert(m@ =~= lex_error_message(token_step(s, head)->Fail_err));
                        }
                        return Err(DecodeError::Fatal(m));
                    }
                },
            }
        }
    }
}

/// Lexes a whole source text: the tokens in order, ending in exactly one
/// end-of-input token, or the first fatal lexical error.
#[verifier::loop_isolation(false)]
pub fn tokenize(code: &str) -> (r: Result<Vec<Token>, DecodeError>)
    requires
        code@.len() < usize::MAX,
    ensures
        match tokens_from(code@, 0) {
            Ok(models) => (r matches Ok(v) && v@.map_values(|t: Token| t@) == models),
            Err(e) => (r matches Err(d) && d is Fatal && d->Fatal_0@ == lex_error_message(e)),
        },
{
    let ghost s = code@;
    let mut tz = Tokenizer::new(code);
    let mut out: Vec<Token> = Vec::new();
    let mut done = false;
    while !done
        invariant
            tz.wf(),
            tz.src() == s,
            !done ==> !tz.eof,
            !done ==> (match tokens_from(s, tz.stream.pos as int) {
                Ok(models) => tokens_from(s, 0) == Ok::<_, LexErrModel>(
                    out@.map_values(|t: Token| t@) + models,
                ),
                Err(e) => tokens_from(s, 0) == Err::<Seq<TokenModel>, _>(e),
            }),
            done ==> tokens_from(s, 0) == Ok::<_, LexErrModel>(out@.map_values(|t: Token| t@)),
        decreases s.len() - tz.stream.pos + (if done {
            0int
        } else {
            1int
        }),
    {
        let ghost p = tz.stream.pos as int;
        let ghost dv_before = out@.map_values(|t: Token| t@);
        let res = tz.next_token();
        match res {
            Ok(Some(t)) => {
                let is_eof = match t.kind {
                    TokenKind::EOF => true,
                    _ => false,
                };
                let ghost t_model = t@;
                out.push(t);
                proof {
                    assert(out@.map_values(|t: Token| t@) =~= dv_before + seq![t_model]);
                    match token_step(s, p) {
                        TokenStep::Tok { kind, text, start, next } => {
                            lemma_token_step_bounds(s, p);
                            assert(!is_eof);
                            if tokens_from(s, next) is Ok {
                                assert(dv_before + (seq![t_model] + tokens_from(
                                    s,
                                    next,
                                )->Ok_0) =~= (dv_before + seq![t_model]) + tokens_from(
                                    s,
                                    next,
                                )->Ok_0);
                            }
                        },
                        TokenStep::End => {
                            assert(tokens_from(s, p) == Ok::<_, LexErrModel>(seq![eof_token(s)]));
                            assert(dv_before + seq![eof_token(s)] =~= out@.map_values(
                                |t: Token| t@,
                            ));
                        },
                        TokenStep::Fail { err } => {
                            assert(false);
                        },
                    }
                }
                if is_eof {
                    done = true;
                }
            },
            Ok(None) => {
                proof {
                    assert(false);
                }
            },
            Err(d) => {
                return Err(d);
            },
        }
    }
    Ok(out)
}

} // verus!
