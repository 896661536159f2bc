//! The recursive-descent parser: turns a token sequence into a program.
//!
//! Statement dispatch is lookahead-directed: one peeked token decides
//! whether a statement is a function declaration (the keyword `function`),
//! a function call (an identifier), or a fatal "unknown statement" error.
//! The two statement forms start with disjoint tokens, so no backtracking
//! is needed. The first fatal error aborts the whole parse; there is no
//! recovery.

use crate::error::DecodeError;
use crate::grammar::{CallModel, DeclModel, FunctionBody, FunctionCall, FunctionDecl, StmtModel,
    Statement};
use crate::prog::Prog;
use crate::text::{dec_rep, str_eq, usize_to_string};
use crate::token::{Token, TokenKind, TokenModel};
use vstd::prelude::*;
use vstd::string::StringExecFns;

verus! {

broadcast use vstd::string::group_string_axioms;

/// What a parse can fail with: a statement starting with neither the
/// keyword nor an identifier, or an expected construct not matching the
/// token found.
#[verifier::ext_equal]
pub ghost enum ParseErrModel {
    UnknownStatement,
    Expected { what: Seq<char>, found: TokenModel },
}

/// The message each parse error carries: the expected construct and the
/// token actually found, with its position.
pub open spec fn parse_error_message(e: ParseErrModel) -> Seq<char> {
    match e {
        ParseErrModel::UnknownStatement => "unknown statement"@,
        ParseErrModel::Expected { what, found } => "expect "@ + what + " but got '"@ + found.text
            + "' at "@ + dec_rep(found.line) + ":"@ + dec_rep(found.col),
    }
}

/// The token the parser sees at a cursor position: past the end it sees the
/// end of the input.
pub open spec fn peek_tok(toks: Seq<TokenModel>, i: int) -> TokenModel {
    if 0 <= i < toks.len() {
        toks[i]
    } else {
        TokenModel { kind: TokenKind::EOF, text: Seq::empty(), line: 0, col: 0 }
    }
}

/// Whether a token is the given one-character separator.
pub open spec fn is_sep(t: TokenModel, text: Seq<char>) -> bool {
    t.kind == TokenKind::Separator && t.text == text
}

/// Parses `parameterList? ")"`: zero or more string literals separated by
/// commas, then the closing parenthesis. Returns the argument texts and the
/// cursor just past the `)`.
pub open spec fn parse_params_spec(toks: Seq<TokenModel>, i: int) -> Result<(Seq<Seq<char>>, int), ParseErrModel>
    decreases toks.len() - i,
{
    let t = peek_tok(toks, i);
    if is_sep(t, ")"@) {
        Ok((Seq::empty(), i + 1))
    } else if t.kind != TokenKind::StringLiteral {
        Err(ParseErrModel::Expected { what: "string parameter"@, found: t })
    } else {
        let t2 = peek_tok(toks, i + 1);
        if is_sep(t2, ")"@) {
            Ok((seq![t.text], i + 2))
        } else if is_sep(t2, ","@) {
            match parse_params_spec(toks, i + 2) {
                Ok((rest, j)) => Ok((seq![t.text] + rest, j)),
                Err(e) => Err(e),
            }
        } else {
            Err(ParseErrModel::Expected { what: "Separator ',' or ')'"@, found: t2 })
        }
    }
}

/// A successful parameter parse moves the cursor forward and never past the
/// end of the tokens.
pub proof fn lemma_parse_params_bounds(toks: Seq<TokenModel>, i: int)
    requires
        parse_params_spec(toks, i) is Ok,
    ensures
        i < parse_params_spec(toks, i)->Ok_0.1 <= toks.len(),
    decreases toks.len() - i,
{
    let t = peek_tok(toks, i);
    if is_sep(t, ")"@) {
    } else if t.kind == TokenKind::StringLiteral {
        let t2 = peek_tok(toks, i + 1);
        if is_sep(t2, ")"@) {
        } else if is_sep(t2, ","@) {
            lemma_parse_params_bounds(toks, i + 2);
        }
    }
}

/// Parses `functionCall = Identifier "(" parameterList? ")" ";"`. Returns
/// the unresolved call and the cursor just past the `;`.
pub open spec fn parse_call_spec(toks: Seq<TokenModel>, i: int) -> Result<(CallModel, int), ParseErrModel> {
    let t = peek_tok(toks, i);
    if t.kind != TokenKind::Identifier {
        Err(ParseErrModel::Expected { what: "Identifier"@, found: t })
    } else {
        let t1 = peek_tok(toks, i + 1);
        if !is_sep(t1, "("@) {
            Err(ParseErrModel::Expected { what: "Separator '('"@, found: t1 })
        } else {
            match parse_params_spec(toks, i + 2) {
                Ok((params, j)) => {
                    let t2 = peek_tok(toks, j);
                    if is_sep(t2, ";"@) {
                        Ok((CallModel { name: t.text, params, binding: None }, j + 1))
                    } else {
                        Err(ParseErrModel::Expected { what: "Separator ';'"@, found: t2 })
                    }
                },
                Err(e) => Err(e),
            }
        }
    }
}

/// A successful call parse moves the cursor forward and never past the end
/// of the tokens.
pub proof fn lemma_parse_call_bounds(toks: Seq<TokenModel>, i: int)
    requires
        parse_call_spec(toks, i) is Ok,
    ensures
        i < parse_call_spec(toks, i)->Ok_0.1 <= toks.len(),
{
    lemma_parse_params_bounds(toks, i + 2);
}

/// Parses `functionBody = "{" functionCall* "}"` from the position after
/// the `{`: calls while an identifier is ahead, the closing brace ends the
/// body, anything else is fatal.
pub open spec fn parse_body_items_spec(toks: Seq<TokenModel>, i: int) -> Result<(Seq<CallModel>, int), ParseErrModel>
    decreases toks.len() - i,
    via parse_body_items_spec_decreases
{
    let t = peek_tok(toks, i);
    if is_sep(t, "}"@) {
        Ok((Seq::empty(), i + 1))
    } else if t.kind == TokenKind::Identifier {
        match parse_call_spec(toks, i) {
            Ok((c, j)) => match parse_body_items_spec(toks, j) {
                Ok((rest, k)) => Ok((seq![c] + rest, k)),
                Err(e) => Err(e),
            },
            Err(e) => Err(e),
        }
    } else {
        Err(ParseErrModel::Expected { what: "Separator '}'"@, found: t })
    }
}

#[via_fn]
proof fn parse_body_items_spec_decreases(toks: Seq<TokenModel>, i: int) {
    if parse_call_spec(toks, i) is Ok {
        lemma_parse_call_bounds(toks, i);
    }
}

/// Parses a whole function body, starting at the `{`.
pub open spec fn parse_body_spec(toks: Seq<TokenModel>, i: int) -> Result<(Seq<CallModel>, int), ParseErrModel> {
    let t = peek_tok(toks, i);
    if !is_sep(t, "{"@) {
        Err(ParseErrModel::Expected { what: "Separator '{'"@, found: t })
    } else {
        parse_body_items_spec(toks, i + 1)
    }
}

/// A successful body parse moves the cursor forward and never past the end
/// of the tokens.
pub proof fn lemma_parse_body_bounds(toks: Seq<TokenModel>, i: int)
    requires
        parse_body_spec(toks, i) is Ok,
    ensures
        i < parse_body_spec(toks, i)->Ok_0.1 <= toks.len(),
{
    lemma_parse_body_items_bounds(toks, i + 1);
}

proof fn lemma_parse_body_items_bounds(toks: Seq<TokenModel>, i: int)
    requires
        parse_body_items_spec(toks, i) is Ok,
    ensures
        i < parse_body_items_spec(toks, i)->Ok_0.1 <= toks.len(),
    decreases toks.len() - i,
{
    let t = peek_tok(toks, i);
    if is_sep(t, "}"@) {
    } else if t.kind == TokenKind::Identifier {
        lemma_parse_call_bounds(toks, i);
        lemma_parse_body_items_bounds(toks, parse_call_spec(toks, i)->Ok_0.1);
    }
}

/// Parses `functionDecl = "function" Identifier "(" ")" functionBody`,
/// starting at the keyword.
pub open spec fn parse_decl_spec(toks: Seq<TokenModel>, i: int) -> Result<(DeclModel, int), ParseErrModel> {
    let t = peek_tok(toks, i);
    if !(t.kind == TokenKind::Keyword && t.text == "function"@) {
        Err(ParseErrModel::Expected { what: "Keyword 'function'"@, found: t })
    } else {
        parse_decl_tail_spec(toks, i)
    }
}

/// The rest of a declaration, after the keyword has been seen.
pub open spec fn parse_decl_tail_spec(toks: Seq<TokenModel>, i: int) -> Result<(DeclModel, int), ParseErrModel> {
    let t1 = peek_tok(toks, i + 1);
    if t1.kind != TokenKind::Identifier {
        Err(ParseErrModel::Expected { what: "Identifier"@, found: t1 })
    } else {
        let t2 = peek_tok(toks, i + 2);
        if !is_sep(t2, "("@) {
            Err(ParseErrModel::Expected { what: "Separator '('"@, found: t2 })
        } else {
            let t3 = peek_tok(toks, i + 3);
            if !is_sep(t3, ")"@) {
                Err(ParseErrModel::Expected { what: "Separator ')'"@, found: t3 })
            } else {
                match parse_body_spec(toks, i + 4) {
                    Ok((body, j)) => Ok((DeclModel { name: t1.text, body }, j)),
                    Err(e) => Err(e),
                }
            }
        }
    }
}

/// A successful declaration parse moves the cursor forward and never past
/// the end of the tokens.
pub proof fn lemma_parse_decl_bounds(toks: Seq<TokenModel>, i: int)
    requires
        parse_decl_spec(toks, i) is Ok,
    ensures
        i < parse_decl_spec(toks, i)->Ok_0.1 <= toks.len(),
{
    lemma_parse_body_bounds(toks, i + 4);
}

/// Parses `program = (functionDecl | functionCall)*` until the end of the
/// input: the keyword starts a declaration, an identifier starts a call,
/// anything else is an unknown statement.
pub open spec fn parse_stmts_spec(toks: Seq<TokenModel>, i: int) -> Result<(Seq<StmtModel>, int), ParseErrModel>
    decreases toks.len() - i,
    via parse_stmts_spec_decreases
{
    let t = peek_tok(toks, i);
    if t.kind == TokenKind::EOF {
        Ok((Seq::empty(), i))
    } else if t.kind == TokenKind::Keyword && t.text == "function"@ {
        match parse_decl_spec(toks, i) {
            Ok((d, j)) => match parse_stmts_spec(toks, j) {
                Ok((rest, k)) => Ok((seq![StmtModel::Decl(d)] + rest, k)),
                Err(e) => Err(e),
            },
            Err(e) => Err(e),
        }
    } else if t.kind == TokenKind::Identifier {
        match parse_call_spec(toks, i) {
            Ok((c, j)) => match parse_stmts_spec(toks, j) {
                Ok((rest, k)) => Ok((seq![StmtModel::Call(c)] + rest, k)),
                Err(e) => Err(e),
            },
            Err(e) => Err(e),
        }
    } else {
        Err(ParseErrModel::UnknownStatement)
    }
}

#[via_fn]
proof fn parse_stmts_spec_decreases(toks: Seq<TokenModel>, i: int) {
    if parse_decl_spec(toks, i) is Ok {
        lemma_parse_decl_bounds(toks, i);
    }
    if parse_call_spec(toks, i) is Ok {
        lemma_parse_call_bounds(toks, i);
    }
}

/// What parsing a whole token sequence yields: the statements of the
/// program, or the first fatal error.
pub open spec fn parse_prog_spec(toks: Seq<TokenModel>) -> Result<Seq<StmtModel>, ParseErrModel> {
    match parse_stmts_spec(toks, 0) {
        Ok((stmts, _)) => Ok(stmts),
        Err(e) => Err(e),
    }
}

/// A parsed program has no bindings set: resolution comes later.
pub proof fn lemma_parse_unbound(toks: Seq<TokenModel>)
    requires
        parse_prog_spec(toks) is Ok,
    ensures
        crate::prog::prog_unbound(parse_prog_spec(toks)->Ok_0),
{
    lemma_parse_stmts_unbound(toks, 0);
}

proof fn lemma_parse_calls_unbound(toks: Seq<TokenModel>, i: int)
    requires
        parse_body_items_spec(toks, i) is Ok,
    ensures
        forall|j: int|
            0 <= j < parse_body_items_spec(toks, i)->Ok_0.0.len() ==> crate::prog::call_unbound(
                #[trigger] parse_body_items_spec(toks, i)->Ok_0.0[j],
            ),
    decreases toks.len() - i,
{
    let t = peek_tok(toks, i);
    if is_sep(t, "}"@) {
    } else if t.kind == TokenKind::Identifier {
        lemma_parse_call_bounds(toks, i);
        let j = parse_call_spec(toks, i)->Ok_0.1;
        lemma_parse_calls_unbound(toks, j);
        let out = parse_body_items_spec(toks, i)->Ok_0.0;
        let rest = parse_body_items_spec(toks, j)->Ok_0.0;
        assert forall|q: int| 0 <= q < out.len() implies crate::prog::call_unbound(
            #[trigger] out[q],
        ) by {
            if q > 0 {
                assert(out[q] == rest[q - 1]);
            }
        }
    }
}

proof fn lemma_parse_stmts_unbound(toks: Seq<TokenModel>, i: int)
    requires
        parse_stmts_spec(toks, i) is Ok,
    ensures
        forall|j: int|
            0 <= j < parse_stmts_spec(toks, i)->Ok_0.0.len() ==> crate::prog::stmt_unbound(
                #[trigger] parse_stmts_spec(toks, i)->Ok_0.0[j],
            ),
    decreases toks.len() - i,
{
    let t = peek_tok(toks, i);
    if t.kind == TokenKind::EOF {
    } else if t.kind == TokenKind::Keyword && t.text == "function"@ {
        lemma_parse_decl_bounds(toks, i);
        let j = parse_decl_spec(toks, i)->Ok_0.1;
        lemma_parse_stmts_unbound(toks, j);
        lemma_parse_body_bounds(toks, i + 4);
        lemma_parse_calls_unbound(toks, i + 5);
        let out = parse_stmts_spec(toks, i)->Ok_0.0;
        let rest = parse_stmts_spec(toks, j)->Ok_0.0;
        assert forall|q: int| 0 <= q < out.len() implies crate::prog::stmt_unbound(
            #[trigger] out[q],
        ) by {
            if q > 0 {
                assert(out[q] == rest[q - 1]);
            } else {
                assert(out[0] == StmtModel::Decl(parse_decl_spec(toks, i)->Ok_0.0));
            }
        }
    } else if t.kind == TokenKind::Identifier {
        lemma_parse_call_bounds(toks, i);
        let j = parse_call_spec(toks, i)->Ok_0.1;
        lemma_parse_stmts_unbound(toks, j);
        let out = parse_stmts_spec(toks, i)->Ok_0.0;
        let rest = parse_stmts_spec(toks, j)->Ok_0.0;
        assert forall|q: int| 0 <= q < out.len() implies crate::prog::stmt_unbound(
            #[trigger] out[q],
        ) by {
            if q > 0 {
                assert(out[q] == rest[q - 1]);
            }
        }
    }
}

/// A token of the given kind and text, at no particular position. The
/// parser reads positions only for error messages, so canonical token
/// sequences carry none.
pub open spec fn plain_tok(kind: TokenKind, text: Seq<char>) -> TokenModel {
    TokenModel { kind, text, line: 0, col: 0 }
}

/// The canonical token sequence of an argument list, closing parenthesis
/// included.
pub open spec fn params_tokens(params: Seq<Seq<char>>) -> Seq<TokenModel>
    decreases params.len(),
{
    if params.len() == 0 {
        seq![plain_tok(TokenKind::Separator, ")"@)]
    } else if params.len() == 1 {
        seq![
            plain_tok(TokenKind::StringLiteral, params[0]),
            plain_tok(TokenKind::Separator, ")"@),
        ]
    } else {
        seq![
            plain_tok(TokenKind::StringLiteral, params[0]),
            plain_tok(TokenKind::Separator, ","@),
        ] + params_tokens(params.drop_first())
    }
}

/// The canonical token sequence of one call statement.
pub open spec fn call_tokens(c: CallModel) -> Seq<TokenModel> {
    seq![plain_tok(TokenKind::Identifier, c.name), plain_tok(TokenKind::Separator, "("@)]
        + params_tokens(c.params) + seq![plain_tok(TokenKind::Separator, ";"@)]
}

/// The canonical token sequences of a body's calls, one after the other.
pub open spec fn body_tokens(body: Seq<CallModel>) -> Seq<TokenModel>
    decreases body.len(),
{
    if body.len() == 0 {
        Seq::empty()
    } else {
        call_tokens(body[0]) + body_tokens(body.drop_first())
    }
}

/// The canonical token sequence of one declaration.
pub open spec fn decl_tokens(d: DeclModel) -> Seq<TokenModel> {
    seq![
        plain_tok(TokenKind::Keyword, "function"@),
        plain_tok(TokenKind::Identifier, d.name),
        plain_tok(TokenKind::Separator, "("@),
        plain_tok(TokenKind::Separator, ")"@),
        plain_tok(TokenKind::Separator, "{"@),
    ] + body_tokens(d.body) + seq![plain_tok(TokenKind::Separator, "}"@)]
}

/// The canonical token sequences of a statement list, without the final
/// end-of-input token.
pub open spec fn stmts_tokens(stmts: Seq<StmtModel>) -> Seq<TokenModel>
    decreases stmts.len(),
{
    if stmts.len() == 0 {
        Seq::empty()
    } else {
        (match stmts[0] {
            StmtModel::Decl(d) => decl_tokens(d),
            StmtModel::Call(c) => call_tokens(c),
        }) + stmts_tokens(stmts.drop_first())
    }
}

/// The canonical token sequence of a whole program: its statements'
/// tokens, then exactly one end-of-input token.
pub open spec fn prog_tokens(stmts: Seq<StmtModel>) -> Seq<TokenModel> {
    stmts_tokens(stmts) + seq![plain_tok(TokenKind::EOF, Seq::empty())]
}

proof fn lemma_sep_text_distinct()
    ensures
        "("@ != ")"@,
        ","@ != ")"@,
        ";"@ != ")"@,
        "{"@ != ")"@,
        "}"@ != ")"@,
        "}"@ != ","@,
{
    reveal_strlit("(");
    reveal_strlit(")");
    reveal_strlit(",");
    reveal_strlit(";");
    reveal_strlit("{");
    reveal_strlit("}");
    assert("("@[0] == '(');
    assert(")"@[0] == ')');
    assert(","@[0] == ',');
    assert(";"@[0] == ';');
    assert("{"@[0] == '{');
    assert("}"@[0] == '}');
}

proof fn lemma_parse_params_complete(params: Seq<Seq<char>>, toks: Seq<TokenModel>, i: int)
    requires
        0 <= i,
        i + params_tokens(params).len() <= toks.len(),
        toks.subrange(i, i + params_tokens(params).len()) == params_tokens(params),
    ensures
        parse_params_spec(toks, i) == Ok::<_, ParseErrModel>(
            (params, i + params_tokens(params).len()),
        ),
    decreases params.len(),
{
    lemma_sep_text_distinct();
    let r = params_tokens(params);
    assert forall|q: int| 0 <= q < r.len() implies toks[i + q] == r[q] by {
        assert(toks.subrange(i, i + r.len() as int)[q] == r[q]);
    }
    assert(peek_tok(toks, i) == r[0]);
    if params.len() == 0 {
        assert(params =~= Seq::<Seq<char>>::empty());
    } else if params.len() == 1 {
        assert(peek_tok(toks, i + 1) == r[1]);
        assert(params =~= seq![params[0]]);
    } else {
        assert(peek_tok(toks, i + 1) == r[1]);
        let rest = params_tokens(params.drop_first());
        assert(toks.subrange(i + 2, i + 2 + rest.len()) =~= rest) by {
            assert forall|q: int| 0 <= q < rest.len() implies toks.subrange(
                i + 2,
                i + 2 + rest.len(),
            )[q] == rest[q] by {
                assert(toks[i + 2 + q] == r[2 + q]);
            }
        }
        lemma_parse_params_complete(params.drop_first(), toks, i + 2);
        assert(seq![params[0]] + params.drop_first() =~= params);
    }
}

proof fn lemma_parse_call_complete(c: CallModel, toks: Seq<TokenModel>, i: int)
    requires
        0 <= i,
        c.binding is None,
        i + call_tokens(c).len() <= toks.len(),
        toks.subrange(i, i + call_tokens(c).len()) == call_tokens(c),
    ensures
        parse_call_spec(toks, i) == Ok::<_, ParseErrModel>((c, i + call_tokens(c).len())),
{
    lemma_sep_text_distinct();
    let r = call_tokens(c);
    let pr = params_tokens(c.params);
    assert forall|q: int| 0 <= q < r.len() implies toks[i + q] == r[q] by {
        assert(toks.subrange(i, i + r.len() as int)[q] == r[q]);
    }
    assert(peek_tok(toks, i) == r[0]);
    assert(peek_tok(toks, i + 1) == r[1]);
    assert(toks.subrange(i + 2, i + 2 + pr.len()) =~= pr) by {
        assert forall|q: int| 0 <= q < pr.len() implies toks.subrange(i + 2, i + 2 + pr.len())[q]
            == pr[q] by {
            assert(toks[i + 2 + q] == r[2 + q]);
        }
    }
    lemma_parse_params_complete(c.params, toks, i + 2);
    assert(peek_tok(toks, i + 2 + pr.len()) == r[2 + pr.len() as int]);
    assert(r[2 + pr.len() as int] == plain_tok(TokenKind::Separator, ";"@));
    assert(parse_call_spec(toks, i) == Ok::<_, ParseErrModel>(
        (CallModel { name: c.name, params: c.params, binding: None }, i + r.len()),
    ));
    assert((CallModel { name: c.name, params: c.params, binding: None }) == c);
}

proof fn lemma_parse_body_complete(body: Seq<CallModel>, toks: Seq<TokenModel>, i: int)
    requires
        0 <= i,
        forall|j: int| 0 <= j < body.len() ==> (#[trigger] body[j]).binding is None,
        i + body_tokens(body).len() + 1 <= toks.len(),
        toks.subrange(i, i + body_tokens(body).len()) == body_tokens(body),
        toks[i + body_tokens(body).len()] == plain_tok(TokenKind::Separator, "}"@),
    ensures
        parse_body_items_spec(toks, i) == Ok::<_, ParseErrModel>(
            (body, i + body_tokens(body).len() + 1),
        ),
    decreases body.len(),
{
    lemma_sep_text_distinct();
    let bt = body_tokens(body);
    assert forall|q: int| 0 <= q < bt.len() implies toks[i + q] == bt[q] by {
        assert(toks.subrange(i, i + bt.len() as int)[q] == bt[q]);
    }
    if body.len() == 0 {
        assert(peek_tok(toks, i) == plain_tok(TokenKind::Separator, "}"@));
        assert(body =~= Seq::<CallModel>::empty());
    } else {
        let ct = call_tokens(body[0]);
        let rest = body_tokens(body.drop_first());
        assert(toks.subrange(i, i + ct.len()) =~= ct) by {
            assert forall|q: int| 0 <= q < ct.len() implies toks.subrange(i, i + ct.len())[q]
                == ct[q] by {
                assert(toks[i + q] == bt[q]);
            }
        }
        lemma_parse_call_complete(body[0], toks, i);
        assert(peek_tok(toks, i) == ct[0]);
        let j = i + ct.len();
        assert(toks.subrange(j, j + rest.len()) =~= rest) by {
            assert forall|q: int| 0 <= q < rest.len() implies toks.subrange(j, j + rest.len())[q]
                == rest[q] by {
                assert(toks[j + q] == bt[ct.len() + q]);
            }
        }
        assert(toks[j + rest.len()] == plain_tok(TokenKind::Separator, "}"@));
        lemma_parse_body_complete(body.drop_first(), toks, j);
        assert(seq![body[0]] + body.drop_first() =~= body);
    }
}

proof fn lemma_parse_stmts_complete(stmts: Seq<StmtModel>, toks: Seq<TokenModel>, i: int)
    requires
        0 <= i,
        forall|j: int| 0 <= j < stmts.len() ==> crate::prog::stmt_unbound(#[trigger] stmts[j]),
        i + stmts_tokens(stmts).len() + 1 <= toks.len(),
        toks.subrange(i, i + stmts_tokens(stmts).len()) == stmts_tokens(stmts),
        toks[i + stmts_tokens(stmts).len()] == plain_tok(TokenKind::EOF, Seq::empty()),
    ensures
        parse_stmts_spec(toks, i) == Ok::<_, ParseErrModel>(
            (stmts, i + stmts_tokens(stmts).len()),
        ),
    decreases stmts.len(),
{
    lemma_sep_text_distinct();
    reveal_strlit("function");
    let st = stmts_tokens(stmts);
    assert forall|q: int| 0 <= q < st.len() implies toks[i + q] == st[q] by {
        assert(toks.subrange(i, i + st.len() as int)[q] == st[q]);
    }
    if stmts.len() == 0 {
        assert(peek_tok(toks, i) == plain_tok(TokenKind::EOF, Seq::empty()));
        assert(stmts =~= Seq::<StmtModel>::empty());
    } else {
        let head = match stmts[0] {
            StmtModel::Decl(d) => decl_tokens(d),
            StmtModel::Call(c) => call_tokens(c),
        };
        let rest = stmts_tokens(stmts.drop_first());
        assert(toks.subrange(i, i + head.len()) =~= head) by {
            assert forall|q: int| 0 <= q < head.len() implies toks.subrange(i, i + head.len())[q]
                == head[q] by {
                assert(toks[i + q] == st[q]);
            }
        }
        let j = i + head.len();
        assert(toks.subrange(j, j + rest.len()) =~= rest) by {
            assert forall|q: int| 0 <= q < rest.len() implies toks.subrange(j, j + rest.len())[q]
                == rest[q] by {
                assert(toks[j + q] == st[head.len() + q]);
            }
        }
        assert(toks[j + rest.len()] == plain_tok(TokenKind::EOF, Seq::empty()));
        match stmts[0] {
            StmtModel::Call(c) => {
                assert(peek_tok(toks, i) == head[0]);
                lemma_parse_call_complete(c, toks, i);
                lemma_parse_stmts_complete(stmts.drop_first(), toks, j);
                assert(seq![StmtModel::Call(c)] + stmts.drop_first() =~= stmts);
            },
            StmtModel::Decl(d) => {
                assert(peek_tok(toks, i) == head[0]);
                assert(peek_tok(toks, i + 1) == head[1]);
                assert(peek_tok(toks, i + 2) == head[2]);
                assert(peek_tok(toks, i + 3) == head[3]);
                assert(peek_tok(toks, i + 4) == head[4]);
                let bt = body_tokens(d.body);
                assert(toks.subrange(i + 5, i + 5 + bt.len()) =~= bt) by {
                    assert forall|q: int| 0 <= q < bt.len() implies toks.subrange(
                        i + 5,
                        i + 5 + bt.len(),
                    )[q] == bt[q] by {
                        assert(toks[i + 5 + q] == head[5 + q]);
                    }
                }
                assert(toks[i + 5 + bt.len()] == head[5 + bt.len() as int]);
                assert(head[5 + bt.len() as int] == plain_tok(TokenKind::Separator, "}"@));
                lemma_parse_body_complete(d.body, toks, i + 5);
                assert(parse_decl_spec(toks, i) == Ok::<_, ParseErrModel>((d, j)));
                lemma_parse_stmts_complete(stmts.drop_first(), toks, j);
                assert(seq![StmtModel::Decl(d)] + stmts.drop_first() =~= stmts);
            },
        }
    }
}

/// Every program the grammar can express parses back, exactly, from its
/// canonical token sequence: rendering a program's statements as tokens
/// and parsing them yields those same statements. Together with the
/// resolver's and the interpreter's contracts this carries a valid program
/// through the whole pipeline.
pub proof fn lemma_parse_round_trip(stmts: Seq<StmtModel>)
    requires
        crate::prog::prog_unbound(stmts),
    ensures
        parse_stmts_spec(prog_tokens(stmts), 0) == Ok::<_, ParseErrModel>(
            (stmts, stmts_tokens(stmts).len() as int),
        ),
{
    let toks = prog_tokens(stmts);
    assert(toks.subrange(0, stmts_tokens(stmts).len() as int) =~= stmts_tokens(stmts));
    lemma_parse_stmts_complete(stmts, toks, 0);
}

/// The parser: a token sequence and a cursor. The token sequence a lexer
/// hands over ends in exactly one end-of-input token; past the end the
/// cursor keeps yielding the end of the input.
pub struct Parser {
    pub tokens: Vec<Token>,
    pub pos: usize,
}

impl Parser {
    /// The model of the token sequence.
    pub open spec fn toks(&self) -> Seq<TokenModel> {
        self.tokens@.map_values(|t: Token| t@)
    }

    /// A parser over the given tokens, at the first.
    pub fn new(tokens: Vec<Token>) -> (r: Parser)
        ensures
            r.toks() == tokens@.map_values(|t: Token| t@),
            r.pos == 0,
    {
        Parser { tokens, pos: 0 }
    }

    /// Whether the token ahead has the given kind and text, without
    /// consuming it.
    fn peek_is(&self, kind: TokenKind, text: &str) -> (r: bool)
        ensures
            r == (peek_tok(self.toks(), self.pos as int).kind == kind && peek_tok(
                self.toks(),
                self.pos as int,
            ).text == text@),
    {
        if self.pos < self.tokens.len() {
            let t = &self.tokens[self.pos];
            proof {
                assert(peek_tok(self.toks(), self.pos as int) == self.tokens@[self.pos as int]@);
            }
            t.kind == kind && str_eq(t.text.as_str(), text)
        } else {
            proof {
                assert(peek_tok(self.toks(), self.pos as int).text =~= Seq::<char>::empty());
            }
            match kind {
                TokenKind::EOF => {
                    let e = text.is_empty();
                    proof {
                        if text@.len() == 0 {
                            assert(text@ =~= Seq::<char>::empty());
                        }
                    }
                    e
                },
                _ => false,
            }
        }
    }

    /// The kind of the token ahead, without consuming it.
    fn peek_kind(&self) -> (k: TokenKind)
        ensures
            k == peek_tok(self.toks(), self.pos as int).kind,
    {
        if self.pos < self.tokens.len() {
            proof {
                assert(peek_tok(self.toks(), self.pos as int) == self.tokens@[self.pos as int]@);
            }
            self.tokens[self.pos].kind
        } else {
            TokenKind::EOF
        }
    }

    /// Consumes and returns the token ahead; at the end of the sequence the
    /// cursor stays put and the end of the input is returned.
    fn take(&mut self) -> (t: Token)
        ensures
            t@ == peek_tok(old(self).toks(), old(self).pos as int),
            final(self).tokens == old(self).tokens,
            final(self).pos as int == if old(self).pos < old(self).toks().len() {
                old(self).pos + 1
            } else {
                old(self).pos as int
            },
    {
        if self.pos < self.tokens.len() {
            proof {
                assert(peek_tok(self.toks(), self.pos as int) == self.tokens@[self.pos as int]@);
            }
            let t = &self.tokens[self.pos];
            let out = Token { kind: t.kind, text: t.text.clone(), line: t.line, col: t.col };
            self.pos = self.pos + 1;
            out
        } else {
            proof {
                assert(peek_tok(self.toks(), self.pos as int).text =~= Seq::<char>::empty());
            }
            Token { kind: TokenKind::EOF, text: String::new(), line: 0, col: 0 }
        }
    }

    /// Renders an expected-token mismatch, naming the expected construct
    /// and the token found with its position.
    fn expected_message(what: &str, t: &Token) -> (r: String)
        ensures
            r@ == parse_error_message(ParseErrModel::Expected { what: what@, found: t@ }),
    {
        let mut r = "expect ".to_owned();
        r.append(what);
        r.append(" but got '");
        r.append(t.text.as_str());
        r.append("' at ");
        let line_s = usize_to_string(t.line);
        r.append(line_s.as_str());
        r.append(":");
        let col_s = usize_to_string(t.col);
        r.append(col_s.as_str());
        proof {
            assert(r@ =~= parse_error_message(ParseErrModel::Expected { what: what@, found: t@ }));
        }
        r
    }

    /// Parses one function call statement: name, parenthesised string
    /// literal arguments, and the trailing semicolon.
    #[verifier::rlimit(60)]
    pub fn parse_function_call(&mut self) -> (r: Result<FunctionCall, DecodeError>)
        ensures
            final(self).tokens == old(self).tokens,
            match parse_call_spec(old(self).toks(), old(self).pos as int) {
                Ok(pair) => r matches Ok(c) && c@ == pair.0 && final(self).pos == pair.1,
                Err(e) => r matches Err(d) && d is Fatal && d->Fatal_0@ == parse_error_message(e),
            },
    {
        let ghost toks = self.toks();
        let ghost i0 = self.pos as int;
        let name_tok = self.take();
        if !(match name_tok.kind {
            TokenKind::Identifier => true,
            _ => false,
        }) {
            return Err(DecodeError::Fatal(Self::expected_message("Identifier", &name_tok)));
        }
        let t1 = self.take();
        if !(t1.kind == TokenKind::Separator && str_eq(t1.text.as_str(), "(")) {
            return Err(DecodeError::Fatal(Self::expected_message("Separator '('", &t1)));
        }
        let ghost p0 = self.pos as int;
        let mut params: Vec<String> = Vec::new();
        let mut done = false;
        #[verifier::loop_isolation(false)]
        while !done
            invariant
                p0 <= self.pos as int <= toks.len(),
                self.tokens == old(self).tokens,
                !done ==> (match parse_params_spec(toks, self.pos as int) {
                    Ok(pair) => parse_params_spec(toks, p0) == Ok::<_, ParseErrModel>(
                        (params.deep_view() + pair.0, pair.1),
                    ),
                    Err(e) => parse_params_spec(toks, p0) == Err::<(Seq<Seq<char>>, int), _>(e),
                }),
                done ==> parse_params_spec(toks, p0) == Ok::<_, ParseErrModel>(
                    (params.deep_view(), self.pos as int),
                ),
            decreases toks.len() - self.pos + (if done {
                0int
            } else {
                1int
            }),
        {
            let ghost q = self.pos as int;
            if self.peek_is(TokenKind::Separator, ")") {
                let _close = self.take();
                proof {
                    assert(parse_params_spec(toks, q) == Ok::<_, ParseErrModel>(
                        (Seq::<Seq<char>>::empty(), q + 1),
                    ));
                    assert(params.deep_view() + Seq::<Seq<char>>::empty() =~= params.deep_view());
                }
                done = true;
                continue ;
            }
            let lit = self.take();
            if !(match lit.kind {
                TokenKind::StringLiteral => true,
                _ => false,
            }) {
                return Err(DecodeError::Fatal(Self::expected_message("string parameter", &lit)));
            }
            let ghost dv_before = params.deep_view();
            let ghost lit_text = lit.text@;
            params.push(lit.text);
            proof {
                assert(params.deep_view() =~= dv_before + seq![lit_text]);
            }
            if self.peek_is(TokenKind::Separator, ",") {
                let _comma = self.take();
                proof {
                    reveal_strlit(",");
                    reveal_strlit(")");
                    assert(","@[0] == ',');
                    assert(")"@[0] == ')');
                    assert(","@ != ")"@);
                    assert(!is_sep(peek_tok(toks, q), ")"@));
                    assert(peek_tok(toks, q).kind == TokenKind::StringLiteral);
                    assert(peek_tok(toks, q).text == lit_text);
                    assert(is_sep(peek_tok(toks, q + 1), ","@));
                    assert(parse_params_spec(toks, q) == (match parse_params_spec(toks, q + 2) {
                        Ok((rest, j)) => Ok::<_, ParseErrModel>((seq![lit_text] + rest, j)),
                        Err(e) => Err(e),
                    }));
                    assert(dv_before + (seq![lit_text] + parse_params_spec(toks, q + 2)->Ok_0.0)
                        =~= params.deep_view() + parse_params_spec(toks, q + 2)->Ok_0.0);
                }
            } else if self.peek_is(TokenKind::Separator, ")") {
                let _close = self.take();
                proof {
                    assert(parse_params_spec(toks, q) == Ok::<_, ParseErrModel>(
                        (seq![lit_text], q + 2),
                    ));
                    assert(dv_before + seq![lit_text] =~= params.deep_view());
                    assert(parse_params_spec(toks, p0) == Ok::<_, ParseErrModel>(
                        (params.deep_view(), q + 2),
                    ));
                }
                done = true;
            } else {
                let bad = self.take();
                return Err(DecodeError::Fatal(
                    Self::expected_message("Separator ',' or ')'", &bad),
                ));
            }
        }
        let semi = self.take();
        if !(semi.kind == TokenKind::Separator && str_eq(semi.text.as_str(), ";")) {
            return Err(DecodeError::Fatal(Self::expected_message("Separator ';'", &semi)));
        }
        let call = FunctionCall::new(name_tok.text, params);
        proof {
            assert(call@ == parse_call_spec(toks, i0)->Ok_0.0);
        }
        Ok(call)
    }

    /// Parses one function body: the opening brace, the calls, the closing
    /// brace.
    #[verifier::rlimit(60)]
    pub fn parse_function_body(&mut self) -> (r: Result<FunctionBody, DecodeError>)
        ensures
            final(self).tokens == old(self).tokens,
            match parse_body_spec(old(self).toks(), old(self).pos as int) {
                Ok(pair) => r matches Ok(b) && b@ == pair.0 && final(self).pos == pair.1,
                Err(e) => r matches Err(d) && d is Fatal && d->Fatal_0@ == parse_error_message(e),
            },
    {
        let ghost toks = self.toks();
        let ghost i0 = self.pos as int;
        let open_tok = self.take();
        if !(open_tok.kind == TokenKind::Separator && str_eq(open_tok.text.as_str(), "{")) {
            return Err(DecodeError::Fatal(Self::expected_message("Separator '{'", &open_tok)));
        }
        let ghost p0 = self.pos as int;
        let mut stmts: Vec<FunctionCall> = Vec::new();
        let mut done = false;
        #[verifier::loop_isolation(false)]
        while !done
            invariant
                p0 <= self.pos as int <= toks.len(),
                self.tokens == old(self).tokens,
                !done ==> (match parse_body_items_spec(toks, self.pos as int) {
                    Ok(pair) => parse_body_items_spec(toks, p0) == Ok::<_, ParseErrModel>(
                        (stmts@.map_values(|c: FunctionCall| c@) + pair.0, pair.1),
                    ),
                    Err(e) => parse_body_items_spec(toks, p0) == Err::<(Seq<CallModel>, int), _>(
                        e,
                    ),
                }),
                done ==> parse_body_items_spec(toks, p0) == Ok::<_, ParseErrModel>(
                    (stmts@.map_values(|c: FunctionCall| c@), self.pos as int),
                ),
            decreases toks.len() - self.pos + (if done {
                0int
            } else {
                1int
            }),
        {
            let ghost q = self.pos as int;
            let ghost dv_before = stmts@.map_values(|c: FunctionCall| c@);
            if self.peek_is(TokenKind::Separator, "}") {
                let _close = self.take();
                proof {
                    assert(parse_body_items_spec(toks, q) == Ok::<_, ParseErrModel>(
                        (Seq::<CallModel>::empty(), q + 1),
                    ));
                    assert(dv_before + Seq::<CallModel>::empty() =~= dv_before);
                }
                done = true;
            } else {
                let k = self.peek_kind();
                match k {
                    TokenKind::Identifier => {
                        let res = self.parse_function_call();
                        match res {
                            Ok(c) => {
                                let ghost c_model = c@;
                                stmts.push(c);
                                proof {
                                    lemma_parse_call_bounds(toks, q);
                                    let j = parse_call_spec(toks, q)->Ok_0.1;
                                    assert(stmts@.map_values(|c: FunctionCall| c@) =~= dv_before
                                        + seq![c_model]);
                                    assert(parse_body_items_spec(toks, q) == (
                                    match parse_body_items_spec(toks, j) {
                                        Ok((rest, k2)) => Ok::<_, ParseErrModel>(
                                            (seq![c_model] + rest, k2),
                                        ),
                                        Err(e) => Err(e),
                                    }));
                                    if parse_body_items_spec(toks, j) is Ok {
                                        assert(dv_before + (seq![c_model]
                                            + parse_body_items_spec(toks, j)->Ok_0.0) =~= (
                                        dv_before + seq![c_model]) + parse_body_items_spec(
                                            toks,
                                            j,
                                        )->Ok_0.0);
                                    }
                                }
                            },
                            Err(e) => {
                                return Err(e);
                            },
                        }
                    },
                    _ => {
                        let bad = self.take();
                        return Err(DecodeError::Fatal(
                            Self::expected_message("Separator '}'", &bad),
                        ));
                    },
                }
            }
        }
        let body = FunctionBody::new(stmts);
        proof {
            assert(body@ == parse_body_spec(toks, i0)->Ok_0.0);
        }
        Ok(body)
    }

    /// Parses one function declaration: the keyword, the name, the empty
    /// parameter parentheses, and the body.
    pub fn parse_function_decl(&mut self) -> (r: Result<FunctionDecl, DecodeError>)
        ensures
            final(self).tokens == old(self).tokens,
            match parse_decl_spec(old(self).toks(), old(self).pos as int) {
                Ok(pair) => r matches Ok(d) && d@ == pair.0 && final(self).pos == pair.1,
                Err(e) => r matches Err(d) && d is Fatal && d->Fatal_0@ == parse_error_message(e),
            },
    {
        let ghost toks = self.toks();
        let ghost i0 = self.pos as int;
        let kw = self.take();
        if !(kw.kind == TokenKind::Keyword && str_eq(kw.text.as_str(), "function")) {
            return Err(DecodeError::Fatal(Self::expected_message("Keyword 'function'", &kw)));
        }
        let name_tok = self.take();
        if !(match name_tok.kind {
            TokenKind::Identifier => true,
            _ => false,
        }) {
            return Err(DecodeError::Fatal(Self::expected_message("Identifier", &name_tok)));
        }
        let t2 = self.take();
        if !(t2.kind == TokenKind::Separator && str_eq(t2.text.as_str(), "(")) {
            return Err(DecodeError::Fatal(Self::expected_message("Separator '('", &t2)));
        }
        let t3 = self.take();
        if !(t3.kind == TokenKind::Separator && str_eq(t3.text.as_str(), ")")) {
            return Err(DecodeError::Fatal(Self::expected_message("Separator ')'", &t3)));
        }
        let body = match self.parse_function_body() {
            Ok(b) => b,
            Err(e) => {
                return Err(e);
            },
        };
        let decl = FunctionDecl::new(name_tok.text, body);
        proof {
            assert(decl@ == parse_decl_spec(toks, i0)->Ok_0.0);
        }
        Ok(decl)
    }

    /// Parses a whole program: statements until the end of the input, each
    /// dispatched on its first token.
    #[verifier::rlimit(60)]
    pub fn parse_prog(self) -> (r: Result<Prog, DecodeError>)
        ensures
            match parse_stmts_spec(self.toks(), self.pos as int) {
                Ok(pair) => r matches Ok(p) && p@ == pair.0,
                Err(e) => r matches Err(d) && d is Fatal && d->Fatal_0@ == parse_error_message(e),
            },
    {
        let mut this = self;
        let ghost toks = this.toks();
        let ghost p0 = this.pos as int;
        let mut stmts: Vec<Statement> = Vec::new();
        let mut done = false;
        #[verifier::loop_isolation(false)]
        while !done
            invariant
                p0 <= this.pos as int <= toks.len() || (p0 > toks.len() && this.pos as int == p0),
                this.toks() == toks,
                !done ==> (match parse_stmts_spec(toks, this.pos as int) {
                    Ok(pair) => parse_stmts_spec(toks, p0) == Ok::<_, ParseErrModel>(
                        (stmts@.map_values(|s: Statement| s@) + pair.0, pair.1),
                    ),
                    Err(e) => parse_stmts_spec(toks, p0) == Err::<(Seq<StmtModel>, int), _>(e),
                }),
                done ==> (parse_stmts_spec(toks, p0) matches Ok(pair) && pair.0
                    == stmts@.map_values(|s: Statement| s@)),
            decreases (if this.pos as int <= toks.len() {
                toks.len() - this.pos
            } else {
                0int
            }) + (if done {
                0int
            } else {
                1int
            }),
        {
            let ghost q = this.pos as int;
            let ghost dv_before = stmts@.map_values(|s: Statement| s@);
            let k = this.peek_kind();
            match k {
                TokenKind::EOF => {
                    proof {
                        assert(parse_stmts_spec(toks, q) == Ok::<_, ParseErrModel>(
                            (Seq::<StmtModel>::empty(), q),
                        ));
                        assert(dv_before + Seq::<StmtModel>::empty() =~= dv_before);
                    }
                    done = true;
                },
                TokenKind::Keyword => {
                    if this.peek_is(TokenKind::Keyword, "function") {
                        let res = this.parse_function_decl();
                        match res {
                            Ok(d) => {
                                let ghost d_model = d@;
                                stmts.push(Statement::FunctionDecl(d));
                                proof {
                                    lemma_parse_decl_bounds(toks, q);
                                    let j = parse_decl_spec(toks, q)->Ok_0.1;
                                    assert(stmts@.map_values(|s: Statement| s@) =~= dv_before
                                        + seq![StmtModel::Decl(d_model)]);
                                    if parse_stmts_spec(toks, j) is Ok {
                                        assert(dv_before + (seq![StmtModel::Decl(d_model)]
                                            + parse_stmts_spec(toks, j)->Ok_0.0) =~= (dv_before
                                            + seq![StmtModel::Decl(d_model)]) + parse_stmts_spec(
                                            toks,
                                            j,
                                        )->Ok_0.0);
                                    }
                                }
                            },
                            Err(e) => {
                                return Err(e);
                            },
                        }
                    } else {
                        return Err(DecodeError::Fatal("unknown statement".to_owned()));
                    }
                },
                TokenKind::Identifier => {
                    let res = this.parse_function_call();
                    match res {
                        Ok(c) => {
                            let ghost c_model = c@;
                            stmts.push(Statement::FunctionCall(c));
                            proof {
                                lemma_parse_call_bounds(toks, q);
                                let j = parse_call_spec(toks, q)->Ok_0.1;
                                assert(stmts@.map_values(|s: Statement| s@) =~= dv_before
                                    + seq![StmtModel::Call(c_model)]);
                                if parse_stmts_spec(toks, j) is Ok {
                                    assert(dv_before + (seq![StmtModel::Call(c_model)]
                                        + parse_stmts_spec(toks, j)->Ok_0.0) =~= (dv_before
                                        + seq![StmtModel::Call(c_model)]) + parse_stmts_spec(
                                        toks,
                                        j,
                                    )->Ok_0.0);
                                }
                            }
                        },
                        Err(e) => {
                            return Err(e);
                        },
                    }
                },
                _ => {
                    return Err(DecodeError::Fatal("unknown statement".to_owned()));
                },
            }
        }
        let prog = Prog::new(stmts);
        proof {
            assert(prog@ == parse_stmts_spec(toks, p0)->Ok_0.0);
        }
        Ok(prog)
    }
}

} // verus!
