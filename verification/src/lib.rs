//! A minimal scripting language pipeline: a character-stream lexer, a
//! recursive-descent parser, a two-pass reference resolver, and a
//! tree-walking interpreter.
//!
//! The language supports exactly two statement forms: function declarations
//! (without parameters) and function calls whose arguments are string
//! literals. One built-in, `println`, writes its arguments as a line of
//! output. Every stage carries a contract that pins its result down against
//! a mathematical model of the source text, the token sequence, and the
//! syntax tree.

pub mod charstream;
pub mod error;
pub mod grammar;
pub mod interpreter;
pub mod lexer;
pub mod parser;
pub mod prog;
pub mod ref_resolver;
pub mod text;
pub mod token;

pub use error::DecodeError;
pub use grammar::Dumper;
pub use grammar::FunctionBody;
pub use grammar::FunctionCall;
pub use grammar::FunctionDecl;
pub use grammar::Statement;
pub use interpreter::Interpreter;
pub use parser::Parser;
pub use prog::Prog;
pub use ref_resolver::RefResolver;
pub use token::Token;
pub use token::TokenKind;

use vstd::prelude::*;

verus! {

/// What the whole pipeline emits for a source text with the given call
/// depth budget: the output lines written before it finished or failed,
/// and the message of the first fatal error if it failed. Each stage hands
/// its result to the next; the first fatal error aborts the run.
pub open spec fn pipeline_model(src: Seq<char>, fuel: nat) -> (Seq<Seq<char>>, Option<Seq<char>>) {
    match lexer::tokens_from(src, 0) {
        Err(e) => (Seq::empty(), Some(lexer::lex_error_message(e))),
        Ok(toks) => match parser::parse_stmts_spec(toks, 0) {
            Err(e) => (Seq::empty(), Some(parser::parse_error_message(e))),
            Ok(pair) => {
                let resolved = ref_resolver::resolve_prog(pair.0);
                if resolved.1 is Some {
                    (Seq::empty(), Some(ref_resolver::unknown_function_message(resolved.1->0)))
                } else {
                    let run = interpreter::run_prog_model(resolved.0, fuel);
                    match run.1 {
                        Some(e) => (run.0, Some(interpreter::run_error_message(e))),
                        None => (run.0, None),
                    }
                }
            },
        },
    }
}

/// A valid program goes through the pipeline: parsing the canonical token
/// sequence of any expressible program yields exactly that program; when
/// every call of it names a declaration or the built-in, resolution
/// succeeds and leaves a well-formed program, whose output the
/// interpreter's contract then pins down line for line, in execution
/// order, through [`interpreter::run_prog_model`].
pub proof fn lemma_valid_program_pipeline(stmts: Seq<grammar::StmtModel>)
    requires
        prog::prog_unbound(stmts),
        ref_resolver::stmts_resolvable(ref_resolver::decl_map(stmts), stmts),
    ensures
        parser::parse_stmts_spec(parser::prog_tokens(stmts), 0) matches Ok(pair) && pair.0
            == stmts,
        ref_resolver::resolve_prog(stmts).1 is None,
        prog::prog_wf(ref_resolver::resolve_prog(stmts).0),
{
    parser::lemma_parse_round_trip(stmts);
    ref_resolver::lemma_binding_error_iff(stmts);
    prog::lemma_unbound_prog_wf(stmts);
    ref_resolver::lemma_resolve_preserves_wf(stmts);
}

/// Runs the whole pipeline on a source text: lexing, parsing, resolution,
/// execution with the default call depth budget. The built-in's lines are
/// appended to the output in execution order; on a fatal error the lines
/// written before it stay.
pub fn compile_and_run(code: &str, output: &mut Vec<String>) -> (r: Result<(), DecodeError>)
    requires
        code@.len() < usize::MAX,
    ensures
        final(output).deep_view() == old(output).deep_view() + pipeline_model(
            code@,
            interpreter::MAX_CALL_DEPTH as nat,
        ).0,
        r is Ok <==> pipeline_model(code@, interpreter::MAX_CALL_DEPTH as nat).1 is None,
        r is Err ==> r->Err_0 is Fatal && r->Err_0->Fatal_0@ == pipeline_model(
            code@,
            interpreter::MAX_CALL_DEPTH as nat,
        ).1->0,
{
    let ghost start = output.deep_view();
    let tokens = match lexer::tokenize(code) {
        Ok(t) => t,
        Err(e) => {
            proof {
                assert(start + Seq::<Seq<char>>::empty() =~= start);
            }
            return Err(e);
        },
    };
    let parser = parser::Parser::new(tokens);
    let ghost toks = parser.toks();
    let prog = match parser.parse_prog() {
        Ok(p) => p,
        Err(e) => {
            proof {
                assert(start + Seq::<Seq<char>>::empty() =~= start);
            }
            return Err(e);
        },
    };
    let ghost parsed = prog.view();
    proof {
        parser::lemma_parse_unbound(toks);
        prog::lemma_unbound_prog_wf(parsed);
    }
    let mut prog = prog;
    match RefResolver::resolve(&mut prog) {
        Ok(()) => {},
        Err(m) => {
            proof {
                assert(start + Seq::<Seq<char>>::empty() =~= start);
            }
            return Err(DecodeError::Fatal(m));
        },
    }
    proof {
        ref_resolver::lemma_resolve_preserves_wf(parsed);
    }
    match Interpreter::run(&prog, output) {
        Ok(()) => Ok(()),
        Err(m) => Err(DecodeError::Fatal(m)),
    }
}

} // verus!
