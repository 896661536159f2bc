use playscript::charstream::CharStream;
use playscript::error::DecodeError;
use playscript::grammar::{Dumper, FunctionBody, FunctionCall, FunctionDecl, Statement};
use playscript::interpreter::Interpreter;
use playscript::lexer::{tokenize, Tokenizer};
use playscript::parser::Parser;
use playscript::prog::Prog;
use playscript::ref_resolver::{FnIndex, RefResolver};
use playscript::text::{str_eq, usize_to_string};
use playscript::token::{Token, TokenKind};

fn texts(tokens: &[Token]) -> Vec<(TokenKind, String)> {
    tokens.iter().map(|t| (t.kind, t.text.clone())).collect()
}

#[test]
fn char_stream_tracks_lines_and_columns() {
    let mut s = CharStream::new("ab\ncd");
    assert_eq!(s.peek(), Some('a'));
    assert_eq!((s.line(), s.col()), (1, 0));
    assert_eq!(s.next(), Some('a'));
    assert_eq!((s.line(), s.col()), (1, 1));
    assert_eq!(s.next(), Some('b'));
    assert_eq!(s.next(), Some('\n'));
    assert_eq!((s.line(), s.col()), (2, 0));
    assert_eq!(s.next(), Some('c'));
    assert_eq!((s.line(), s.col()), (2, 1));
    assert_eq!(s.next(), Some('d'));
    assert_eq!(s.next(), None);
    assert_eq!(s.peek(), None);
}

#[test]
fn lexer_reads_the_hello_world_tokens() {
    let tokens = tokenize("function sayHello(){ println(\"Hello World!\"); } sayHello();").unwrap();
    let expected: Vec<(TokenKind, &str)> = vec![
        (TokenKind::Keyword, "function"),
        (TokenKind::Identifier, "sayHello"),
        (TokenKind::Separator, "("),
        (TokenKind::Separator, ")"),
        (TokenKind::Separator, "{"),
        (TokenKind::Identifier, "println"),
        (TokenKind::Separator, "("),
        (TokenKind::StringLiteral, "Hello World!"),
        (TokenKind::Separator, ")"),
        (TokenKind::Separator, ";"),
        (TokenKind::Separator, "}"),
        (TokenKind::Identifier, "sayHello"),
        (TokenKind::Separator, "("),
        (TokenKind::Separator, ")"),
        (TokenKind::Separator, ";"),
        (TokenKind::EOF, ""),
    ];
    assert_eq!(
        texts(&tokens),
        expected
            .into_iter()
            .map(|(k, t)| (k, t.to_string()))
            .collect::<Vec<_>>()
    );
}

#[test]
fn string_escapes_decode_to_newline_and_backslash() {
    let tokens = tokenize("println(\"a\\nb\\\\c\");").unwrap();
    assert_eq!(tokens[2].kind, TokenKind::StringLiteral);
    assert_eq!(tokens[2].text, "a\nb\\c");
}

#[test]
fn operators_match_greedily() {
    let tokens = tokenize("+ ++ += - -- -= * *= / /=").unwrap();
    let ops: Vec<String> = tokens
        .iter()
        .filter(|t| t.kind == TokenKind::Operator)
        .map(|t| t.text.clone())
        .collect();
    assert_eq!(ops, vec!["+", "++", "+=", "-", "--", "-=", "*", "*=", "/", "/="]);
}

#[test]
fn only_the_exact_word_function_is_the_keyword() {
    let tokens = tokenize("function functions func_2").unwrap();
    assert_eq!(tokens[0].kind, TokenKind::Keyword);
    assert_eq!(tokens[1].kind, TokenKind::Identifier);
    assert_eq!(tokens[1].text, "functions");
    assert_eq!(tokens[2].kind, TokenKind::Identifier);
    assert_eq!(tokens[2].text, "func_2");
}

#[test]
fn tokens_carry_their_line_and_column() {
    let tokens = tokenize("f();\n  g();").unwrap();
    let g = tokens.iter().find(|t| t.text == "g").unwrap();
    assert_eq!((g.line, g.col), (2, 2));
}

#[test]
fn end_of_input_token_comes_exactly_once_and_is_sticky() {
    let mut tz = Tokenizer::new("f");
    let first = tz.next_token().unwrap().unwrap();
    assert_eq!(first.kind, TokenKind::Identifier);
    let second = tz.next_token().unwrap().unwrap();
    assert_eq!(second.kind, TokenKind::EOF);
    assert!(tz.next_token().unwrap().is_none());
    assert!(tz.next_token().unwrap().is_none());
}

#[test]
fn unterminated_string_is_fatal_with_position() {
    let err = tokenize("\"abc").unwrap_err();
    assert_eq!(err.message(), "Expecting \" at 1:4");
}

#[test]
fn newline_inside_string_is_fatal_with_position() {
    let err = tokenize("\"a\nb\"").unwrap_err();
    assert_eq!(err.message(), "Unexpected line break at 1:2");
}

#[test]
fn unknown_escape_is_fatal_with_position() {
    let err = tokenize("\"a\\qb\"").unwrap_err();
    assert_eq!(err.message(), "Unexpected \\ at 1:3");
}

#[test]
fn parser_accepts_a_prepared_token_sequence() {
    let words: Vec<(TokenKind, &str)> = vec![
        (TokenKind::Keyword, "function"),
        (TokenKind::Identifier, "sayHello"),
        (TokenKind::Separator, "("),
        (TokenKind::Separator, ")"),
        (TokenKind::Separator, "{"),
        (TokenKind::Identifier, "println"),
        (TokenKind::Separator, "("),
        (TokenKind::StringLiteral, "Hello World!"),
        (TokenKind::Separator, ")"),
        (TokenKind::Separator, ";"),
        (TokenKind::Separator, "}"),
        (TokenKind::Identifier, "sayHello"),
        (TokenKind::Separator, "("),
        (TokenKind::Separator, ")"),
        (TokenKind::Separator, ";"),
        (TokenKind::EOF, ""),
    ];
    let tokens: Vec<Token> = words
        .into_iter()
        .map(|(kind, text)| Token {
            kind,
            text: text.to_string(),
            line: 1,
            col: 0,
        })
        .collect();
    let mut prog = Parser::new(tokens).parse_prog().unwrap();
    assert_eq!(prog.stmts.len(), 2);
    RefResolver::resolve(&mut prog).unwrap();
    let mut output: Vec<String> = Vec::new();
    Interpreter::run(&prog, &mut output).unwrap();
    assert_eq!(output, vec!["Hello World!".to_string()]);
}

#[test]
fn parse_builds_an_unresolved_tree() {
    let tokens = tokenize("function f(){ g(); } f();").unwrap();
    let prog = Parser::new(tokens).parse_prog().unwrap();
    match &prog.stmts[0] {
        Statement::FunctionDecl(d) => {
            assert_eq!(d.name, "f");
            assert_eq!(d.body.stmts.len(), 1);
            assert_eq!(d.body.stmts[0].name, "g");
            assert!(d.body.stmts[0].definition.is_none());
        }
        Statement::FunctionCall(_) => panic!("expected a declaration first"),
    }
    match &prog.stmts[1] {
        Statement::FunctionCall(c) => {
            assert_eq!(c.name, "f");
            assert!(c.definition.is_none());
        }
        Statement::FunctionDecl(_) => panic!("expected a call second"),
    }
}

#[test]
fn resolver_binds_calls_to_statement_positions() {
    let tokens = tokenize("function f(){ f(); } f();").unwrap();
    let mut prog = Parser::new(tokens).parse_prog().unwrap();
    RefResolver::resolve(&mut prog).unwrap();
    match &prog.stmts[0] {
        Statement::FunctionDecl(d) => assert_eq!(d.body.stmts[0].definition, Some(0)),
        Statement::FunctionCall(_) => panic!("expected a declaration"),
    }
    match &prog.stmts[1] {
        Statement::FunctionCall(c) => assert_eq!(c.definition, Some(0)),
        Statement::FunctionDecl(_) => panic!("expected a call"),
    }
}

#[test]
fn resolver_leaves_the_builtin_unbound() {
    let tokens = tokenize("println(\"x\");").unwrap();
    let mut prog = Parser::new(tokens).parse_prog().unwrap();
    RefResolver::resolve(&mut prog).unwrap();
    match &prog.stmts[0] {
        Statement::FunctionCall(c) => assert!(c.definition.is_none()),
        Statement::FunctionDecl(_) => panic!("expected a call"),
    }
}

#[test]
fn resolving_twice_keeps_the_same_bindings() {
    let tokens = tokenize("function f(){ println(\"x\"); } f(); f();").unwrap();
    let mut prog = Parser::new(tokens).parse_prog().unwrap();
    RefResolver::resolve(&mut prog).unwrap();
    let before: Vec<Option<usize>> = prog
        .stmts
        .iter()
        .map(|s| match s {
            Statement::FunctionCall(c) => c.definition,
            Statement::FunctionDecl(_) => None,
        })
        .collect();
    RefResolver::resolve(&mut prog).unwrap();
    let after: Vec<Option<usize>> = prog
        .stmts
        .iter()
        .map(|s| match s {
            Statement::FunctionCall(c) => c.definition,
            Statement::FunctionDecl(_) => None,
        })
        .collect();
    assert_eq!(before, after);
}

#[test]
fn a_declaration_that_shadows_overwrites_the_index() {
    let mut index = FnIndex::new();
    index.insert("f".to_string(), 0);
    index.insert("g".to_string(), 1);
    index.insert("f".to_string(), 2);
    assert_eq!(index.get(&"f".to_string()), Some(2));
    assert_eq!(index.get(&"g".to_string()), Some(1));
    assert_eq!(index.get(&"h".to_string()), None);
}

#[test]
fn interpreter_reports_an_unbound_non_builtin_call() {
    // The resolver would have caught this; reaching the interpreter with it
    // is an internal-consistency error and is fatal.
    let call = FunctionCall::new("mystery".to_string(), Vec::new());
    let prog = Prog::new(vec![Statement::FunctionCall(call)]);
    let mut output: Vec<String> = Vec::new();
    let err = Interpreter::run(&prog, &mut output).unwrap_err();
    assert_eq!(err, "Unknown function mystery");
    assert!(output.is_empty());
}

#[test]
fn depth_budget_bounds_recursion_but_keeps_earlier_output() {
    let tokens = tokenize("function f(){ println(\"x\"); f(); } f();").unwrap();
    let mut prog = Parser::new(tokens).parse_prog().unwrap();
    RefResolver::resolve(&mut prog).unwrap();
    let mut output: Vec<String> = Vec::new();
    let err = Interpreter::run_with_depth(&prog, 3, &mut output).unwrap_err();
    assert_eq!(err, "call depth exceeded");
    assert_eq!(output, vec!["x".to_string(), "x".to_string(), "x".to_string()]);
}

#[test]
fn dump_renders_an_indented_tree() {
    let call = FunctionCall::new("println".to_string(), vec!["hi".to_string()]);
    assert_eq!(call.dump(""), "FunctionCall println, not resolved\n\tParameter: hi\n");
    let body = FunctionBody::new(vec![call]);
    let decl = FunctionDecl::new("greet".to_string(), body);
    assert_eq!(
        decl.dump(""),
        "FunctionDecl greet\n\tFunctionBody\n\t\tFunctionCall println, not resolved\n\t\t\tParameter: hi\n"
    );
    let prog = Prog::new(vec![Statement::FunctionDecl(decl)]);
    assert_eq!(
        prog.dump(""),
        "Prog\n\tFunctionDecl greet\n\t\tFunctionBody\n\t\t\tFunctionCall println, not resolved\n\t\t\t\tParameter: hi\n"
    );
}

#[test]
fn dump_marks_resolved_calls() {
    let mut call = FunctionCall::new("f".to_string(), Vec::new());
    call.definition = Some(0);
    assert_eq!(call.dump(""), "FunctionCall f, resolved\n");
}

#[test]
fn dump_rendering_is_diagnostic_only_not_a_token_round_trip() {
    // The dump is for humans: re-lexing it is not required to reproduce
    // the program's token stream, and here it does not even lex (the colon
    // after a parameter label is no token of the language).
    let source = "println(\"x\");";
    let tokens = tokenize(source).unwrap();
    let mut prog = Parser::new(tokenize(source).unwrap()).parse_prog().unwrap();
    RefResolver::resolve(&mut prog).unwrap();
    let rendering = prog.dump("");
    let same = match tokenize(&rendering) {
        Ok(relexed) => texts(&relexed) == texts(&tokens),
        Err(_) => false,
    };
    assert!(!same);
}

#[test]
fn decode_error_messages() {
    assert_eq!(DecodeError::TryNext.message(), "Please try next method");
    assert_eq!(DecodeError::fatal("boom".to_string()).message(), "boom");
}

#[test]
fn str_eq_compares_by_characters() {
    assert!(str_eq("", ""));
    assert!(str_eq("função", "função"));
    assert!(!str_eq("abc", "abd"));
    assert!(!str_eq("abc", "abcd"));
}

#[test]
fn numbers_render_in_decimal() {
    assert_eq!(usize_to_string(0), "0");
    assert_eq!(usize_to_string(7), "7");
    assert_eq!(usize_to_string(907), "907");
    assert_eq!(usize_to_string(10010), "10010");
}
