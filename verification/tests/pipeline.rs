use playscript::compile_and_run;
use playscript::DecodeError;

fn run(source: &str) -> Result<Vec<String>, String> {
    let mut output: Vec<String> = Vec::new();
    match compile_and_run(source, &mut output) {
        Ok(()) => Ok(output),
        Err(e) => Err(e.message()),
    }
}

#[test]
fn hello_world_program() {
    let out = run("function sayHello(){ println(\"Hello World!\"); } sayHello();").unwrap();
    assert_eq!(out, vec!["Hello World!".to_string()]);
}

#[test]
fn empty_program_runs_with_no_output() {
    let out = run("").unwrap();
    assert!(out.is_empty());
}

#[test]
fn whitespace_only_program_runs_with_no_output() {
    let out = run("  \n\t  \n").unwrap();
    assert!(out.is_empty());
}

#[test]
fn undeclared_call_is_a_binding_error() {
    let err = run("foo();").unwrap_err();
    assert_eq!(err, "unknown function foo");
}

#[test]
fn undeclared_call_inside_a_body_is_a_binding_error() {
    let err = run("function f(){ bar(); } f();").unwrap_err();
    assert_eq!(err, "unknown function bar");
}

#[test]
fn self_recursion_parses_and_resolves_but_exhausts_the_depth_budget() {
    // The language puts no bound on recursion; running it must neither
    // succeed nor hang, it stops when the call depth budget is spent.
    let err = run("function f(){ f(); } f();").unwrap_err();
    assert_eq!(err, "call depth exceeded");
}

#[test]
fn second_declaration_of_a_name_wins() {
    let out = run(
        "function f(){ println(\"one\"); }\nfunction f(){ println(\"two\"); }\nf();\n",
    )
    .unwrap();
    assert_eq!(out, vec!["two".to_string()]);
}

#[test]
fn call_before_second_declaration_still_binds_to_the_final_one() {
    // Binding happens only in pass two, against the finished index, so a
    // call placed before the shadowing declaration still reaches it.
    let out = run(
        "function f(){ println(\"one\"); }\nf();\nfunction f(){ println(\"two\"); }\n",
    )
    .unwrap();
    assert_eq!(out, vec!["two".to_string()]);
}

#[test]
fn forward_reference_to_a_later_declaration_works() {
    let out = run("main(); function main(){ println(\"later\"); }").unwrap();
    assert_eq!(out, vec!["later".to_string()]);
}

#[test]
fn builtin_joins_arguments_with_single_spaces() {
    let out = run("println(\"a\", \"b\", \"c\");").unwrap();
    assert_eq!(out, vec!["a b c".to_string()]);
}

#[test]
fn builtin_with_no_arguments_writes_an_empty_line() {
    let out = run("println();").unwrap();
    assert_eq!(out, vec![String::new()]);
}

#[test]
fn output_lines_come_in_execution_order() {
    let out = run(
        "function greet(){ println(\"hi\"); println(\"there\"); }\ngreet();\nprintln(\"done\");\n",
    )
    .unwrap();
    assert_eq!(
        out,
        vec!["hi".to_string(), "there".to_string(), "done".to_string()]
    );
}

#[test]
fn comments_are_skipped() {
    let out = run(
        "// leading line comment\nfunction f(){ /* inner */ println(\"ok\"); }\n/* multi\n   line */ f();\n",
    )
    .unwrap();
    assert_eq!(out, vec!["ok".to_string()]);
}

#[test]
fn unterminated_block_comment_is_a_lexical_error() {
    let err = run("/* spans\nseveral\nlines with no close").unwrap_err();
    assert_eq!(err, "No */ found until EOF");
}

#[test]
fn unknown_statement_is_a_syntax_error() {
    let err = run("+ f();").unwrap_err();
    assert_eq!(err, "unknown statement");
}

#[test]
fn missing_semicolon_is_a_syntax_error() {
    let err = run("f()").unwrap_err();
    assert!(err.starts_with("expect Separator ';' but got"), "{}", err);
}

#[test]
fn declaration_without_a_name_is_a_syntax_error() {
    let err = run("function (){}").unwrap_err();
    assert!(err.starts_with("expect Identifier but got"), "{}", err);
}

#[test]
fn non_literal_argument_is_a_syntax_error() {
    let err = run("f(g);").unwrap_err();
    assert!(err.starts_with("expect string parameter but got"), "{}", err);
}

#[test]
fn body_must_close_before_end_of_input() {
    let err = run("function f(){ ").unwrap_err();
    assert!(err.starts_with("expect Separator '}' but got"), "{}", err);
}

#[test]
fn invalid_character_is_a_lexical_error_with_its_position() {
    let err = run("f();\n  @").unwrap_err();
    assert_eq!(err, "Invalid token @ at 2:2");
}

#[test]
fn error_aborts_after_earlier_output() {
    let mut output: Vec<String> = Vec::new();
    let res = compile_and_run(
        "println(\"before\"); nope(); println(\"after\");",
        &mut output,
    );
    match res {
        Err(DecodeError::Fatal(m)) => assert_eq!(m, "unknown function nope"),
        _ => panic!("expected a fatal binding error"),
    }
    // Binding errors are found before execution, so nothing was written.
    assert!(output.is_empty());
}

#[test]
fn trailing_comma_in_arguments_is_accepted() {
    let out = run("println(\"a\",);").unwrap();
    assert_eq!(out, vec!["a".to_string()]);
}

#[test]
fn declaration_missing_open_paren_is_a_syntax_error() {
    let err = run("function f){}").unwrap_err();
    assert!(err.starts_with("expect Separator '(' but got"), "{}", err);
}

#[test]
fn declaration_with_a_parameter_is_a_syntax_error() {
    // Parameters are syntactically required to be empty.
    let err = run("function f(x){}").unwrap_err();
    assert!(err.starts_with("expect Separator ')' but got"), "{}", err);
}

#[test]
fn declaration_missing_its_body_is_a_syntax_error() {
    let err = run("function f();").unwrap_err();
    assert!(err.starts_with("expect Separator '{' but got"), "{}", err);
}

#[test]
fn arguments_missing_their_separator_is_a_syntax_error() {
    let err = run("f(\"a\" \"b\");").unwrap_err();
    assert!(err.starts_with("expect Separator ',' or ')' but got"), "{}", err);
}
