use interpreter_starter_rust::interpreter::clock_outcome;
use interpreter_starter_rust::errors::InterpreterError;
use interpreter_starter_rust::interpreter::Interpreter;
use interpreter_starter_rust::parser::Parser;

fn run_content(content: &str) -> (String, Option<InterpreterError>) {
    let mut interpreter = Interpreter::build(content).unwrap();
    let res = interpreter.run();
    (interpreter.output_string(), res.err())
}

fn run_error(content: &str) -> String {
    run_content(content).1.expect("an error").to_string()
}

fn evaluate_content(content: &str) -> (String, Option<InterpreterError>) {
    let mut interpreter = Interpreter::build(content).unwrap();
    let res = interpreter.evaluate();
    (interpreter.output_string(), res.err())
}

#[test]
fn print_appends_text_and_newline() {
    let (output, err) = run_content("print 1; print \"a\"; print nil; print 2.5;");
    assert!(err.is_none());
    assert_eq!("1\na\nnil\n2.5\n", output);
}

#[test]
fn equality_between_kinds_is_false_both_ways() {
    let (output, err) = run_content(
        "print 1 == \"1\"; print 1 != \"1\"; print nil == nil; print nil != false; print true == true;",
    );
    assert!(err.is_none());
    assert_eq!("false\nfalse\nfalse\nfalse\ntrue\n", output);
}

#[test]
fn truthiness() {
    let (output, err) = run_content(
        "print !nil; print !false; print !0; print !\"\"; print nil or \"x\"; print 0 and \"y\";",
    );
    assert!(err.is_none());
    assert_eq!("true\ntrue\nfalse\nfalse\nx\ny\n", output);
}

#[test]
fn arithmetic_values() {
    let (output, err) = run_content(
        "print 0.1 + 0.2; print 7 - 10; print 1 / 0; print -0; print 2 * 3.5; print 10 / 4;",
    );
    assert!(err.is_none());
    assert_eq!("0.30000000000000004\n-3\ninf\n-0\n7\n2.5\n", output);
}

#[test]
fn runtime_error_messages() {
    assert_eq!("[line 1] Error: Undefined variable in scope: 'x'.", run_error("print x;"));
    assert_eq!("[line 1] Error: Undefined variable 'x'.", run_error("x = 1;"));
    assert_eq!("[line 1] Error: Only instances have properties.", run_error("print 1.a;"));
    assert_eq!(
        "[line 1] Error: Can only set properties on instances.",
        run_error("var a = 1; a.b = 2;")
    );
    assert_eq!(
        "[line 1] Error: Can only call functions, instances and methods.",
        run_error("\"s\"();")
    );
    assert_eq!(
        "[line 1] Error: Expected 2 arguments for function '<fn f>' but got 1.",
        run_error("fun f(a, b) {} f(1);")
    );
    assert_eq!("[line 1] Error: Unrecognized binary expression.", run_error("print 1 < \"a\";"));
    assert_eq!("[line 1] Error: super class must be a class type.", run_error("var B = 1; class A < B {}"));
    assert_eq!("[line 2] Error: Operand must be a number.", run_error("\nprint -nil;"));
}

#[test]
fn resolver_error_messages() {
    assert_eq!("Error: Can't return from top level code.", run_error("return;"));
    assert_eq!("[line 1] Error: Can't use 'this' outside of a class.", run_error("print this;"));
    assert_eq!(
        "[line 1] Error: Can't use 'super' outside of a class.",
        run_error("fun f() { super.x(); }")
    );
    assert_eq!(
        "[line 1] Error: Can't use 'super' in a class with no superclass.",
        run_error("class A { m() { super.m(); } }")
    );
    assert_eq!("[line 1] Error: A class can't inherit from itself.", run_error("class A < A {}"));
    assert_eq!(
        "[line 1] Error: Can't return a value from an initializer.",
        run_error("class A { init() { return 1; } }")
    );
}

#[test]
fn parse_errors_are_reported_after_running() {
    let (output, err) = run_content("print 1;\nprint ;\nprint 2;\nprint 3;");
    assert_eq!("1\n3\n", output);
    assert_eq!(
        "[line 2] Error: Unexpected token: SEMICOLON.\n",
        err.expect("parse errors").to_string()
    );
}

#[test]
fn scanning_errors_are_parse_errors() {
    let (_, err) = run_content("print 1 @ 2;");
    let text = err.expect("errors").to_string();
    assert!(text.starts_with("[line 1] Error: [line 1] Error: Unexpected character: @."));
}

#[test]
fn evaluate_writes_value_without_newline() {
    let (output, err) = evaluate_content("1 + 2 * 3");
    assert!(err.is_none());
    assert_eq!("7", output);
    let (output, err) = evaluate_content("\"a\" + \"b\"");
    assert!(err.is_none());
    assert_eq!("ab", output);
}

#[test]
fn evaluate_without_expression_fails() {
    let (output, err) = evaluate_content("");
    assert_eq!("", output);
    assert_eq!("Error: No expression found..", err.expect("error").to_string());
}

#[test]
fn program_runs_once() {
    let mut interpreter = Interpreter::build("print 1;").unwrap();
    assert!(interpreter.run().is_ok());
    let err = interpreter.run().err().expect("error");
    assert_eq!("Error: Interpreter's statements have already been consumed.", err.to_string());
    let err = interpreter.evaluate().err().expect("error");
    assert_eq!("Error: Interpreter's statements have already been consumed.", err.to_string());
    assert_eq!("1\n", interpreter.output_string());
}

#[test]
fn parser_errors_only_after_parsing() {
    let mut parser = Parser::build("(1").unwrap();
    assert!(parser.errors().is_none());
    assert!(parser.parse_expression().is_err());
    let errors = parser.errors().expect("errors");
    assert_eq!("[line 2] Error: Expect ')' after expression.\n", errors.to_string());
    assert!(parser.errors().is_none());
    let err = parser.parse().err().expect("error");
    assert_eq!("Error: Parser's tokens have already been consumed.", err.to_string());
}

#[test]
fn statements_print_as_text() {
    let mut parser = Parser::build("var a = 1; if (a) print a; else { print 2; }").unwrap();
    let statements = parser.parse().unwrap();
    assert_eq!(2, statements.len());
    assert_eq!("var a=1.0", statements[0].to_string());
    assert_eq!(
        "if (var \"a\") then print (var \"a\") else {\nprint 2.0\n}\n",
        statements[1].to_string()
    );
}

#[test]
fn closures_share_their_scope() {
    let (output, err) = run_content(
        "fun make() { var n = 0; fun inc() { n = n + 1; return n; } return inc; }\n\
         var a = make(); var b = make(); print a(); print a(); print b();",
    );
    assert!(err.is_none());
    assert_eq!("1\n2\n1\n", output);
}

#[test]
fn recursion_and_loops() {
    let (output, err) = run_content(
        "fun fib(n) { if (n < 2) return n; return fib(n - 1) + fib(n - 2); }\n\
         for (var i = 0; i < 10; i = i + 1) { if (i == 9) print fib(i); }",
    );
    assert!(err.is_none());
    assert_eq!("34\n", output);
}

#[test]
fn bound_method_is_shared() {
    let (output, err) = run_content(
        "class P { name() { return this.n; } }\n\
         var a = P(); a.n = \"a\"; var b = P(); b.n = \"b\";\n\
         var m = a.name; var k = b.name; print m(); print k();",
    );
    assert!(err.is_none());
    assert_eq!("b\nb\n", output);
}

#[test]
fn builtins_print_their_names() {
    let (output, err) = run_content("print clock; print env; fun f() {} print f; print fun () {};");
    assert!(err.is_none());
    assert_eq!("clock\nenv\n<fn f>\n<fn __<fun_anon>>\n", output);
}

#[test]
fn env_of_missing_variable_is_nil() {
    let mut interpreter = Interpreter::build("print env(\"NOT_SET\"); print env(1);").unwrap();
    let err = interpreter.run().err().expect("error");
    assert_eq!("nil\n", interpreter.output_string());
    assert_eq!("[line 1] Error: Invalid argument to 'env' function.", err.to_string());
}

#[test]
fn evaluate_pure_expressions() {
    for (source, expected) in [("!nil", "true"), ("1 < 2 == true", "true"), ("-(1 + 2)", "-3"), ("nil and 1", "nil")] {
        let (output, err) = evaluate_content(source);
        assert!(err.is_none(), "{}", source);
        assert_eq!(expected, output, "{}", source);
    }
    let (output, err) = evaluate_content("-\"a\"");
    assert_eq!("", output);
    assert_eq!("[line 1] Error: Operand must be a number.", err.expect("error").to_string());
}

#[test]
fn variable_statement_binds_its_value() {
    let (output, err) = run_content("var a = 1 + 2; var b; print a; print b;");
    assert!(err.is_none());
    assert_eq!("3\nnil\n", output);
}

#[test]
fn if_runs_the_selected_branch_only() {
    let (output, err) = run_content("if (1 < 2) print 1; else print 2; if (nil) print 3; else print 4; if (false) print 5;");
    assert!(err.is_none());
    assert_eq!("1\n4\n", output);
}

#[test]
fn while_with_false_condition_does_nothing() {
    let (output, err) = run_content("while (false) print 1; print 2;");
    assert!(err.is_none());
    assert_eq!("2\n", output);
}

#[test]
fn return_gives_the_value() {
    let (output, err) = run_content("fun f() { return 1 + 1; } fun g() { return; } print f(); print g();");
    assert!(err.is_none());
    assert_eq!("2\nnil\n", output);
}

#[test]
fn failed_parse_makes_run_fail() {
    let (output, err) = run_content("print 1;\nprint ;");
    assert!(err.is_some());
    assert_eq!("1\n", output);
}

#[test]
fn read_after_write() {
    let (output, err) = run_content("var a = 1; print a = 2; print a; { a = 3; } print a;");
    assert!(err.is_none());
    assert_eq!("2\n2\n3\n", output);
}

#[test]
fn property_read_after_write() {
    let (output, err) = run_content(
        "class A {} var a = A(); var b = A(); a.x = 1; b.x = 5; a.y = 3; a.x = 2; print a.x; print a.y; print b.x;",
    );
    assert!(err.is_none());
    assert_eq!("2\n3\n5\n", output);
}

#[test]
fn methods_are_found_up_the_superclass_chain() {
    let (output, err) = run_content(
        "class A { f() { return 1; } g() { return 2; } } class B < A { g() { return 3; } } class C < B {}\n\
         var c = C(); print c.f(); print c.g(); print c.h;",
    );
    assert!(err.is_none());
    assert_eq!("1\n3\nnil\n", output);
}

#[test]
fn clock_outcome_maps_time_and_error() {
    assert_eq!(42, clock_outcome(Ok(42), 3).unwrap());
    match clock_outcome(Err("before epoch".chars().collect()), 7) {
        Err(InterpreterError::RuntimeError(m)) => {
            assert_eq!("System time error: before epoch", m.message.iter().collect::<String>());
            assert_eq!(Some(7), m.line);
        }
        _ => panic!("expected a runtime error"),
    }
}

#[test]
fn class_declaration_and_init_call() {
    let (output, err) = run_content(
        "class A { init(x) { this.x = x; } get() { return this.x; } } class B < A { get() { return super.get() + 1; } } var b = B(41); print b.get(); print A;",
    );
    assert!(err.is_none());
    assert_eq!("42\nclass A {...}\n", output);
}

#[test]
fn call_gives_return_value_or_nil() {
    let (output, err) = run_content(
        "fun f(a, b) { return a + b; } fun g() {} print f(1, 2); print g(); var h = fun (x) { return x * 2; }; print h(4);",
    );
    assert!(err.is_none());
    assert_eq!("3\nnil\n8\n", output);
}


#[test]
fn invalid_assignment_target_is_reported_after_running() {
    let (output, err) = run_content("var x = 1 = 2;\nprint x;");
    assert_eq!("nil\n", output);
    let text = err.expect("parse errors").to_string();
    assert!(text.contains("Invalid assignment target"), "{}", text);
}

#[test]
fn clean_program_succeeds() {
    let (output, err) = run_content("var a = 1; a = a + 1; print a;");
    assert!(err.is_none());
    assert_eq!("2\n", output);
}
