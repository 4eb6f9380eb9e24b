use interpreter_starter_rust::errors::InterpreterError;
use interpreter_starter_rust::interpreter::Interpreter;
#[test]
fn variables_run_var_print_1() {
    let (output, err) = run_content(
        r#"var a = "foo";
print a;"#,
    );
    assert!(err.is_none());
    assert_eq!("foo\n", output);
}

#[test]
fn variables_run_var_print_2() {
    let (output, err) = run_content(
        r#"var a = 20 + 22;
print a;"#,
    );
    assert!(err.is_none());
    assert_eq!("42\n", output);
}

#[test]
fn variables_run_var_redeclare_print_2() {
    let (output, err) = run_content(
        r#"var a = 20 + 22;
var a = "foo";
print a;"#,
    );
    assert!(err.is_none());
    assert_eq!("foo\n", output);
}

#[test]
fn variables_run_var_unassigned() {
    let (output, err) = run_content(
        r#"var a;
print a;"#,
    );
    assert!(err.is_none());
    assert_eq!("nil\n", output);
}

#[test]
fn variables_run_var_undefined() {
    let (_, err) = run_content("print a;");
    assert!(err.is_some());
}

#[test]
fn variables_run_var_assignment_1() {
    let (output, err) = run_content(
        r#"var a = 20;
a = 42;
print a;"#,
    );
    assert!(err.is_none());
    assert_eq!("42\n", output);
}

#[test]
fn variables_run_var_assignment_2() {
    let (output, err) = run_content(
        r#"var a = 20;
a = a + 22;
print a;"#,
    );
    assert!(err.is_none());
    assert_eq!("42\n", output);
}

#[test]
fn variables_run_var_assignment_3() {
    let (output, err) = run_content(
        r#"var quz;
quz = 1;
print quz;
print quz = 2;
print quz;
"#,
    );
    assert!(err.is_none());
    assert_eq!(
        r#"1
2
2
"#,
        output
    );
}

fn run_content(content: &str) -> (String, Option<InterpreterError>) {
    let mut interpreter = Interpreter::build(content).unwrap();
    let res = interpreter.run();
    (interpreter.output_string(), res.err())
}
