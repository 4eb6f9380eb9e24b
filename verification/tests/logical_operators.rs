use interpreter_starter_rust::errors::InterpreterError;
use interpreter_starter_rust::interpreter::Interpreter;
#[test]
fn or_string_number() {
    let (output, err) = run_content(r#"print "foo" or 2;"#);
    assert!(err.is_none());
    assert_eq!("foo\n", output);
}

#[test]
fn or_nil_string() {
    let (output, err) = run_content(r#"print nil or "bar";"#);
    assert!(err.is_none());
    assert_eq!("bar\n", output);
}

#[test]
fn if_or() {
    let (output, err) = run_content(
        r#"if (true or false) {
    print 42;
}"#,
    );
    assert!(err.is_none());
    assert_eq!("42\n", output);
}

#[test]
fn if_and_1() {
    let (output, err) = run_content(
        r#"if (true and false) {
    print 42;
}"#,
    );
    assert!(err.is_none());
    assert_eq!("", output);
}

#[test]
fn if_and_nil_number() {
    let (output, err) = run_content(
        r#"if (nil and 42) {
    print 42;
} else {
    print 84;
}"#,
    );
    assert!(err.is_none());
    assert_eq!("84\n", output);
}

fn run_content(content: &str) -> (String, Option<InterpreterError>) {
    let mut interpreter = Interpreter::build(content).unwrap();
    let res = interpreter.run();
    (interpreter.output_string(), res.err())
}
