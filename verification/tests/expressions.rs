use interpreter_starter_rust::errors::InterpreterError;
use interpreter_starter_rust::interpreter::Interpreter;
use interpreter_starter_rust::parser::{Expr, Parser};
#[test]
fn parse_content_to_expression_bang_equal() {
    let res = parse_content_to_expression("(12 != 13)");
    assert!(res.is_ok());
    assert_eq!(
        "(group (!= 12.0 13.0))",
        res.unwrap().unwrap().to_string()
    );
}

#[test]
fn parse_content_to_expression_equal_equal() {
    let res = parse_content_to_expression("\"foo\"==\"bar\"");
    assert!(res.is_ok());
    assert_eq!("(== foo bar)", res.unwrap().unwrap().to_string());
}

#[test]
fn parse_complex_expression_1() {
    let res = parse_content_to_expression("(85 + 64 - 59) > (30 - 85) * 2");
    assert!(res.is_ok());
    assert_eq!(
        "(> (group (- (+ 85.0 64.0) 59.0)) (* (group (- 30.0 85.0)) 2.0))",
        res.unwrap().unwrap().to_string()
    );
}

#[test]
fn expressions_run_expression_statements() {
    let (output, err) = run_content(
        r#"(85 + 64 - 59) > (30 - 85) * 2;
print !false;
"world" + "hello" + "foo" + "quz" == "worldhellofooquz";
print !false;"#,
    );
    assert!(err.is_none());
    assert_eq!(
        r#"true
true
"#,
        output
    );
}

fn run_content(content: &str) -> (String, Option<InterpreterError>) {
    let mut interpreter = Interpreter::build(content).unwrap();
    let res = interpreter.run();
    (interpreter.output_string(), res.err())
}

fn parse_content_to_expression(content: &str) -> Result<Option<Expr>, InterpreterError> {
    let mut parser = Parser::build(content).unwrap();
    parser.parse_expression()
}
