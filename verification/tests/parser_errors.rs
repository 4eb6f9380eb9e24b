use interpreter_starter_rust::errors::InterpreterError;
use interpreter_starter_rust::parser::{Expr, Parser};
#[test]
fn parser_empty() {
    let res = parse_content_to_expression("");
    assert!(res.is_err());
}

#[test]
fn parser_invalid_grammar() {
    let res = parse_content_to_expression("(false 123.456 \"test\"");
    assert!(res.is_err());
}

#[test]
fn parser_invalid_grammar_multiple_error() {
    let res = parse_content_to_expression(
        r#"(false
var a = bleh;
beh"#,
    );
    assert!(res.is_err());
}

fn parse_content_to_expression(content: &str) -> Result<Option<Expr>, InterpreterError> {
    let mut parser = Parser::build(content).unwrap();
    parser.parse_expression()
}
