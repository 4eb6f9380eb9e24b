use interpreter_starter_rust::errors::InterpreterError;
use interpreter_starter_rust::parser::{Expr, Parser};
#[test]
fn parse_print() {
    let res = parse_content("print 42;");
    assert!(res.is_err());
}

fn parse_content(content: &str) -> Result<Option<Expr>, InterpreterError> {
    let mut parser = Parser::build(content).unwrap();
    parser.parse_expression()
}
