use interpreter_starter_rust::errors::InterpreterError;
use interpreter_starter_rust::interpreter::Interpreter;
use interpreter_starter_rust::parser::{Expr, Parser};
use interpreter_starter_rust::scanner::{Literal, Scanner, Token, TokenType};

fn chars(s: &str) -> Vec<char> {
    s.chars().collect()
}

fn scan_content(content: &str) -> Vec<Token> {
    let scanner = Scanner::new(content);
    let mut tokens = scanner.scan().unwrap();
    tokens.scan_all().into_iter().map(|i| i.unwrap()).collect()
}

fn kinds(tokens: &[Token]) -> Vec<TokenType> {
    tokens.iter().map(|t| t.token_type).collect()
}

fn parse_content(content: &str) -> Result<Option<Expr>, InterpreterError> {
    let mut parser = Parser::build(content).unwrap();
    parser.parse_expression()
}

fn evaluate_content(content: &str) -> (String, Option<InterpreterError>) {
    let mut interpreter = Interpreter::build(content).unwrap();
    let res = interpreter.evaluate();
    (interpreter.output_string(), res.err())
}

#[test]
fn scan_string_literal() {
    let tokens = scan_content("foo \"hello\"");
    assert_eq!(
        vec![
            Token::new(TokenType::Identifier, chars("foo"), 1),
            Token::with_literal(TokenType::String, chars("\"hello\""), Literal::String(chars("hello")), 1),
            Token::new(TokenType::EOF, chars(""), 2)
        ],
        tokens
    );
}

#[test]
fn scan_digit_literal() {
    let tokens = scan_content("bar 123.456");
    assert_eq!(
        vec![
            Token::new(TokenType::Identifier, chars("bar"), 1),
            Token::with_literal(TokenType::Number, chars("123.456"), Literal::Digit(123.456f64.to_bits()), 1),
            Token::new(TokenType::EOF, chars(""), 2)
        ],
        tokens
    );
}

#[test]
fn scan_numbers() {
    let tokens = scan_content("1 + 2");
    assert_eq!(vec![TokenType::Number, TokenType::Plus, TokenType::Number, TokenType::EOF], kinds(&tokens));
}

#[test]
fn scan_identifiers() {
    let tokens = scan_content("test");
    assert_eq!(vec![TokenType::Identifier, TokenType::EOF], kinds(&tokens));
}

#[test]
fn scan_keywords() {
    let tokens = scan_content("true false class");
    assert_eq!(vec![TokenType::True, TokenType::False, TokenType::Class, TokenType::EOF], kinds(&tokens));
}

#[test]
fn parse_boolean() {
    let res = parse_content("true");
    assert!(res.is_ok());
    assert_eq!("true", res.unwrap().unwrap().to_string());
}

#[test]
fn parse_number() {
    let res = parse_content("123.456");
    assert!(res.is_ok());
    assert_eq!("123.456", res.unwrap().unwrap().to_string());
}

#[test]
fn evaluate_literal_string() {
    let (output, err) = evaluate_content("\"foo\"");
    assert!(err.is_none());
    assert_eq!("foo", output);
}

#[test]
fn evaluate_literal_numeric() {
    let (output, err) = evaluate_content("42");
    assert!(err.is_none());
    assert_eq!("42", output);
}
