use interpreter_starter_rust::scanner::{Literal, Scanner, Token, TokenType};

fn chars(s: &str) -> Vec<char> {
    s.chars().collect()
}

fn scan_content(content: &str) -> Vec<Token> {
    let scanner = Scanner::new(content);
    let mut tokens = scanner.scan().unwrap();
    tokens.scan_all().into_iter().map(|i| i.unwrap()).collect()
}

fn kinds(tokens: &[Token]) -> Vec<TokenType> {
    tokens.iter().map(|t| t.token_type).collect()
}

#[test]
fn scanner_string_literal() {
    let tokens = scan_content("foo \"hello\"");
    assert_eq!(
        vec![
            Token::new(TokenType::Identifier, chars("foo"), 1),
            Token::with_literal(TokenType::String, chars("\"hello\""), Literal::String(chars("hello")), 1),
            Token::new(TokenType::EOF, chars(""), 2)
        ],
        tokens
    );
}

#[test]
fn scanner_digit_literal() {
    let tokens = scan_content("bar 123.456");
    assert_eq!(
        vec![
            Token::new(TokenType::Identifier, chars("bar"), 1),
            Token::with_literal(TokenType::Number, chars("123.456"), Literal::Digit(123.456f64.to_bits()), 1),
            Token::new(TokenType::EOF, chars(""), 2)
        ],
        tokens
    );
}

#[test]
fn scanner_numbers() {
    let tokens = scan_content("1 + 2");
    assert_eq!(vec![TokenType::Number, TokenType::Plus, TokenType::Number, TokenType::EOF], kinds(&tokens));
}

#[test]
fn scanner_identifiers() {
    let tokens = scan_content("test");
    assert_eq!(vec![TokenType::Identifier, TokenType::EOF], kinds(&tokens));
}

#[test]
fn scanner_keywords() {
    let tokens = scan_content("true false class");
    assert_eq!(vec![TokenType::True, TokenType::False, TokenType::Class, TokenType::EOF], kinds(&tokens));
}

#[test]
fn scanner_errors_do_not_stop_scanning() {
    let scanner = Scanner::new("@ \"open");
    let mut tokens = scanner.scan().unwrap();
    let items = tokens.scan_all();
    assert_eq!(3, items.len());
    assert_eq!(
        "[line 1] Error: Unexpected character: @",
        items[0].clone().unwrap_err().iter().collect::<String>()
    );
    assert_eq!(
        "[line 1] Error: Unterminated string.",
        items[1].clone().unwrap_err().iter().collect::<String>()
    );
    assert_eq!(TokenType::EOF, items[2].clone().unwrap().token_type);
    assert!(tokens.next().is_none());
}

#[test]
fn scanner_comments_and_lines() {
    let tokens = scan_content("// note\nvar x = 1;\r\n\"a\nb\" != 2.5.x");
    assert_eq!(
        vec![TokenType::Var, TokenType::Identifier, TokenType::Equal, TokenType::Number, TokenType::Semicolon, TokenType::String, TokenType::BangEqual, TokenType::Number, TokenType::Dot, TokenType::Identifier, TokenType::EOF],
        kinds(&tokens)
    );
    assert_eq!(2, tokens[0].line);
    assert_eq!(4, tokens[5].line);
    assert_eq!(chars("2.5"), tokens[7].lexeme);
    assert_eq!(5, tokens[10].line);
}

#[test]
fn scanner_token_text() {
    let tokens = scan_content("print 12 \"s\" and");
    assert_eq!("PRINT print null", tokens[0].to_string());
    assert_eq!("NUMBER 12 12.0", tokens[1].to_string());
    assert_eq!("STRING \"s\" s", tokens[2].to_string());
    assert_eq!("AND and null", tokens[3].to_string());
    assert_eq!("EOF  null", tokens[4].to_string());
}

#[test]
fn scanner_reader_is_used_once() {
    let mut scanner = Scanner::new("1");
    assert!(scanner.scan_tokens().is_ok());
    let err = scanner.scan_tokens().err().unwrap();
    let shown: String = err.display_chars().iter().collect();
    assert_eq!("Scanner's reader has already been consumed", shown);
}
