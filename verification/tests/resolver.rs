use interpreter_starter_rust::errors::InterpreterError;
use interpreter_starter_rust::parser::{Parser, Statement};
use interpreter_starter_rust::resolver::Resolver;

fn parse_content(content: &str) -> Result<Vec<Statement>, InterpreterError> {
    let mut parser = Parser::build(content).unwrap();
    parser.parse()
}

#[test]
fn resolver_empty() {
    let res = parse_content("");
    assert!(res.is_ok());
    let mut sut = Resolver::new();
    let res = sut.resolve(&res.unwrap());
    assert!(res.is_ok());
    assert_eq!(0, sut.resolve_table.len());
}

#[test]
fn resolver_one_variable() {
    let res = parse_content(
        r#"{
    var foo = 42;
    print foo;
}"#,
    );
    assert!(res.is_ok());
    let mut sut = Resolver::new();
    let res = sut.resolve(&res.unwrap());
    assert!(res.is_ok());
    assert_eq!(1, sut.resolve_table.len());
}

#[test]
fn resolver_distances() {
    let res = parse_content("{ var a = 1; { var b = a; print b; } }").unwrap();
    let mut sut = Resolver::new();
    assert!(sut.resolve(&res).is_ok());
    let distances: Vec<usize> = sut.resolve_table.iter().map(|e| e.1).collect();
    assert_eq!(vec![1, 0], distances);
}

#[test]
fn resolver_rejects_redeclaration() {
    let res = parse_content("{ var a = 1; var a = 2; }").unwrap();
    let mut sut = Resolver::new();
    let err = sut.resolve(&res).err().unwrap();
    assert_eq!(
        "[line 1] Error: Already a variable with name 'a' in this scope.",
        err.to_string()
    );
}

#[test]
fn resolver_distances_in_functions() {
    let res = parse_content("fun f(a) { { print a; } }").unwrap();
    let mut sut = Resolver::new();
    assert!(sut.resolve(&res).is_ok());
    let distances: Vec<usize> = sut.resolve_table.iter().map(|e| e.1).collect();
    assert_eq!(vec![1], distances);
}

#[test]
fn resolver_rejects_repeated_parameter() {
    let res = parse_content("fun f(a, a) {}").unwrap();
    let mut sut = Resolver::new();
    let err = sut.resolve(&res).err().unwrap();
    assert_eq!(
        "[line 1] Error: Already a variable with name 'a' in this scope.",
        err.to_string()
    );
}

#[test]
fn resolver_keeps_scopes_balanced() {
    let res = parse_content("{ var a = 1; fun g() { return a; } class C < D { m() { return this; } } }")
        .unwrap();
    let mut sut = Resolver::new();
    assert!(sut.resolve(&res).is_ok());
    assert_eq!(0, sut.scopes.len());
}
