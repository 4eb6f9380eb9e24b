use interpreter_starter_rust::parser::{Parser, Statement};

fn parse_all(content: &str) -> Vec<Statement> {
    let mut parser = Parser::build(content).unwrap();
    parser.parse().unwrap()
}

#[test]
fn for_without_clauses_reads_as_while_true() {
    let statements = parse_all("for (;;) print 1;");
    assert_eq!(1, statements.len());
    assert_eq!("while true do print 1.0", statements[0].to_string());
}

#[test]
fn for_with_clauses_reads_as_block_around_while() {
    let statements = parse_all("for (var i = 0; i < 2; i = i + 1) print i;");
    assert_eq!(1, statements.len());
    assert_eq!(
        "{\nvar i=0.0\nwhile (< (var \"i\") 2.0) do {\nprint (var \"i\")\n(assignment IDENTIFIER i null=(+ (var \"i\") 1.0))\n}\n\n}\n",
        statements[0].to_string()
    );
}

#[test]
fn function_declaration_reads_as_variable() {
    let statements = parse_all("fun f(a, b) { print a; }");
    assert_eq!(1, statements.len());
    assert_eq!("var f=<fn f>", statements[0].to_string());
}

#[test]
fn class_declaration_keeps_its_methods() {
    let statements = parse_all("class A < B { f() { return 1; } g(x) {} }");
    assert_eq!(1, statements.len());
    assert_eq!("class A", statements[0].to_string());
    match &statements[0] {
        Statement::Class(_, methods, superclass) => {
            assert_eq!(2, methods.len());
            assert!(superclass.is_some());
        }
        _ => panic!("expected a class"),
    }
}

#[test]
fn while_and_return_statements() {
    let statements = parse_all("while (true) { return; }");
    assert_eq!(1, statements.len());
    assert_eq!("while true do {\nreturn\n}\n", statements[0].to_string());
}
