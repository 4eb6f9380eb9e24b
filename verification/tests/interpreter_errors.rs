use interpreter_starter_rust::errors::InterpreterError;
use interpreter_starter_rust::interpreter::Interpreter;
#[test]
fn evaluate_runtime_error_1() {
    let (_, err) = evaluate_content("-\"muffin\"");
    assert!(err.is_some());
    assert_eq!(
        "[line 1] Error: Operand must be a number.",
        err.unwrap().to_string()
    );
}

#[test]
fn evaluate_runtime_error_2() {
    let (_, err) = evaluate_content("3 / \"muffin\"");
    assert!(err.is_some());
    assert_eq!(
        "[line 1] Error: Operands must be numbers.",
        err.unwrap().to_string()
    );
}

#[test]
fn evaluate_runtime_error_3() {
    let (_, err) = evaluate_content("3 + \"muffin\"");
    assert!(err.is_some());
    assert_eq!(
        "[line 1] Error: Operands must be two numbers or two strings.",
        err.unwrap().to_string()
    );
}

#[test]
fn evaluate_runtime_error_4() {
    let (_, err) = evaluate_content("3 - \"muffin\"");
    assert!(err.is_some());
    assert_eq!(
        "[line 1] Error: Operands must be two numbers or two strings.",
        err.unwrap().to_string()
    );
}

fn evaluate_content(content: &str) -> (String, Option<InterpreterError>) {
    let mut interpreter = Interpreter::build(content).unwrap();
    let res = interpreter.evaluate();
    (interpreter.output_string(), res.err())
}
