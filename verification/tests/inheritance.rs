use interpreter_starter_rust::errors::InterpreterError;
use interpreter_starter_rust::interpreter::Interpreter;
#[test]
fn inheritance_print_class() {
    let (output, err) = run_content(
        r#"class Doughnut {
    tastes() {
        return "good";
    }
}

class BostonCream < Doughnut {}

var bc = BostonCream();
print bc.tastes();"#,
    );
    assert!(err.is_none());
    assert_eq!("good\n", output);
}

#[test]
fn cant_inherit_from_non_existing() {
    let (_, err) = run_content("class A < B {}");
    assert!(err.is_some());
}

#[test]
fn cant_inherit_from_self() {
    let (_, err) = run_content("class A < A {}");
    assert!(err.is_some());
}

#[test]
fn must_inherit_from_class() {
    let (_, err) = run_content(
        r#"var NotAClass = "I'm not a class";
        class A < NotAClass {}"#,
    );
    assert!(err.is_some());
}

#[test]
fn two_levels_of_inheritance() {
    let (output, err) = run_content(
        r#"class Doughnut {
    tastes() {
        return "good";
    }
}

class BostonCream < Doughnut {}

class WhippedCreameToppedBoston < BostonCream {}

var wctb = WhippedCreameToppedBoston();
print wctb.tastes();"#,
    );
    assert!(err.is_none());
    assert_eq!("good\n", output);
}

#[test]
fn super_call() {
    let (output, err) = run_content(
        r#"class Doughnut {
    tastes() {
        print "good";
    }
}

class BostonCream < Doughnut {
    tastes() {
        super.tastes();
        print "no wait, very good!";
    }
}

var bc = BostonCream();
bc.tastes();"#,
    );
    assert!(err.is_none());
    assert_eq!("good\nno wait, very good!\n", output);
}

#[test]
fn super_store_method_in_variable() {
    let (output, err) = run_content(
        r#"class Doughnut {
    tastes() {
        print "good";
    }
}

class BostonCream < Doughnut {
    tastes() {
        var st = super.tastes;
        st();
        print "no wait, very good!";
    }
}

var bc = BostonCream();
bc.tastes();"#,
    );
    assert!(err.is_none());
    assert_eq!("good\nno wait, very good!\n", output);
}

#[test]
fn super_binding() {
    let (output, err) = run_content(
        r#"class A {
    method() {
        print "A method";
    }
}

class B < A {
    method() {
        print "B method";
    }

    test() {
        super.method();
    }
}

class C < B {}

C().test();"#,
    );
    assert!(err.is_none());
    assert_eq!("A method\n", output);
}

#[test]
fn super_outside_class() {
    let (_, err) = run_content(
        r#"fun foo() {
    super.bar();
}

foo();"#,
    );
    assert!(err.is_some());
}

#[test]
fn super_in_class_without_superclass() {
    let (_, err) = run_content(
        r#"class C {
    bar() {
        super.foo();
    }
}

C().bar();"#,
    );
    assert!(err.is_some());
}

fn run_content(content: &str) -> (String, Option<InterpreterError>) {
    let mut interpreter = Interpreter::build(content).unwrap();
    let res = interpreter.run();
    (interpreter.output_string(), res.err())
}
