//! Which scopes a step of the interpreter can give new names: an
//! expression none that existed before it, a statement only the scope it
//! runs in. Hence a block, which runs in a scope of its own, leaves the
//! names visible from around it as they were.
use vstd::prelude::*;
use crate::environment::{Environment, FrameView, assigned, defined, fresh, lookup, owner, lemma_owner_bound};
use crate::interpreter::{
    Interpreter, StatementResult, Value, FunctionKind, bind_done, block_runs, call_runs,
    class_body, class_declared, class_runs, evaluates, evaluates_all, executes, executes_all,
    function_runs, methods_made, params_bound, super_done, while_runs, same_but_envs,
    args_trigger, step_trigger, run_trigger, state_trigger, methods_trigger, assignment_done,
    without_value, scope_added, only_defined, instance_added, class_added, spec_arity,
};
use crate::errors::InterpreterError;
use crate::parser::{Expr, Statement};
use crate::scanner::TokenType;

verus! {

/// Whether two scopes hold the same names, in the same order, around the
/// same scope.
pub open spec fn same_names(x: FrameView<Value>, y: FrameView<Value>) -> bool {
    x.keys == y.keys && x.enclosing == y.enclosing && x.values.len() == y.values.len()
}

/// Whether store `b` has at least the scopes of `a`, and each scope of `a`
/// but `e1` and `e2` holds the same names in `b`.
pub open spec fn names_kept(a: Seq<FrameView<Value>>, b: Seq<FrameView<Value>>, e1: int, e2: int) -> bool {
    &&& a.len() <= b.len()
    &&& forall|g: int| 0 <= g < a.len() && g != e1 && g != e2 ==> same_names(#[trigger] b[g], a[g])
}

/// `names_kept` between the scopes of two states.
pub open spec fn kept(s: Interpreter, t: Interpreter, e1: int, e2: int) -> bool {
    names_kept(s.envs.view(), t.envs.view(), e1, e2)
}

proof fn lemma_kept_trans(a: Interpreter, b: Interpreter, c: Interpreter, e1: int, e2: int)
    requires
        kept(a, b, e1, e2),
        kept(b, c, e1, e2),
    ensures
        kept(a, c, e1, e2),
{
    assert forall|g: int| 0 <= g < a.envs.view().len() && g != e1 && g != e2 implies same_names(
        #[trigger] c.envs.view()[g],
        a.envs.view()[g],
    ) by {
        assert(same_names(b.envs.view()[g], a.envs.view()[g]));
        assert(same_names(c.envs.view()[g], b.envs.view()[g]));
    }
}

proof fn lemma_names_trans(a: Seq<FrameView<Value>>, b: Seq<FrameView<Value>>, c: Seq<FrameView<Value>>, e1: int, e2: int, m1: int, m2: int)
    requires
        names_kept(a, b, e1, e2),
        names_kept(b, c, m1, m2),
        m1 == e1 || m1 == e2 || m1 >= a.len() || m1 < 0,
        m2 == e1 || m2 == e2 || m2 >= a.len() || m2 < 0,
    ensures
        names_kept(a, c, e1, e2),
{
    assert forall|g: int| 0 <= g < a.len() && g != e1 && g != e2 implies same_names(#[trigger] c[g], a[g]) by {
        assert(same_names(b[g], a[g]));
        assert(same_names(c[g], b[g]));
    }
}

/// `kept` composes when the second step's exceptions are the first's or
/// scopes made after it.
proof fn lemma_kept_then(a: Interpreter, b: Interpreter, c: Interpreter, e1: int, e2: int, m1: int, m2: int)
    requires
        kept(a, b, e1, e2),
        kept(b, c, m1, m2),
        m1 == e1 || m1 == e2 || m1 >= a.envs.view().len() || m1 < 0,
        m2 == e1 || m2 == e2 || m2 >= a.envs.view().len() || m2 < 0,
    ensures
        kept(a, c, e1, e2),
{
    lemma_names_trans(a.envs.view(), b.envs.view(), c.envs.view(), e1, e2, m1, m2);
}

proof fn lemma_kept_weaken(a: Interpreter, b: Interpreter, e1: int, e2: int)
    requires
        kept(a, b, -1, -1),
    ensures
        kept(a, b, e1, e2),
{
}

proof fn lemma_defined_kept(v: Seq<FrameView<Value>>, f: int, k: Seq<char>, x: Value)
    requires
        0 <= f < v.len(),
    ensures
        names_kept(v, defined(v, f, k, x), f, f),
{
}

proof fn lemma_assigned_kept(v: Seq<FrameView<Value>>, f: int, k: Seq<char>, x: Value)
    requires
        owner(v, f, k) >= 0,
    ensures
        names_kept(v, assigned(v, f, k, x), -1, -1),
{
    lemma_owner_bound(v, f, k);
}

proof fn lemma_params_kept(v: Seq<FrameView<Value>>, k: int, ps: Seq<Vec<char>>, vs: Seq<Value>, n: nat)
    requires
        0 <= k < v.len(),
    ensures
        names_kept(v, params_bound(v, k, ps, vs, n), k, k),
        params_bound(v, k, ps, vs, n).len() == v.len(),
    decreases n,
{
    if n > 0 {
        lemma_params_kept(v, k, ps, vs, (n - 1) as nat);
    }
}

proof fn lemma_bind_kept(s: Interpreter, f: usize, i: usize, t: Interpreter, r: Result<(), InterpreterError>)
    requires
        bind_done(s, f, i, t, r),
    ensures
        kept(s, t, -1, -1),
{
}

proof fn lemma_super_kept(
    s: Interpreter,
    env: Environment,
    id: usize,
    method: crate::scanner::Token,
    t: Interpreter,
    r: Result<Value, InterpreterError>,
)
    requires
        super_done(s, env, id, method, t, r),
    ensures
        kept(s, t, -1, -1),
{
    assert forall|f: usize, i: usize, rb: Result<(), InterpreterError>| #[trigger] bind_done(s, f, i, t, rb) implies kept(s, t, -1, -1) by {
        lemma_bind_kept(s, f, i, t, rb);
    }
}

/// Evaluating an expression gives no new name to a scope that existed
/// before.
pub proof fn lemma_evaluates_kept(
    s: Interpreter,
    env: Environment,
    e: Expr,
    d: nat,
    t: Interpreter,
    r: Result<Value, InterpreterError>,
)
    requires
        evaluates(s, env, e, d, t, r),
        env.index < s.envs.view().len(),
    ensures
        kept(s, t, -1, -1),
    decreases d, 0nat, 0nat,
{
    if d > 0 {
        let d1 = (d - 1) as nat;
        match e {
            Expr::Grouping(inner) => {
                lemma_evaluates_kept(s, env, *inner, d1, t, r);
            },
            Expr::Unary(token, inner) => {
                if token.token_type == TokenType::Minus || token.token_type == TokenType::Bang {
                    let (s1, r1) = choose|s1: Interpreter, r1: Result<Value, InterpreterError>|
                        #[trigger] step_trigger(s1, r1) && evaluates(s, env, *inner, d1, s1, r1) && t == s1;
                    lemma_evaluates_kept(s, env, *inner, d1, s1, r1);
                }
            },
            Expr::Binary(token, left, right) => {
                let (s1, r1) = choose|s1: Interpreter, r1: Result<Value, InterpreterError>|
                    #[trigger] step_trigger(s1, r1) && evaluates(s, env, *left, d1, s1, r1) && (r1 is Err ==> t == s1)
                        && (r1 is Ok ==> exists|s2: Interpreter, r2: Result<Value, InterpreterError>|
                        #[trigger] step_trigger(s2, r2) && evaluates(s1, env, *right, d1, s2, r2) && (r2 is Err
                            ==> t == s2) && (r2 is Ok ==> t.envs == s2.envs));
                lemma_evaluates_kept(s, env, *left, d1, s1, r1);
                if r1 is Ok {
                    let (s2, r2) = choose|s2: Interpreter, r2: Result<Value, InterpreterError>|
                        #[trigger] step_trigger(s2, r2) && evaluates(s1, env, *right, d1, s2, r2) && (r2 is Err
                            ==> t == s2) && (r2 is Ok ==> t.envs == s2.envs);
                    lemma_evaluates_kept(s1, env, *right, d1, s2, r2);
                    lemma_kept_trans(s, s1, s2, -1, -1);
                }
            },
            Expr::Logical(token, left, right) => {
                if token.token_type == TokenType::And || token.token_type == TokenType::Or {
                    let (s1, r1) = choose|s1: Interpreter, r1: Result<Value, InterpreterError>|
                        #[trigger] step_trigger(s1, r1) && evaluates(s, env, *left, d1, s1, r1) && (r1 is Err
                            ==> t == s1) && (r1 is Ok ==> t == s1 || evaluates(s1, env, *right, d1, t, r));
                    lemma_evaluates_kept(s, env, *left, d1, s1, r1);
                    if r1 is Ok && t != s1 {
                        lemma_evaluates_kept(s1, env, *right, d1, t, r);
                        lemma_kept_trans(s, s1, t, -1, -1);
                    }
                }
            },
            Expr::Assignment(_, name, value) => {
                let (s1, r1) = choose|s1: Interpreter, r1: Result<Value, InterpreterError>|
                    #[trigger] step_trigger(s1, r1) && evaluates(s, env, *value, d1, s1, r1) && (r1 is Err
                        ==> t == s1) && (r1 is Ok ==> assignment_done(s1, t, env, name, Ok(r1->Ok_0), r));
                lemma_evaluates_kept(s, env, *value, d1, s1, r1);
                if r1 is Ok && owner(s1.envs.view(), env.index as int, name.lexeme@) >= 0 {
                    lemma_assigned_kept(s1.envs.view(), env.index as int, name.lexeme@, r1->Ok_0);
                    lemma_kept_trans(s, s1, t, -1, -1);
                }
            },
            Expr::Get(object, name) => {
                let (s1, r1) = choose|s1: Interpreter, r1: Result<Value, InterpreterError>|
                    #[trigger] step_trigger(s1, r1) && evaluates(s, env, *object, d1, s1, r1) && (t == s1
                        || exists|f: usize, i: usize| #[trigger] bind_done(s1, f, i, t, without_value(r)));
                lemma_evaluates_kept(s, env, *object, d1, s1, r1);
                if t != s1 {
                    let (f, i) = choose|f: usize, i: usize| #[trigger] bind_done(s1, f, i, t, without_value(r));
                    lemma_bind_kept(s1, f, i, t, without_value(r));
                    lemma_kept_trans(s, s1, t, -1, -1);
                }
            },
            Expr::Call(callee, paren, arguments) => {
                let (s1, r1) = choose|s1: Interpreter, r1: Result<Value, InterpreterError>|
                    #[trigger] step_trigger(s1, r1) && evaluates(s, env, *callee, d1, s1, r1) && (r1 is Err
                        ==> t == s1) && (r1 is Ok ==> exists|vs: Seq<Value>, s2: Interpreter, r2: Result<(), InterpreterError>|
                        #[trigger] args_trigger(vs, s2, r2) && evaluates_all(s1, env, arguments@, d1, vs, s2, r2)
                            && (r2 is Err ==> t == s2) && (r2 is Ok ==> call_runs(s2, r1->Ok_0, vs, paren.line, d1, t, r)));
                lemma_evaluates_kept(s, env, *callee, d1, s1, r1);
                if r1 is Ok {
                    let (vs, s2, r2) = choose|vs: Seq<Value>, s2: Interpreter, r2: Result<(), InterpreterError>|
                        #[trigger] args_trigger(vs, s2, r2) && evaluates_all(s1, env, arguments@, d1, vs, s2, r2)
                            && (r2 is Err ==> t == s2) && (r2 is Ok ==> call_runs(s2, r1->Ok_0, vs, paren.line, d1, t, r));
                    lemma_evaluates_all_kept(s1, env, arguments@, d1, vs, s2, r2);
                    lemma_kept_trans(s, s1, s2, -1, -1);
                    if r2 is Ok {
                        lemma_call_kept(s2, r1->Ok_0, vs, paren.line, d1, t, r);
                        lemma_kept_trans(s, s2, t, -1, -1);
                    }
                }
            },
            Expr::SetProperty(object, name, value) => {
                let (s1, r1) = choose|s1: Interpreter, r1: Result<Value, InterpreterError>|
                    #[trigger] step_trigger(s1, r1) && evaluates(s, env, *object, d1, s1, r1) && (r1 is Err
                        ==> t == s1) && (r1 is Ok ==> exists|s2: Interpreter, r2: Result<Value, InterpreterError>|
                        #[trigger] step_trigger(s2, r2) && evaluates(s1, env, *value, d1, s2, r2) && t.envs == s2.envs);
                lemma_evaluates_kept(s, env, *object, d1, s1, r1);
                if r1 is Ok {
                    let (s2, r2) = choose|s2: Interpreter, r2: Result<Value, InterpreterError>|
                        #[trigger] step_trigger(s2, r2) && evaluates(s1, env, *value, d1, s2, r2) && t.envs == s2.envs;
                    lemma_evaluates_kept(s1, env, *value, d1, s2, r2);
                    lemma_kept_trans(s, s1, s2, -1, -1);
                }
            },
            Expr::Super(id, _, method) => {
                lemma_super_kept(s, env, id, method, t, r);
            },
            _ => {},
        }
    }
}

proof fn lemma_evaluates_all_kept(
    s: Interpreter,
    env: Environment,
    es: Seq<Expr>,
    d: nat,
    vs: Seq<Value>,
    t: Interpreter,
    r: Result<(), InterpreterError>,
)
    requires
        evaluates_all(s, env, es, d, vs, t, r),
        env.index < s.envs.view().len(),
    ensures
        kept(s, t, -1, -1),
    decreases d, 1nat, es.len(),
{
    if es.len() > 0 {
        let (vs1, s1, r1) = choose|vs1: Seq<Value>, s1: Interpreter, r1: Result<(), InterpreterError>|
            #[trigger] args_trigger(vs1, s1, r1) && evaluates_all(s, env, es.drop_last(), d, vs1, s1, r1)
                && match r1 {
                Err(x) => r == Err::<(), InterpreterError>(x) && t == s1 && vs == vs1,
                Ok(_) => exists|s2: Interpreter, r2: Result<Value, InterpreterError>|
                    #[trigger] step_trigger(s2, r2) && evaluates(s1, env, es.last(), d, s2, r2) && t == s2
                        && match r2 {
                        Err(x) => r == Err::<(), InterpreterError>(x) && vs == vs1,
                        Ok(v) => r == Ok::<(), InterpreterError>(()) && vs == vs1.push(v),
                    },
            };
        lemma_evaluates_all_kept(s, env, es.drop_last(), d, vs1, s1, r1);
        if r1 is Ok {
            let (s2, r2) = choose|s2: Interpreter, r2: Result<Value, InterpreterError>|
                #[trigger] step_trigger(s2, r2) && evaluates(s1, env, es.last(), d, s2, r2) && t == s2;
            lemma_evaluates_kept(s1, env, es.last(), d, s2, r2);
            lemma_kept_trans(s, s1, t, -1, -1);
        }
    }
}

proof fn lemma_call_kept(
    s: Interpreter,
    callee: Value,
    args: Seq<Value>,
    line: usize,
    d: nat,
    t: Interpreter,
    r: Result<Value, InterpreterError>,
)
    requires
        call_runs(s, callee, args, line, d, t, r),
    ensures
        kept(s, t, -1, -1),
    decreases d, 0nat, 0nat,
{
    if d > 0 {
        let d1 = (d - 1) as nat;
        match callee {
            Value::Function(f) => {
                if args.len() == spec_arity(s.functions@[f as int]) {
                    let (t1, r1) = choose|t1: Interpreter, r1: Result<StatementResult, InterpreterError>|
                        #[trigger] run_trigger(t1, r1) && function_runs(s, f, args, line, d1, t1, r1) && t == t1;
                    lemma_function_kept(s, f, args, line, d1, t1, r1);
                }
            },
            Value::Class(c) => {
                let inst = s.instances@.len() as usize;
                let s1 = choose|s1: Interpreter|
                    #[trigger] state_trigger(s1) && instance_added(s, s1, c) && (t == s1 || exists|
                        init: usize,
                        s2: Interpreter,
                        rb: Result<(), InterpreterError>,
                    |
                        #[trigger] bind_done(s1, init, inst, s2, rb) && (rb is Err ==> t == s2) && (rb is Ok
                            ==> exists|t1: Interpreter, r1: Result<StatementResult, InterpreterError>|
                            #[trigger] run_trigger(t1, r1) && function_runs(s2, init, args, line, d1, t1, r1)
                                && t == t1));
                if t != s1 {
                    let (init, s2, rb) = choose|init: usize, s2: Interpreter, rb: Result<(), InterpreterError>|
                        #[trigger] bind_done(s1, init, inst, s2, rb) && (rb is Err ==> t == s2) && (rb is Ok
                            ==> exists|t1: Interpreter, r1: Result<StatementResult, InterpreterError>|
                            #[trigger] run_trigger(t1, r1) && function_runs(s2, init, args, line, d1, t1, r1)
                                && t == t1);
                    lemma_bind_kept(s1, init, inst, s2, rb);
                    lemma_kept_trans(s, s1, s2, -1, -1);
                    if rb is Ok {
                        let (t1, r1) = choose|t1: Interpreter, r1: Result<StatementResult, InterpreterError>|
                            #[trigger] run_trigger(t1, r1) && function_runs(s2, init, args, line, d1, t1, r1)
                                && t == t1;
                        lemma_function_kept(s2, init, args, line, d1, t1, r1);
                        lemma_kept_trans(s, s2, t, -1, -1);
                    }
                }
            },
            _ => {},
        }
    }
}

proof fn lemma_function_kept(
    s: Interpreter,
    f: usize,
    args: Seq<Value>,
    line: usize,
    d: nat,
    t: Interpreter,
    r: Result<StatementResult, InterpreterError>,
)
    requires
        function_runs(s, f, args, line, d, t, r),
    ensures
        kept(s, t, -1, -1),
    decreases d, 0nat, 0nat,
{
    let fo = s.functions@[f as int];
    let n = if fo.parameters@.len() < args.len() {
        fo.parameters@.len()
    } else {
        args.len()
    };
    let k = s.envs.view().len();
    if d > 0 && fo.kind == FunctionKind::Lox && s.envs.view().len() < usize::MAX - 8 {
        let base = s.envs.view().push(fresh::<Value>(Some(fo.closure)));
        lemma_params_kept(base, k as int, fo.parameters@, args, n);
        let s1 = choose|s1: Interpreter|
            #[trigger] state_trigger(s1) && same_but_envs(s, s1) && s1.envs.view() == params_bound(
                base,
                k as int,
                fo.parameters@,
                args,
                n,
            ) && match fo.body {
                Some(b) => block_runs(s1, Environment { index: k as usize }, b.body@, (d - 1) as nat, t, r),
                None => t == s1,
            };
        assert(names_kept(s.envs.view(), base, -1, -1));
        lemma_names_trans(s.envs.view(), base, s1.envs.view(), -1, -1, k as int, k as int);
        if fo.body is Some {
            let b = fo.body->Some_0;
            lemma_block_kept(s1, Environment { index: k as usize }, b.body@, (d - 1) as nat, t, r);
            lemma_kept_then(s, s1, t, -1, -1, k as int, k as int);
        }
    }
}

/// Running a block's statements in scope `env` gives new names to no scope
/// that existed before, but `env`.
pub proof fn lemma_block_kept(
    s: Interpreter,
    env: Environment,
    ss: Seq<Statement>,
    d: nat,
    t: Interpreter,
    r: Result<StatementResult, InterpreterError>,
)
    requires
        block_runs(s, env, ss, d, t, r),
        env.index < s.envs.view().len(),
    ensures
        kept(s, t, env.index as int, env.index as int),
    decreases d, 0nat, 0nat,
{
    if d > 0 {
        lemma_executes_all_kept(s, env, ss, (d - 1) as nat, t, r);
    }
}

proof fn lemma_executes_all_kept(
    s: Interpreter,
    env: Environment,
    ss: Seq<Statement>,
    d: nat,
    t: Interpreter,
    r: Result<StatementResult, InterpreterError>,
)
    requires
        executes_all(s, env, ss, d, t, r),
        env.index < s.envs.view().len(),
    ensures
        kept(s, t, env.index as int, env.index as int),
    decreases d, 1nat, ss.len(),
{
    let ei = env.index as int;
    if ss.len() > 0 {
        let (s1, r1) = choose|s1: Interpreter, r1: Result<StatementResult, InterpreterError>|
            #[trigger] run_trigger(s1, r1) && executes_all(s, env, ss.drop_last(), d, s1, r1) && (r1
                == Ok::<StatementResult, InterpreterError>(StatementResult::Empty) ==> executes(s1, env, ss.last(), d, t, r))
                && (r1 != Ok::<StatementResult, InterpreterError>(StatementResult::Empty) ==> t == s1);
        lemma_executes_all_kept(s, env, ss.drop_last(), d, s1, r1);
        if r1 == Ok::<StatementResult, InterpreterError>(StatementResult::Empty) {
            lemma_executes_kept(s1, env, ss.last(), d, t, r);
            lemma_kept_trans(s, s1, t, ei, ei);
        }
    }
}

/// Executing a statement in scope `env` gives new names to no scope that
/// existed before, but `env`.
pub proof fn lemma_executes_kept(
    s: Interpreter,
    env: Environment,
    st: Statement,
    d: nat,
    t: Interpreter,
    r: Result<StatementResult, InterpreterError>,
)
    requires
        executes(s, env, st, d, t, r),
        env.index < s.envs.view().len(),
    ensures
        kept(s, t, env.index as int, env.index as int),
    decreases d, 0nat, 0nat,
{
    let ei = env.index as int;
    if d > 0 {
        let d1 = (d - 1) as nat;
        match st {
            Statement::Print(e) => {
                let (s1, r1) = choose|s1: Interpreter, r1: Result<Value, InterpreterError>|
                    #[trigger] step_trigger(s1, r1) && evaluates(s, env, e, d1, s1, r1) && (r1 is Err ==> t == s1)
                        && (r1 is Ok ==> t.envs == s1.envs);
                lemma_evaluates_kept(s, env, e, d1, s1, r1);
            },
            Statement::Expression(e) => {
                let (s1, r1) = choose|s1: Interpreter, r1: Result<Value, InterpreterError>|
                    #[trigger] step_trigger(s1, r1) && evaluates(s, env, e, d1, s1, r1) && t == s1;
                lemma_evaluates_kept(s, env, e, d1, s1, r1);
            },
            Statement::Variable(token, initializer) => {
                match initializer {
                    None => {
                        lemma_defined_kept(s.envs.view(), ei, token.lexeme@, Value::Nil);
                    },
                    Some(e) => {
                        let (s1, r1) = choose|s1: Interpreter, r1: Result<Value, InterpreterError>|
                            #[trigger] step_trigger(s1, r1) && evaluates(s, env, e, d1, s1, r1) && (r1 is Err
                                ==> t == s1) && (r1 is Ok ==> only_defined(s1, t, env, token.lexeme@, r1->Ok_0));
                        lemma_evaluates_kept(s, env, e, d1, s1, r1);
                        if r1 is Ok {
                            lemma_defined_kept(s1.envs.view(), ei, token.lexeme@, r1->Ok_0);
                            lemma_kept_weaken(s, s1, ei, ei);
                            lemma_kept_trans(s, s1, t, ei, ei);
                        }
                    },
                }
            },
            Statement::Block(ss) => {
                let k = s.envs.view().len();
                if s.envs.view().len() < usize::MAX - 8 {
                    let s1 = choose|s1: Interpreter|
                        #[trigger] state_trigger(s1) && scope_added(s, s1, env.index) && block_runs(
                            s1,
                            Environment { index: k as usize },
                            ss@,
                            d1,
                            t,
                            r,
                        );
                    lemma_block_kept(s1, Environment { index: k as usize }, ss@, d1, t, r);
                    assert(kept(s, s1, -1, -1));
                    lemma_kept_then(s, s1, t, -1, -1, k as int, k as int);
                }
            },
            Statement::If(c, then_branch, else_branch) => {
                let (s1, r1) = choose|s1: Interpreter, r1: Result<Value, InterpreterError>|
                    #[trigger] step_trigger(s1, r1) && evaluates(s, env, c, d1, s1, r1) && (t == s1 || executes(
                        s1,
                        env,
                        *then_branch,
                        d1,
                        t,
                        r,
                    ) || (else_branch matches Some(x) && executes(s1, env, *x, d1, t, r)));
                lemma_evaluates_kept(s, env, c, d1, s1, r1);
                if t != s1 {
                    if executes(s1, env, *then_branch, d1, t, r) {
                        lemma_executes_kept(s1, env, *then_branch, d1, t, r);
                    } else {
                        let x = else_branch->Some_0;
                        lemma_executes_kept(s1, env, *x, d1, t, r);
                    }
                    lemma_kept_weaken(s, s1, ei, ei);
                    lemma_kept_trans(s, s1, t, ei, ei);
                }
            },
            Statement::While(c, body) => {
                lemma_while_kept(s, env, c, *body, d1, u64::MAX as nat, t, r);
            },
            Statement::Return(_, value) => {
                if value is Some {
                    let e = value->Some_0;
                    let (s1, r1) = choose|s1: Interpreter, r1: Result<Value, InterpreterError>|
                        #[trigger] step_trigger(s1, r1) && evaluates(s, env, e, d1, s1, r1) && t == s1;
                    lemma_evaluates_kept(s, env, e, d1, s1, r1);
                }
            },
            Statement::Class(name, methods, superclass) => {
                lemma_class_kept(s, env, name, methods@, superclass, d1, t, r);
            },
        }
    }
}

proof fn lemma_while_kept(
    s: Interpreter,
    env: Environment,
    c: Expr,
    body: Statement,
    d: nat,
    budget: nat,
    t: Interpreter,
    r: Result<StatementResult, InterpreterError>,
)
    requires
        while_runs(s, env, c, body, d, budget, t, r),
        env.index < s.envs.view().len(),
    ensures
        kept(s, t, env.index as int, env.index as int),
    decreases d, 2nat, budget,
{
    let ei = env.index as int;
    let (s1, r1) = choose|s1: Interpreter, r1: Result<Value, InterpreterError>|
        #[trigger] step_trigger(s1, r1) && evaluates(s, env, c, d, s1, r1) && (t == s1 || exists|
            s2: Interpreter,
            r2: Result<StatementResult, InterpreterError>,
        |
            #[trigger] run_trigger(s2, r2) && executes(s1, env, body, d, s2, r2) && (t == s2 || (budget > 0
                && while_runs(s2, env, c, body, d, (budget - 1) as nat, t, r))));
    lemma_evaluates_kept(s, env, c, d, s1, r1);
    lemma_kept_weaken(s, s1, ei, ei);
    if t != s1 {
        let (s2, r2) = choose|s2: Interpreter, r2: Result<StatementResult, InterpreterError>|
            #[trigger] run_trigger(s2, r2) && executes(s1, env, body, d, s2, r2) && (t == s2 || (budget > 0
                && while_runs(s2, env, c, body, d, (budget - 1) as nat, t, r)));
        lemma_executes_kept(s1, env, body, d, s2, r2);
        lemma_kept_trans(s, s1, s2, ei, ei);
        if t != s2 {
            lemma_while_kept(s2, env, c, body, d, (budget - 1) as nat, t, r);
            lemma_kept_trans(s, s2, t, ei, ei);
        }
    }
}

proof fn lemma_class_kept(
    s: Interpreter,
    env: Environment,
    name: crate::scanner::Token,
    methods: Seq<Expr>,
    superclass: Option<Expr>,
    d: nat,
    t: Interpreter,
    r: Result<StatementResult, InterpreterError>,
)
    requires
        class_runs(s, env, name, methods, superclass, d, t, r),
        env.index < s.envs.view().len(),
    ensures
        kept(s, t, env.index as int, env.index as int),
    decreases d, 3nat, 0nat,
{
    let ei = env.index as int;
    let k = s.envs.view().len();
    let s1 = choose|s1: Interpreter|
        #[trigger] state_trigger(s1) && same_but_envs(s, s1) && s1.envs.view() == defined(
            s.envs.view(),
            ei,
            name.lexeme@,
            Value::Nil,
        ) && (superclass is None ==> class_body(s1, env, env, name, methods, None, d, t, r)) && (
        superclass is Some ==> (t == s1 || exists|s2: Interpreter|
            #[trigger] state_trigger(s2) && scope_added(s1, s2, env.index) && exists|
                s3: Interpreter,
                r3: Result<Value, InterpreterError>,
            |
                #[trigger] step_trigger(s3, r3) && evaluates(s2, env, superclass->Some_0, d, s3, r3) && (r3 is Err
                    ==> t == s3) && (r3 is Ok ==> class_body(
                    s3,
                    env,
                    Environment { index: s1.envs.view().len() as usize },
                    name,
                    methods,
                    Some(r3->Ok_0),
                    d,
                    t,
                    r,
                ))));
    lemma_defined_kept(s.envs.view(), ei, name.lexeme@, Value::Nil);
    if superclass is None {
        lemma_class_body_kept(s1, env, env, name, methods, None, d, t, r);
        lemma_kept_trans(s, s1, t, ei, ei);
    } else if t != s1 {
        let s2 = choose|s2: Interpreter|
            #[trigger] state_trigger(s2) && scope_added(s1, s2, env.index) && exists|
                s3: Interpreter,
                r3: Result<Value, InterpreterError>,
            |
                #[trigger] step_trigger(s3, r3) && evaluates(s2, env, superclass->Some_0, d, s3, r3) && (r3 is Err
                    ==> t == s3) && (r3 is Ok ==> class_body(
                    s3,
                    env,
                    Environment { index: s1.envs.view().len() as usize },
                    name,
                    methods,
                    Some(r3->Ok_0),
                    d,
                    t,
                    r,
                ));
        let (s3, r3) = choose|s3: Interpreter, r3: Result<Value, InterpreterError>|
            #[trigger] step_trigger(s3, r3) && evaluates(s2, env, superclass->Some_0, d, s3, r3) && (r3 is Err
                ==> t == s3) && (r3 is Ok ==> class_body(
                s3,
                env,
                Environment { index: s1.envs.view().len() as usize },
                name,
                methods,
                Some(r3->Ok_0),
                d,
                t,
                r,
            ));
        assert(kept(s1, s2, -1, -1));
        lemma_kept_then(s, s1, s2, ei, ei, -1, -1);
        lemma_evaluates_kept(s2, env, superclass->Some_0, d, s3, r3);
        lemma_kept_then(s, s2, s3, ei, ei, -1, -1);
        if r3 is Ok {
            let m = s1.envs.view().len() as int;
            lemma_class_body_kept(
                s3,
                env,
                Environment { index: s1.envs.view().len() as usize },
                name,
                methods,
                Some(r3->Ok_0),
                d,
                t,
                r,
            );
            lemma_kept_then(s, s3, t, ei, ei, ei, m);
        }
    }
}

proof fn lemma_class_body_kept(
    s: Interpreter,
    env: Environment,
    menv: Environment,
    name: crate::scanner::Token,
    methods: Seq<Expr>,
    sv: Option<Value>,
    d: nat,
    t: Interpreter,
    r: Result<StatementResult, InterpreterError>,
)
    requires
        class_body(s, env, menv, name, methods, sv, d, t, r),
        env.index < s.envs.view().len(),
        menv.index < s.envs.view().len(),
    ensures
        kept(s, t, env.index as int, menv.index as int),
    decreases d, 2nat, 0nat,
{
    let ei = env.index as int;
    let mi = menv.index as int;
    let (table, s1, r1) = choose|table: Seq<(Seq<char>, usize)>, s1: Interpreter, r1: Result<(), InterpreterError>|
        #[trigger] methods_trigger(table, s1, r1) && methods_made(s, menv, methods, d, name.line, table, s1, r1)
            && (t == s1 || class_declared(s1, env, name.lexeme@, table, None, t, r) || exists|s2: Interpreter, sc: usize|
            #[trigger] class_declared(s2, env, name.lexeme@, table, Some(sc), t, r) && same_but_envs(s1, s2)
                && s2.envs.view() == defined(s1.envs.view(), mi, "super"@, Value::Class(sc)));
    lemma_methods_kept(s, menv, methods, d, name.line, table, s1, r1);
    lemma_kept_weaken(s, s1, ei, mi);
    if t != s1 {
        if class_declared(s1, env, name.lexeme@, table, None, t, r) {
            lemma_declared_kept(s1, env, name.lexeme@, table, None, t, r);
            lemma_kept_then(s, s1, t, ei, mi, ei, ei);
        } else {
            let (s2, sc) = choose|s2: Interpreter, sc: usize|
                #[trigger] class_declared(s2, env, name.lexeme@, table, Some(sc), t, r) && same_but_envs(s1, s2)
                    && s2.envs.view() == defined(s1.envs.view(), mi, "super"@, Value::Class(sc));
            lemma_defined_kept(s1.envs.view(), mi, "super"@, Value::Class(sc));
            lemma_kept_then(s, s1, s2, ei, mi, mi, mi);
            lemma_declared_kept(s2, env, name.lexeme@, table, Some(sc), t, r);
            lemma_kept_then(s, s2, t, ei, mi, ei, ei);
        }
    }
}

proof fn lemma_declared_kept(
    s: Interpreter,
    env: Environment,
    name: Seq<char>,
    table: Seq<(Seq<char>, usize)>,
    sup: Option<usize>,
    t: Interpreter,
    r: Result<StatementResult, InterpreterError>,
)
    requires
        class_declared(s, env, name, table, sup, t, r),
        env.index < s.envs.view().len(),
    ensures
        kept(s, t, env.index as int, env.index as int),
{
    let ei = env.index as int;
    let c = Value::Class(s.classes@.len() as usize);
    let s1 = choose|s1: Interpreter|
        #[trigger] state_trigger(s1) && class_added(s, s1, name, table, sup) && same_but_envs(s1, t)
            && t.envs.view() == if owner(s1.envs.view(), env.index as int, name) >= 0 {
            assigned(s1.envs.view(), env.index as int, name, c)
        } else {
            s1.envs.view()
        };
    if owner(s1.envs.view(), env.index as int, name) >= 0 {
        lemma_assigned_kept(s1.envs.view(), env.index as int, name, c);
    }
    assert(kept(s, s1, -1, -1));
    lemma_kept_trans(s, s1, t, -1, -1);
}

proof fn lemma_methods_kept(
    s: Interpreter,
    menv: Environment,
    ms: Seq<Expr>,
    d: nat,
    line: usize,
    table: Seq<(Seq<char>, usize)>,
    t: Interpreter,
    r: Result<(), InterpreterError>,
)
    requires
        methods_made(s, menv, ms, d, line, table, t, r),
        menv.index < s.envs.view().len(),
    ensures
        kept(s, t, -1, -1),
    decreases d, 1nat, ms.len(),
{
    if ms.len() > 0 {
        let (tb1, s1, r1) = choose|tb1: Seq<(Seq<char>, usize)>, s1: Interpreter, r1: Result<(), InterpreterError>|
            #[trigger] methods_trigger(tb1, s1, r1) && methods_made(s, menv, ms.drop_last(), d, line, tb1, s1, r1)
                && (r1 is Err ==> t == s1) && (r1 is Ok ==> exists|s2: Interpreter, r2: Result<Value, InterpreterError>|
                #[trigger] step_trigger(s2, r2) && evaluates(s1, menv, ms.last(), d, s2, r2) && t == s2);
        lemma_methods_kept(s, menv, ms.drop_last(), d, line, tb1, s1, r1);
        if r1 is Ok {
            let (s2, r2) = choose|s2: Interpreter, r2: Result<Value, InterpreterError>|
                #[trigger] step_trigger(s2, r2) && evaluates(s1, menv, ms.last(), d, s2, r2) && t == s2;
            lemma_evaluates_kept(s1, menv, ms.last(), d, s2, r2);
            lemma_kept_trans(s, s1, t, -1, -1);
        }
    }
}

/// Whether two stores have the same scopes around and below `frame`,
/// holding the same names.
proof fn lemma_lookup_names(v: Seq<FrameView<Value>>, w: Seq<FrameView<Value>>, frame: int, key: Seq<char>)
    requires
        frame < v.len() <= w.len(),
        forall|g: int| 0 <= g <= frame ==> same_names(#[trigger] w[g], v[g]),
    ensures
        lookup(w, frame, key) is Some <==> lookup(v, frame, key) is Some,
    decreases frame,
{
    if 0 <= frame {
        assert(same_names(w[frame], v[frame]));
        match v[frame].enclosing {
            Some(p) => {
                if p < frame {
                    lemma_lookup_names(v, w, p as int, key);
                }
            },
            None => {},
        }
    }
}

/// A block's declarations stay inside it: after a block runs in scope
/// `env`, exactly the names that were visible from `env` before are
/// visible from it (their values may have been assigned).
pub proof fn law_block_scope_names(
    s: Interpreter,
    env: Environment,
    block: Vec<Statement>,
    d: nat,
    t: Interpreter,
    r: Result<StatementResult, InterpreterError>,
    key: Seq<char>,
)
    requires
        executes(s, env, Statement::Block(block), d, t, r),
        env.index < s.envs.view().len(),
    ensures
        lookup(t.envs.view(), env.index as int, key) is Some <==> lookup(
            s.envs.view(),
            env.index as int,
            key,
        ) is Some,
{
    let k = s.envs.view().len();
    if d > 0 && s.envs.view().len() < usize::MAX - 8 {
        let s1 = choose|s1: Interpreter|
            #[trigger] state_trigger(s1) && scope_added(s, s1, env.index) && block_runs(
                s1,
                Environment { index: k as usize },
                block@,
                (d - 1) as nat,
                t,
                r,
            );
        lemma_block_kept(s1, Environment { index: k as usize }, block@, (d - 1) as nat, t, r);
        assert(kept(s, s1, -1, -1));
        lemma_kept_then(s, s1, t, -1, -1, k as int, k as int);
    }
    assert forall|g: int| 0 <= g <= env.index implies same_names(#[trigger] t.envs.view()[g], s.envs.view()[g]) by {
    }
    lemma_lookup_names(s.envs.view(), t.envs.view(), env.index as int, key);
}

} // verus!
