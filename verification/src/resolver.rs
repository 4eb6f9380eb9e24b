//! The resolver: finds, for each use of a local variable, how many scopes
//! out its definition is, and rejects programs that misuse `return`,
//! `this`, `super` or a scope's names.
use vstd::prelude::*;
use crate::errors::InterpreterError;
use crate::parser::{Expr, Function, Statement};
use crate::scanner::Token;
use crate::text::{append_chars, append_str, chars_eq, str_to_chars};

verus! {

/// The kind of function whose body is being resolved.
#[derive(Clone, Copy, Debug, PartialEq, Eq, Structural)]
pub enum FunctionType {
    NoFunction,
    Function,
    Initializer,
    Method,
}

/// The kind of class whose methods are being resolved.
#[derive(Clone, Copy, Debug, PartialEq, Eq, Structural)]
pub enum ClassType {
    NoClass,
    Class,
    Subclass,
}

/// Resolves the variables of a program. The table holds, for each number
/// of a variable, `this` or `super` expression that refers to a local
/// scope, how many scopes out the definition is; the others are global.
pub struct Resolver {
    pub scopes: Vec<Vec<Vec<char>>>,
    pub current_function: FunctionType,
    pub current_class: ClassType,
    pub resolve_table: Vec<(usize, usize)>,
}

/// The state of a resolver as plain values: its scopes, innermost last,
/// each the names it holds; the kinds of function and class being
/// resolved; and the distances recorded so far.
pub struct ResolveState {
    pub scopes: Seq<Seq<Seq<char>>>,
    pub function: FunctionType,
    pub class: ClassType,
    pub table: Seq<(usize, usize)>,
}

/// A resolution error: its message and line.
pub struct ResolveError {
    pub message: Seq<char>,
    pub line: Option<usize>,
}

/// The names a scope holds.
pub open spec fn scope_names(scope: Seq<Vec<char>>) -> Seq<Seq<char>> {
    scope.map_values(|n: Vec<char>| n@)
}

impl View for Resolver {
    type V = ResolveState;

    open spec fn view(&self) -> ResolveState {
        ResolveState {
            scopes: self.scopes@.map_values(|s: Vec<Vec<char>>| scope_names(s@)),
            function: self.current_function,
            class: self.current_class,
            table: self.resolve_table@,
        }
    }
}

/// The distance to the innermost of the first `n` scopes that holds
/// `name`, counted from scope `n - 1`; `None` when none does.
pub open spec fn distance_in(scopes: Seq<Seq<Seq<char>>>, n: int, name: Seq<char>) -> Option<nat>
    decreases n,
{
    if n <= 0 {
        None
    } else if scopes[n - 1].contains(name) {
        Some(0)
    } else {
        match distance_in(scopes, n - 1, name) {
            Some(d) => Some(d + 1),
            None => None,
        }
    }
}

/// Records, for expression `id`, the distance of the innermost scope that
/// holds `name`; nothing when no scope does.
pub open spec fn with_local(st: ResolveState, id: usize, name: Seq<char>) -> ResolveState {
    match distance_in(st.scopes, st.scopes.len() as int, name) {
        Some(d) => ResolveState {
            scopes: st.scopes,
            function: st.function,
            class: st.class,
            table: st.table.push((id, d as usize)),
        },
        None => st,
    }
}

/// Adds `name` to the innermost scope, if there is one and it lacks it.
pub open spec fn with_name(st: ResolveState, name: Seq<char>) -> ResolveState {
    if st.scopes.len() == 0 || st.scopes.last().contains(name) {
        st
    } else {
        ResolveState {
            scopes: st.scopes.update(st.scopes.len() - 1, st.scopes.last().push(name)),
            function: st.function,
            class: st.class,
            table: st.table,
        }
    }
}

/// Declares the name of `token` in the innermost scope: an error if that
/// scope holds the name already.
pub open spec fn declared(st: ResolveState, token: Token) -> Result<ResolveState, ResolveError> {
    if st.scopes.len() > 0 && st.scopes.last().contains(token.lexeme@) {
        Err(
            ResolveError {
                message: "Already a variable with name '"@ + token.lexeme@ + "' in this scope"@,
                line: Some(token.line),
            },
        )
    } else {
        Ok(with_name(st, token.lexeme@))
    }
}

/// A new innermost scope.
pub open spec fn opened(st: ResolveState) -> ResolveState {
    ResolveState {
        scopes: st.scopes.push(Seq::empty()),
        function: st.function,
        class: st.class,
        table: st.table,
    }
}

/// The innermost scope dropped, if there is one.
pub open spec fn closed(st: ResolveState) -> ResolveState {
    if st.scopes.len() == 0 {
        st
    } else {
        ResolveState {
            scopes: st.scopes.drop_last(),
            function: st.function,
            class: st.class,
            table: st.table,
        }
    }
}

pub open spec fn in_function(st: ResolveState, f: FunctionType) -> ResolveState {
    ResolveState { scopes: st.scopes, function: f, class: st.class, table: st.table }
}

pub open spec fn in_class(st: ResolveState, c: ClassType) -> ResolveState {
    ResolveState { scopes: st.scopes, function: st.function, class: c, table: st.table }
}

pub open spec fn error_at(message: Seq<char>, line: Option<usize>) -> Result<
    ResolveState,
    ResolveError,
> {
    Err(ResolveError { message, line })
}

/// The line of a superclass expression that names the class itself.
pub open spec fn self_inheritance(parent: Expr, name: Token) -> Option<usize> {
    match parent {
        Expr::Variable(_, p) => if p.lexeme@ == name.lexeme@ {
            Some(p.line)
        } else {
            None
        },
        _ => None,
    }
}

/// The kind of a method: `init` is the initializer.
pub open spec fn method_kind(name: Option<Token>) -> FunctionType {
    match name {
        Some(t) => if t.lexeme@ == "init"@ {
            FunctionType::Initializer
        } else {
            FunctionType::Method
        },
        None => FunctionType::Method,
    }
}

/// Declares the parameters of a function, in order.
pub open spec fn declare_params(st: ResolveState, ps: Seq<Token>) -> Result<
    ResolveState,
    ResolveError,
>
    decreases ps.len(),
{
    if ps.len() == 0 {
        Ok(st)
    } else {
        match declared(st, ps[0]) {
            Ok(s) => declare_params(with_name(s, ps[0].lexeme@), ps.subrange(1, ps.len() as int)),
            Err(e) => Err(e),
        }
    }
}

/// Resolves an expression.
pub open spec fn resolve_expr(st: ResolveState, e: Expr) -> Result<ResolveState, ResolveError>
    decreases e,
{
    match e {
        Expr::Variable(id, token) => Ok(with_local(st, id, token.lexeme@)),
        Expr::Assignment(_, _, value) => resolve_expr(st, *value),
        Expr::This(id, token) => if st.class == ClassType::NoClass {
            error_at("Can't use 'this' outside of a class"@, Some(token.line))
        } else {
            Ok(with_local(st, id, token.lexeme@))
        },
        Expr::Super(id, keyword, _) => if st.class == ClassType::NoClass {
            error_at("Can't use 'super' outside of a class"@, Some(keyword.line))
        } else if st.class == ClassType::Class {
            error_at("Can't use 'super' in a class with no superclass"@, Some(keyword.line))
        } else {
            Ok(with_local(st, id, keyword.lexeme@))
        },
        Expr::Function(name, function) => resolve_function(
            match name {
                Some(t) => with_name(st, t.lexeme@),
                None => st,
            },
            *function,
            FunctionType::Function,
        ),
        Expr::Binary(_, left, right) => match resolve_expr(st, *left) {
            Ok(s) => resolve_expr(s, *right),
            Err(err) => Err(err),
        },
        Expr::Logical(_, left, right) => match resolve_expr(st, *left) {
            Ok(s) => resolve_expr(s, *right),
            Err(err) => Err(err),
        },
        Expr::Call(callee, _, arguments) => match resolve_expr(st, *callee) {
            Ok(s) => resolve_exprs(s, arguments@),
            Err(err) => Err(err),
        },
        Expr::Grouping(inner) => resolve_expr(st, *inner),
        Expr::Literal(_) => Ok(st),
        Expr::Unary(_, inner) => resolve_expr(st, *inner),
        Expr::Get(object, _) => resolve_expr(st, *object),
        Expr::SetProperty(object, _, value) => match resolve_expr(st, *object) {
            Ok(s) => resolve_expr(s, *value),
            Err(err) => Err(err),
        },
    }
}

/// Resolves expressions in order, up to the first error.
pub open spec fn resolve_exprs(st: ResolveState, es: Seq<Expr>) -> Result<
    ResolveState,
    ResolveError,
>
    decreases es,
{
    if es.len() == 0 {
        Ok(st)
    } else {
        match resolve_expr(st, es[0]) {
            Ok(s) => resolve_exprs(s, es.subrange(1, es.len() as int)),
            Err(err) => Err(err),
        }
    }
}

/// Resolves a function of the given kind: its parameters and body in a
/// scope of their own.
pub open spec fn resolve_function(st: ResolveState, f: Function, kind: FunctionType) -> Result<
    ResolveState,
    ResolveError,
>
    decreases f,
{
    match declare_params(opened(in_function(st, kind)), f.parameters@) {
        Ok(s) => match resolve_stmts(s, f.body@) {
            Ok(s2) => Ok(in_function(closed(s2), st.function)),
            Err(err) => Err(err),
        },
        Err(err) => Err(err),
    }
}

/// Resolves the methods of a class declared on `line`.
pub open spec fn resolve_methods(st: ResolveState, ms: Seq<Expr>, line: usize) -> Result<
    ResolveState,
    ResolveError,
>
    decreases ms,
{
    if ms.len() == 0 {
        Ok(st)
    } else {
        match ms[0] {
            Expr::Function(name, function) => match resolve_function(
                st,
                *function,
                method_kind(name),
            ) {
                Ok(s) => resolve_methods(s, ms.subrange(1, ms.len() as int), line),
                Err(err) => Err(err),
            },
            _ => error_at("expression is not a method"@, Some(line)),
        }
    }
}

/// Resolves a statement.
pub open spec fn resolve_stmt(st: ResolveState, s: Statement) -> Result<ResolveState, ResolveError>
    decreases s,
{
    match s {
        Statement::Block(statements) => match resolve_stmts(opened(st), statements@) {
            Ok(s2) => Ok(closed(s2)),
            Err(err) => Err(err),
        },
        Statement::Variable(token, initializer) => match initializer {
            Some(init) => if init matches Expr::Function(Some(_), _) {
                match declared(st, token) {
                    Ok(s2) => resolve_expr(with_name(s2, token.lexeme@), init),
                    Err(err) => Err(err),
                }
            } else {
                match resolve_expr(st, init) {
                    Ok(s2) => match declared(s2, token) {
                        Ok(s3) => Ok(with_name(s3, token.lexeme@)),
                        Err(err) => Err(err),
                    },
                    Err(err) => Err(err),
                }
            },
            None => match declared(st, token) {
                Ok(s3) => Ok(with_name(s3, token.lexeme@)),
                Err(err) => Err(err),
            },
        },
        Statement::Expression(e) => resolve_expr(st, e),
        Statement::Print(e) => resolve_expr(st, e),
        Statement::If(condition, then_branch, else_branch) => match resolve_expr(st, condition) {
            Ok(s1) => match resolve_stmt(s1, *then_branch) {
                Ok(s2) => match else_branch {
                    Some(e) => resolve_stmt(s2, *e),
                    None => Ok(s2),
                },
                Err(err) => Err(err),
            },
            Err(err) => Err(err),
        },
        Statement::While(condition, body) => match resolve_expr(st, condition) {
            Ok(s1) => resolve_stmt(s1, *body),
            Err(err) => Err(err),
        },
        Statement::Return(keyword, value) => if st.function == FunctionType::NoFunction {
            error_at("Can't return from top level code"@, None)
        } else {
            match value {
                Some(v) => if st.function == FunctionType::Initializer {
                    error_at("Can't return a value from an initializer"@, Some(keyword.line))
                } else {
                    resolve_expr(st, v)
                },
                None => Ok(st),
            }
        },
        Statement::Class(name, methods, superclass) => match declared(
            in_class(st, ClassType::Class),
            name,
        ) {
            Err(err) => Err(err),
            Ok(s2) => {
                let s3 = with_name(s2, name.lexeme@);
                let pre = match superclass {
                    Some(parent) => match self_inheritance(parent, name) {
                        Some(line) => error_at("A class can't inherit from itself"@, Some(line)),
                        None => match resolve_expr(in_class(s3, ClassType::Subclass), parent) {
                            Ok(s4) => Ok(with_name(opened(s4), "super"@)),
                            Err(err) => Err(err),
                        },
                    },
                    None => Ok(s3),
                };
                match pre {
                    Err(err) => Err(err),
                    Ok(s5) => match resolve_methods(
                        with_name(opened(s5), "this"@),
                        methods@,
                        name.line,
                    ) {
                        Err(err) => Err(err),
                        Ok(s6) => {
                            let s7 = if superclass is Some {
                                closed(closed(s6))
                            } else {
                                closed(s6)
                            };
                            Ok(in_class(s7, st.class))
                        },
                    },
                }
            },
        },
    }
}

/// Resolves statements in order, up to the first error.
pub open spec fn resolve_stmts(st: ResolveState, ss: Seq<Statement>) -> Result<
    ResolveState,
    ResolveError,
>
    decreases ss,
{
    if ss.len() == 0 {
        Ok(st)
    } else {
        match resolve_stmt(st, ss[0]) {
            Ok(s) => resolve_stmts(s, ss.subrange(1, ss.len() as int)),
            Err(err) => Err(err),
        }
    }
}

/// Whether an outcome of the resolver is the one specified: the state it
/// leaves on success, or the error's message and line.
pub open spec fn reports(
    r: Result<(), InterpreterError>,
    spec: Result<ResolveState, ResolveError>,
    after: ResolveState,
) -> bool {
    match spec {
        Ok(s) => r is Ok && after == s,
        Err(e) => r matches Err(InterpreterError::InterpreterError(m)) && m.message@ == e.message
            && m.line == e.line,
    }
}

/// The function a shared handle points to.
pub open spec fn shared_function(f: std::rc::Rc<Function>) -> Function {
    *f
}

/// What a successful resolution keeps: the depth of the scopes, the kinds
/// of function and class, and the distances recorded before.
pub open spec fn keeps(a: ResolveState, b: ResolveState) -> bool {
    &&& b.scopes.len() == a.scopes.len()
    &&& b.function == a.function
    &&& b.class == a.class
    &&& a.table.is_prefix_of(b.table)
}

proof fn lemma_keeps_trans(a: ResolveState, b: ResolveState, c: ResolveState)
    requires
        keeps(a, b),
        keeps(b, c),
    ensures
        keeps(a, c),
{
    assert forall|i: int| 0 <= i < a.table.len() implies c.table[i] == a.table[i] by {
        assert(b.table[i] == a.table[i]);
    }
}

proof fn lemma_keeps_local(st: ResolveState, id: usize, name: Seq<char>)
    ensures
        keeps(st, with_local(st, id, name)),
{
    assert(st.table.is_prefix_of(st.table.push((id, 0))));
}

proof fn lemma_keeps_name(st: ResolveState, name: Seq<char>)
    ensures
        keeps(st, with_name(st, name)),
{
}

proof fn lemma_keeps_declared(st: ResolveState, token: Token)
    ensures
        declared(st, token) matches Ok(s) ==> keeps(st, s),
{
    lemma_keeps_name(st, token.lexeme@);
}

proof fn lemma_params_keep(st: ResolveState, ps: Seq<Token>)
    ensures
        declare_params(st, ps) matches Ok(s2) ==> keeps(st, s2),
    decreases ps.len(),
{
    if ps.len() > 0 {
        lemma_keeps_declared(st, ps[0]);
        if let Ok(s) = declared(st, ps[0]) {
            let s1 = with_name(s, ps[0].lexeme@);
            lemma_keeps_name(s, ps[0].lexeme@);
            lemma_keeps_trans(st, s, s1);
            lemma_params_keep(s1, ps.subrange(1, ps.len() as int));
            if let Ok(s2) = declare_params(st, ps) {
                lemma_keeps_trans(st, s1, s2);
            }
        }
    }
}

/// Resolving an expression keeps the scope depth and context, and only
/// adds distances.
pub proof fn lemma_expr_keeps(st: ResolveState, e: Expr)
    ensures
        resolve_expr(st, e) matches Ok(s2) ==> keeps(st, s2),
    decreases e, 1nat,
{
    match e {
        Expr::Variable(id, token) => lemma_keeps_local(st, id, token.lexeme@),
        Expr::This(id, token) => lemma_keeps_local(st, id, token.lexeme@),
        Expr::Super(id, keyword, _) => lemma_keeps_local(st, id, keyword.lexeme@),
        Expr::Assignment(_, _, value) => lemma_expr_keeps(st, *value),
        Expr::Function(name, function) => {
            let s1 = match name {
                Some(t) => with_name(st, t.lexeme@),
                None => st,
            };
            lemma_function_keeps(s1, shared_function(function), FunctionType::Function);
            if let Ok(s2) = resolve_expr(st, e) {
                lemma_keeps_trans(st, s1, s2);
            }
        },
        Expr::Binary(_, left, right) => {
            lemma_expr_keeps(st, *left);
            if let Ok(s1) = resolve_expr(st, *left) {
                lemma_expr_keeps(s1, *right);
                if let Ok(s2) = resolve_expr(s1, *right) {
                    lemma_keeps_trans(st, s1, s2);
                }
            }
        },
        Expr::Logical(_, left, right) => {
            lemma_expr_keeps(st, *left);
            if let Ok(s1) = resolve_expr(st, *left) {
                lemma_expr_keeps(s1, *right);
                if let Ok(s2) = resolve_expr(s1, *right) {
                    lemma_keeps_trans(st, s1, s2);
                }
            }
        },
        Expr::Call(callee, _, arguments) => {
            lemma_expr_keeps(st, *callee);
            if let Ok(s1) = resolve_expr(st, *callee) {
                lemma_exprs_keep(s1, arguments@);
                if let Ok(s2) = resolve_exprs(s1, arguments@) {
                    lemma_keeps_trans(st, s1, s2);
                }
            }
        },
        Expr::Grouping(inner) => lemma_expr_keeps(st, *inner),
        Expr::Unary(_, inner) => lemma_expr_keeps(st, *inner),
        Expr::Get(object, _) => lemma_expr_keeps(st, *object),
        Expr::SetProperty(object, _, value) => {
            lemma_expr_keeps(st, *object);
            if let Ok(s1) = resolve_expr(st, *object) {
                lemma_expr_keeps(s1, *value);
                if let Ok(s2) = resolve_expr(s1, *value) {
                    lemma_keeps_trans(st, s1, s2);
                }
            }
        },
        Expr::Literal(_) => {},
    }
}

pub proof fn lemma_exprs_keep(st: ResolveState, es: Seq<Expr>)
    ensures
        resolve_exprs(st, es) matches Ok(s2) ==> keeps(st, s2),
    decreases es, 1nat,
{
    if es.len() > 0 {
        lemma_expr_keeps(st, es[0]);
        if let Ok(s1) = resolve_expr(st, es[0]) {
            lemma_exprs_keep(s1, es.subrange(1, es.len() as int));
            if let Ok(s2) = resolve_exprs(st, es) {
                lemma_keeps_trans(st, s1, s2);
            }
        }
    }
}

pub proof fn lemma_function_keeps(st: ResolveState, f: Function, kind: FunctionType)
    ensures
        resolve_function(st, f, kind) matches Ok(s2) ==> keeps(st, s2),
    decreases f, 1nat,
{
    let s0 = opened(in_function(st, kind));
    lemma_params_keep(s0, f.parameters@);
    if let Ok(s1) = declare_params(s0, f.parameters@) {
        lemma_stmts_keep(s1, f.body@);
        if let Ok(s2) = resolve_stmts(s1, f.body@) {
            lemma_keeps_trans(s0, s1, s2);
            assert(closed(s2).scopes =~= s2.scopes.drop_last());
            assert(st.table.is_prefix_of(s2.table));
        }
    }
}

pub proof fn lemma_methods_keep(st: ResolveState, ms: Seq<Expr>, line: usize)
    ensures
        resolve_methods(st, ms, line) matches Ok(s2) ==> keeps(st, s2),
    decreases ms, 1nat,
{
    if ms.len() > 0 {
        if let Expr::Function(name, function) = ms[0] {
            lemma_function_keeps(st, shared_function(function), method_kind(name));
            if let Ok(s1) = resolve_function(st, shared_function(function), method_kind(name)) {
                lemma_methods_keep(s1, ms.subrange(1, ms.len() as int), line);
                if let Ok(s2) = resolve_methods(st, ms, line) {
                    lemma_keeps_trans(st, s1, s2);
                }
            }
        }
    }
}

/// Resolving a statement keeps the scope depth and context, and only adds
/// distances.
pub proof fn lemma_stmt_keeps(st: ResolveState, s: Statement)
    ensures
        resolve_stmt(st, s) matches Ok(s2) ==> keeps(st, s2),
    decreases s, 1nat,
{
    match s {
        Statement::Block(statements) => {
            lemma_stmts_keep(opened(st), statements@);
        },
        Statement::Variable(token, initializer) => {
            match initializer {
                Some(init) => {
                    if init matches Expr::Function(Some(_), _) {
                        if let Ok(s2) = declared(st, token) {
                            let s3 = with_name(s2, token.lexeme@);
                            lemma_expr_keeps(s3, init);
                            if let Ok(s4) = resolve_expr(s3, init) {
                                lemma_keeps_trans(st, s3, s4);
                            }
                        }
                    } else {
                        lemma_expr_keeps(st, init);
                    }
                },
                None => {},
            }
        },
        Statement::Expression(e) => lemma_expr_keeps(st, e),
        Statement::Print(e) => lemma_expr_keeps(st, e),
        Statement::If(condition, then_branch, else_branch) => {
            lemma_expr_keeps(st, condition);
            if let Ok(s1) = resolve_expr(st, condition) {
                lemma_stmt_keeps(s1, *then_branch);
                if let Ok(s2) = resolve_stmt(s1, *then_branch) {
                    lemma_keeps_trans(st, s1, s2);
                    match else_branch {
                        Some(e) => {
                            lemma_stmt_keeps(s2, *e);
                            if let Ok(s3) = resolve_stmt(s2, *e) {
                                lemma_keeps_trans(st, s2, s3);
                            }
                        },
                        None => {},
                    }
                }
            }
        },
        Statement::While(condition, body) => {
            lemma_expr_keeps(st, condition);
            if let Ok(s1) = resolve_expr(st, condition) {
                lemma_stmt_keeps(s1, *body);
                if let Ok(s2) = resolve_stmt(s1, *body) {
                    lemma_keeps_trans(st, s1, s2);
                }
            }
        },
        Statement::Return(_, value) => {
            match value {
                Some(v) => lemma_expr_keeps(st, v),
                None => {},
            }
        },
        Statement::Class(..) => lemma_class_keeps(st, s),
    }
}

/// Resolving a class declaration keeps the scope depth and context, and
/// only adds distances.
proof fn lemma_class_keeps(st: ResolveState, s: Statement)
    requires
        s is Class,
    ensures
        resolve_stmt(st, s) matches Ok(s2) ==> keeps(st, s2),
    decreases s, 0nat,
{
    if let Statement::Class(name, methods, superclass) = s {
        lemma_keeps_declared(in_class(st, ClassType::Class), name);
        if let Ok(s2) = declared(in_class(st, ClassType::Class), name) {
            let s3 = with_name(s2, name.lexeme@);
            let pre = match superclass {
                Some(parent) => match self_inheritance(parent, name) {
                    Some(line) => error_at("A class can't inherit from itself"@, Some(line)),
                    None => match resolve_expr(in_class(s3, ClassType::Subclass), parent) {
                        Ok(s4) => Ok(with_name(opened(s4), "super"@)),
                        Err(err) => Err(err),
                    },
                },
                None => Ok(s3),
            };
            match superclass {
                Some(parent) => {
                    lemma_expr_keeps(in_class(s3, ClassType::Subclass), parent);
                },
                None => {},
            }
            if let Ok(s5) = pre {
                let s5t = with_name(opened(s5), "this"@);
                assert(s5.scopes.len() == st.scopes.len() + if superclass is Some {
                    1int
                } else {
                    0int
                });
                assert(st.table.is_prefix_of(s5.table));
                lemma_methods_keep(s5t, methods@, name.line);
                if let Ok(s6) = resolve_methods(s5t, methods@, name.line) {
                    assert(st.table.is_prefix_of(s6.table)) by {
                        assert forall|i: int| 0 <= i < st.table.len() implies s6.table[i]
                            == st.table[i] by {
                            assert(s5t.table[i] == st.table[i]);
                        }
                    }
                }
            }
        }
    }
}

/// Resolving statements keeps the scope depth and context, and only adds
/// distances.
pub proof fn lemma_stmts_keep(st: ResolveState, ss: Seq<Statement>)
    ensures
        resolve_stmts(st, ss) matches Ok(s2) ==> keeps(st, s2),
    decreases ss, 1nat,
{
    if ss.len() > 0 {
        lemma_stmt_keeps(st, ss[0]);
        if let Ok(s1) = resolve_stmt(st, ss[0]) {
            lemma_stmts_keep(s1, ss.subrange(1, ss.len() as int));
            if let Ok(s2) = resolve_stmts(st, ss) {
                lemma_keeps_trans(st, s1, s2);
            }
        }
    }
}

impl Resolver {
    /// A resolver at the top level: no local scope, no function, no class.
    pub fn new() -> (r: Resolver)
        ensures
            r@ == (ResolveState {
                scopes: Seq::empty(),
                function: FunctionType::NoFunction,
                class: ClassType::NoClass,
                table: Seq::empty(),
            }),
    {
        let r = Resolver {
            scopes: Vec::new(),
            current_function: FunctionType::NoFunction,
            current_class: ClassType::NoClass,
            resolve_table: Vec::new(),
        };
        assert(r@.scopes =~= Seq::empty());
        r
    }

    fn scope_contains(scope: &Vec<Vec<char>>, name: &Vec<char>) -> (r: bool)
        ensures
            r == scope_names(scope@).contains(name@),
    {
        let mut i: usize = 0;
        while i < scope.len()
            invariant
                i <= scope.len(),
                forall|j: int| 0 <= j < i ==> (#[trigger] scope@[j])@ != name@,
            decreases scope.len() - i,
        {
            if chars_eq(&scope[i], name) {
                assert(scope_names(scope@)[i as int] == name@);
                return true;
            }
            i = i + 1;
        }
        proof {
            if scope_names(scope@).contains(name@) {
                let j = choose|j: int| 0 <= j < scope_names(scope@).len() && scope_names(scope@)[j]
                    == name@;
                assert(scope@[j]@ == name@);
            }
        }
        false
    }

    /// Records the distance of the innermost local scope holding `name`
    /// for expression `id`; records nothing when no local scope holds it.
    fn resolve_local(&mut self, id: usize, name: &Vec<char>)
        ensures
            final(self)@ == with_local(old(self)@, id, name@),
    {
        let n = self.scopes.len();
        let ghost v = self@.scopes;
        let mut i = n;
        while i > 0
            invariant
                i <= n,
                n == self.scopes@.len(),
                *self == *old(self),
                v == self@.scopes,
                distance_in(v, n as int, name@) == match distance_in(v, i as int, name@) {
                    Some(d) => Some((d + (n - i)) as nat),
                    None => None,
                },
            decreases i,
        {
            if Resolver::scope_contains(&self.scopes[i - 1], name) {
                assert(v[i - 1] == scope_names(self.scopes@[i - 1]@));
                self.resolve_table.push((id, n - i));
                return;
            }
            assert(v[i - 1] == scope_names(self.scopes@[i - 1]@));
            i = i - 1;
        }
    }

    fn begin_scope(&mut self)
        ensures
            final(self)@ == opened(old(self)@),
    {
        self.scopes.push(Vec::new());
        assert(scope_names(Seq::<Vec<char>>::empty()) =~= Seq::<Seq<char>>::empty());
        assert(self@.scopes =~= old(self)@.scopes.push(Seq::empty()));
    }

    fn end_scope(&mut self)
        ensures
            final(self)@ == closed(old(self)@),
    {
        let _ = self.scopes.pop();
        assert(self@.scopes =~= closed(old(self)@).scopes);
    }

    /// Adds a name to the innermost scope, whose view grows by it.
    fn push_name(&mut self, name: Vec<char>)
        requires
            old(self).scopes@.len() > 0,
        ensures
            final(self)@ == (ResolveState {
                scopes: old(self)@.scopes.update(
                    old(self)@.scopes.len() - 1,
                    old(self)@.scopes.last().push(name@),
                ),
                ..old(self)@
            }),
    {
        let n = self.scopes.len();
        let ghost before = self.scopes@[n - 1];
        let scope = &mut self.scopes[n - 1];
        scope.push(name);
        proof {
            assert(scope_names(self.scopes@[n - 1]@) =~= scope_names(before@).push(name@));
            assert(self@.scopes =~= old(self)@.scopes.update(
                n - 1,
                old(self)@.scopes.last().push(name@),
            ));
        }
    }

    /// Adds a name to the innermost scope; it is an error if the scope
    /// holds it already. Nothing happens at the top level.
    fn declare(&mut self, token: &Token) -> (r: Result<(), InterpreterError>)
        ensures
            reports(r, declared(old(self)@, *token), final(self)@),
            r is Err ==> final(self)@ == old(self)@,
    {
        let n = self.scopes.len();
        if n == 0 {
            return Ok(());
        }
        if Resolver::scope_contains(&self.scopes[n - 1], &token.lexeme) {
            let mut message: Vec<char> = Vec::new();
            append_str(&mut message, "Already a variable with name '");
            append_chars(&mut message, &token.lexeme);
            append_str(&mut message, "' in this scope");
            return Err(InterpreterError::resolving(message, Some(token.line)));
        }
        self.push_name(token.lexeme.clone());
        Ok(())
    }

    /// Makes a name available in the innermost scope, if there is one.
    fn define(&mut self, name: &Vec<char>)
        ensures
            final(self)@ == with_name(old(self)@, name@),
    {
        let n = self.scopes.len();
        if n == 0 {
            return;
        }
        if !Resolver::scope_contains(&self.scopes[n - 1], name) {
            self.push_name(name.clone());
        }
    }

    /// Resolves a list of statements in order; stops at the first error.
    #[verifier::loop_isolation(false)]
    pub fn resolve(&mut self, statements: &Vec<Statement>) -> (r: Result<(), InterpreterError>)
        ensures
            reports(r, resolve_stmts(old(self)@, statements@), final(self)@),
            r is Ok ==> keeps(old(self)@, final(self)@),
        decreases statements, 1nat,
    {
        proof {
            lemma_stmts_keep(old(self)@, statements@);
        }
        let ghost all = statements@;
        assert(all.subrange(0, all.len() as int) =~= all);
        let mut i: usize = 0;
        while i < statements.len()
            invariant
                i <= statements.len(),
                all == statements@,
                resolve_stmts(old(self)@, all) == resolve_stmts(
                    self@,
                    all.subrange(i as int, all.len() as int),
                ),
            decreases statements.len() - i,
        {
            proof {
                assert(decreases_to!(statements => statements@));
                assert(decreases_to!(statements@ => statements@[i as int]));
                let rest = all.subrange(i as int, all.len() as int);
                assert(rest[0] == all[i as int]);
                assert(rest.subrange(1, rest.len() as int) =~= all.subrange(
                    i + 1,
                    all.len() as int,
                ));
            }
            self.resolve_statement(&statements[i])?;
            i = i + 1;
        }
        Ok(())
    }

    fn resolve_statement(&mut self, statement: &Statement) -> (r: Result<(), InterpreterError>)
        ensures
            reports(r, resolve_stmt(old(self)@, *statement), final(self)@),
        decreases statement, 1nat,
    {
        match statement {
            Statement::Block(statements) => {
                self.begin_scope();
                self.resolve(statements)?;
                self.end_scope();
                Ok(())
            },
            Statement::Variable(token, initializer) => {
                match initializer {
                    Some(Expr::Function(Some(_), _)) => {
                        // A function may call itself: its name is available
                        // in its own body.
                        self.declare(token)?;
                        self.define(&token.lexeme);
                        match initializer {
                            Some(init) => self.resolve_expression(init)?,
                            None => {},
                        }
                    },
                    _ => {
                        match initializer {
                            Some(init) => self.resolve_expression(init)?,
                            None => {},
                        }
                        self.declare(token)?;
                        self.define(&token.lexeme);
                    },
                }
                Ok(())
            },
            Statement::Expression(expr) => self.resolve_expression(expr),
            Statement::Print(expr) => self.resolve_expression(expr),
            Statement::If(condition, then_branch, else_branch) => {
                self.resolve_expression(condition)?;
                self.resolve_statement(then_branch)?;
                match else_branch {
                    Some(e) => self.resolve_statement(e)?,
                    None => {},
                }
                Ok(())
            },
            Statement::While(condition, body) => {
                self.resolve_expression(condition)?;
                self.resolve_statement(body)
            },
            Statement::Return(keyword, value) => {
                if self.current_function == FunctionType::NoFunction {
                    return Err(
                        InterpreterError::resolving(
                            str_to_chars("Can't return from top level code"),
                            None,
                        ),
                    );
                }
                match value {
                    Some(v) => {
                        if self.current_function == FunctionType::Initializer {
                            return Err(
                                InterpreterError::resolving(
                                    str_to_chars("Can't return a value from an initializer"),
                                    Some(keyword.line),
                                ),
                            );
                        }
                        self.resolve_expression(v)
                    },
                    None => Ok(()),
                }
            },
            Statement::Class(name, methods, superclass) => self.resolve_class(
                statement,
                name,
                methods,
                superclass,
            ),
        }
    }

    /// Resolves a class declaration: its name, its superclass in a scope
    /// that defines `super`, and its methods in a scope that defines `this`.
    #[verifier::loop_isolation(false)]
    fn resolve_class(
        &mut self,
        statement: &Statement,
        name: &Token,
        methods: &Vec<Expr>,
        superclass: &Option<Expr>,
    ) -> (r: Result<(), InterpreterError>)
        requires
            *statement == Statement::Class(*name, *methods, *superclass),
        ensures
            reports(r, resolve_stmt(old(self)@, *statement), final(self)@),
        decreases statement, 0nat,
    {
        let enclosing_class = self.current_class;
        self.current_class = ClassType::Class;
        self.declare(name)?;
        self.define(&name.lexeme);
        match superclass {
            Some(parent) => {
                match parent {
                    Expr::Variable(_, parent_name) => {
                        if chars_eq(&parent_name.lexeme, &name.lexeme) {
                            return Err(
                                InterpreterError::resolving(
                                    str_to_chars("A class can't inherit from itself"),
                                    Some(parent_name.line),
                                ),
                            );
                        }
                    },
                    _ => {},
                }
                self.current_class = ClassType::Subclass;
                proof {
                    assert(decreases_to!(statement => superclass));
                }
                self.resolve_expression(parent)?;
                self.begin_scope();
                self.define(&str_to_chars("super"));
            },
            None => {},
        }
        self.begin_scope();
        self.define(&str_to_chars("this"));
        let ghost start = self@;
        let ghost all = methods@;
        assert(all.subrange(0, all.len() as int) =~= all);
        let mut i: usize = 0;
        while i < methods.len()
            invariant
                i <= methods.len(),
                all == methods@,
                resolve_methods(start, all, name.line) == resolve_methods(
                    self@,
                    all.subrange(i as int, all.len() as int),
                    name.line,
                ),
            decreases methods.len() - i,
        {
            proof {
                assert(decreases_to!(statement => methods));
                assert(decreases_to!(methods => methods@));
                assert(decreases_to!(methods@ => methods@[i as int]));
                let rest = all.subrange(i as int, all.len() as int);
                assert(rest[0] == all[i as int]);
                assert(rest.subrange(1, rest.len() as int) =~= all.subrange(
                    i + 1,
                    all.len() as int,
                ));
            }
            match &methods[i] {
                Expr::Function(method_name, function) => {
                    let kind = match method_name {
                        Some(t) => if chars_eq(&t.lexeme, &str_to_chars("init")) {
                            FunctionType::Initializer
                        } else {
                            FunctionType::Method
                        },
                        None => FunctionType::Method,
                    };
                    proof {
                        assert(decreases_to!(methods@[i as int] => function));
                    }
                    self.resolve_function(function, kind)?;
                },
                _ => {
                    return Err(
                        InterpreterError::resolving(
                            str_to_chars("expression is not a method"),
                            Some(name.line),
                        ),
                    );
                },
            }
            i = i + 1;
        }
        self.end_scope();
        if superclass.is_some() {
            self.end_scope();
        }
        self.current_class = enclosing_class;
        Ok(())
    }

    #[verifier::loop_isolation(false)]
    fn resolve_function(&mut self, function: &Function, kind: FunctionType) -> (r: Result<
        (),
        InterpreterError,
    >)
        ensures
            reports(r, resolve_function(old(self)@, *function, kind), final(self)@),
        decreases function, 1nat,
    {
        let enclosing_function = self.current_function;
        self.current_function = kind;
        self.begin_scope();
        let ghost params = function.parameters@;
        let ghost start = self@;
        assert(params.subrange(0, params.len() as int) =~= params);
        let mut i: usize = 0;
        while i < function.parameters.len()
            invariant
                i <= function.parameters.len(),
                params == function.parameters@,
                start == opened(in_function(old(self)@, kind)),
                declare_params(start, params) == declare_params(
                    self@,
                    params.subrange(i as int, params.len() as int),
                ),
            decreases function.parameters.len() - i,
        {
            proof {
                let rest = params.subrange(i as int, params.len() as int);
                assert(rest[0] == params[i as int]);
                assert(rest.subrange(1, rest.len() as int) =~= params.subrange(
                    i + 1,
                    params.len() as int,
                ));
            }
            self.declare(&function.parameters[i])?;
            self.define(&function.parameters[i].lexeme);
            i = i + 1;
        }
        proof {
            assert(decreases_to!(function => function.body));
        }
        self.resolve(&function.body)?;
        self.end_scope();
        self.current_function = enclosing_function;
        Ok(())
    }

    #[verifier::loop_isolation(false)]
    fn resolve_expression(&mut self, expr: &Expr) -> (r: Result<(), InterpreterError>)
        ensures
            reports(r, resolve_expr(old(self)@, *expr), final(self)@),
        decreases expr, 1nat,
    {
        match expr {
            Expr::Variable(id, token) => {
                self.resolve_local(*id, &token.lexeme);
                Ok(())
            },
            Expr::Assignment(_, _, value) => self.resolve_expression(value),
            Expr::This(id, token) => {
                if self.current_class == ClassType::NoClass {
                    return Err(
                        InterpreterError::resolving(
                            str_to_chars("Can't use 'this' outside of a class"),
                            Some(token.line),
                        ),
                    );
                }
                self.resolve_local(*id, &token.lexeme);
                Ok(())
            },
            Expr::Super(id, keyword, _) => {
                if self.current_class == ClassType::NoClass {
                    return Err(
                        InterpreterError::resolving(
                            str_to_chars("Can't use 'super' outside of a class"),
                            Some(keyword.line),
                        ),
                    );
                }
                if self.current_class == ClassType::Class {
                    return Err(
                        InterpreterError::resolving(
                            str_to_chars("Can't use 'super' in a class with no superclass"),
                            Some(keyword.line),
                        ),
                    );
                }
                self.resolve_local(*id, &keyword.lexeme);
                Ok(())
            },
            Expr::Function(name, function) => {
                match name {
                    Some(t) => self.define(&t.lexeme),
                    None => {},
                }
                proof {
                    assert(decreases_to!(expr => function));
                }
                self.resolve_function(function, FunctionType::Function)
            },
            Expr::Binary(_, left, right) | Expr::Logical(_, left, right) => {
                self.resolve_expression(left)?;
                self.resolve_expression(right)
            },
            Expr::Call(callee, _, arguments) => {
                self.resolve_expression(callee)?;
                let ghost all = arguments@;
                assert(all.subrange(0, all.len() as int) =~= all);
                let mut i: usize = 0;
                while i < arguments.len()
                    invariant
                        i <= arguments.len(),
                        all == arguments@,
                        resolve_expr(old(self)@, *expr) == resolve_exprs(
                            self@,
                            all.subrange(i as int, all.len() as int),
                        ),
                    decreases arguments.len() - i,
                {
                    proof {
                        assert(decreases_to!(arguments => arguments@));
                        assert(decreases_to!(arguments@ => arguments@[i as int]));
                        let rest = all.subrange(i as int, all.len() as int);
                        assert(rest[0] == all[i as int]);
                        assert(rest.subrange(1, rest.len() as int) =~= all.subrange(
                            i + 1,
                            all.len() as int,
                        ));
                    }
                    self.resolve_expression(&arguments[i])?;
                    i = i + 1;
                }
                Ok(())
            },
            Expr::Grouping(e) => self.resolve_expression(e),
            Expr::Literal(_) => Ok(()),
            Expr::Unary(_, e) => self.resolve_expression(e),
            Expr::Get(object, _) => self.resolve_expression(object),
            Expr::SetProperty(object, _, value) => {
                self.resolve_expression(object)?;
                self.resolve_expression(value)
            },
        }
    }
}

} // verus!
