//! The tree-walking interpreter. Strings, functions, classes and instances
//! live in stores of the interpreter; a value refers to them by position,
//! so values are small and copied freely. Text printed by the program is
//! collected in `output`.
use std::rc::Rc;
use vstd::prelude::*;
use crate::environment::{Environment, Environments, FrameView, assigned, defined, fresh, key_index, lemma_get_after_assign, lemma_get_after_define, lookup, lookup_at, owner, store_wf};
use crate::errors::{ErrorMessage, InterpreterError};
use crate::number::{
    formats, num_add, num_div, num_eq, num_format, num_from_u64, spec_num_from_u64, num_le, num_lt, num_mul, num_neg,
    spec_num_add, spec_num_div, spec_num_eq, spec_num_lt, spec_num_mul, spec_num_neg,
};
use crate::parser::{Expr, Function, Parsed, Parser, Statement, cursor_items, expr_view, spec_expression, spec_program, spec_program_clean, stmts_view};
use crate::resolver::{ClassType, FunctionType, ResolveError, ResolveState, Resolver, resolve_stmts};
use crate::scanner::{Literal, Token, TokenType};
use crate::text::{append_chars, append_decimal, append_str, chars_eq, chars_to_string, decimal, str_to_chars};

verus! {

/// A Lox value. Strings, functions, classes and instances are positions in
/// the interpreter's stores.
#[derive(Clone, Copy, Debug, PartialEq, Eq, Structural)]
pub enum Value {
    Nil,
    Boolean(bool),
    Number(u64),
    Str(usize),
    Function(usize),
    Class(usize),
    Instance(usize),
}

/// What a function does when called.
#[derive(Clone, Copy, Debug, PartialEq, Eq, Structural)]
pub enum FunctionKind {
    Lox,
    Clock,
    Env,
}

/// A function: a Lox function with its parameters, body and the scope it
/// closes over, or one of the built-in functions.
pub struct FunctionObject {
    pub kind: FunctionKind,
    pub name: Vec<char>,
    pub parameters: Vec<Vec<char>>,
    pub body: Option<Rc<Function>>,
    pub closure: usize,
}

/// A class: its name, its methods (positions of functions) and its
/// superclass.
pub struct LoxClass {
    pub name: Vec<char>,
    pub methods: Vec<(Vec<char>, usize)>,
    pub super_class: Option<usize>,
}

/// An instance: its class and its fields.
pub struct LoxInstance {
    pub class: usize,
    pub fields: Vec<(Vec<char>, Value)>,
}

/// How a statement finished: by `return` with a value, or normally.
pub enum StatementResult {
    Return(Value),
    Empty,
}

/// The built-in `clock` function: seconds since the Unix epoch.
pub struct Clock {}

/// The built-in `env` function: the value of an environment variable, or
/// `nil` when it is not set.
pub struct Env {}

/// The value of the most recent entry for `key`, if any.
pub open spec fn pair_lookup(vars: Seq<(Vec<char>, Vec<char>)>, key: Seq<char>) -> Option<Seq<char>>
    decreases vars.len(),
{
    if vars.len() == 0 {
        None
    } else if vars.last().0@ == key {
        Some(vars.last().1@)
    } else {
        pair_lookup(vars.drop_last(), key)
    }
}

/// The instant `SystemTime::now` returned.
#[verifier::external_type_specification]
#[verifier::external_body]
pub struct ExSystemTime(std::time::SystemTime);

/// Calls `Rc::clone`: a new handle to the same allocation, so the value
/// it refers to is the one `b` refers to.
#[verifier::external_body]
fn rc_clone<T>(b: &Rc<T>) -> (r: Rc<T>)
    ensures
        r == *b,
{
    Rc::clone(b)
}

/// Calls `SystemTime::now`: the current time of the system clock. Nothing
/// is stated of the instant, which depends on the moment of the call.
#[verifier::external_body]
fn system_time_now() -> (r: std::time::SystemTime) {
    std::time::SystemTime::now()
}

/// The error `SystemTime::duration_since` gives for an instant before
/// the one it is measured from.
#[verifier::external_type_specification]
#[verifier::external_body]
pub struct ExSystemTimeError(std::time::SystemTimeError);

/// Calls `SystemTime::duration_since` with `UNIX_EPOCH`: the time elapsed
/// since the epoch, or an error when the instant lies before it. Nothing
/// is stated of the outcome, which depends on the instant.
#[verifier::external_body]
fn duration_since_epoch(t: &std::time::SystemTime) -> (r: Result<std::time::Duration, std::time::SystemTimeError>) {
    t.duration_since(std::time::UNIX_EPOCH)
}

/// Calls `Duration::as_secs`: the whole seconds of a duration. Nothing is
/// stated of the number, since the duration's contents are not modelled.
#[verifier::external_body]
fn duration_secs(d: &std::time::Duration) -> (r: u64) {
    d.as_secs()
}

/// Formats a `SystemTimeError` with its `Display`: its message. Nothing is
/// stated of the text.
#[verifier::external_body]
fn time_error_text(e: &std::time::SystemTimeError) -> (r: String) {
    format!("{}", e)
}

/// What `clock` gives for the outcome of reading the clock: the seconds,
/// or a runtime error at `line` whose message is `System time error: `
/// followed by the clock's message.
pub fn clock_outcome(outcome: Result<u64, Vec<char>>, line: usize) -> (r: Result<u64, InterpreterError>)
    ensures
        outcome matches Ok(secs) ==> r == Ok::<u64, InterpreterError>(secs),
        outcome matches Err(message) ==> (r matches Err(InterpreterError::RuntimeError(m))
            && m.line == Some(line) && m.message@ == "System time error: "@ + message@),
{
    match outcome {
        Ok(s) => Ok(s),
        Err(message) => {
            let mut text: Vec<char> = Vec::new();
            append_str(&mut text, "System time error: ");
            append_chars(&mut text, &message);
            Err(InterpreterError::RuntimeError(ErrorMessage::new(text, Some(line))))
        },
    }
}

impl Clock {
    pub fn arity(&self) -> (r: usize)
        ensures
            r == 0,
    {
        0
    }

    pub fn name(&self) -> (r: &'static str)
        ensures
            r@ == "clock"@,
    {
        "clock"
    }

    /// The current number of seconds since the Unix epoch, or a runtime
    /// error at `line` when the system clock is before the epoch.
    pub fn call(&self, line: usize) -> (r: Result<u64, InterpreterError>)
        ensures
            r matches Err(e) ==> e matches InterpreterError::RuntimeError(m) && m.line == Some(
                line,
            ) && m.message@.len() >= 19 && m.message@.subrange(0, 19) == "System time error: "@,
    {
        let now = system_time_now();
        let outcome = match duration_since_epoch(&now) {
            Ok(d) => Ok(duration_secs(&d)),
            Err(e) => {
                let text = time_error_text(&e);
                Err(str_to_chars(text.as_str()))
            },
        };
        let r = clock_outcome(outcome, line);
        proof {
            reveal_strlit("System time error: ");
            if outcome is Err {
                let m = r->Err_0->RuntimeError_0;
                assert(m.message@.subrange(0, 19) =~= "System time error: "@);
            }
        }
        r
    }
}

impl Env {
    pub fn arity(&self) -> (r: usize)
        ensures
            r == 1,
    {
        1
    }

    pub fn name(&self) -> (r: &'static str)
        ensures
            r@ == "env"@,
    {
        "env"
    }

    /// The value of the variable named by the string argument among
    /// `vars` (the latest entry wins), `None` when it is not set; a
    /// runtime error at `line` when the argument is not a string.
    #[verifier::loop_isolation(false)]
    pub fn call(&self, vars: &Vec<(Vec<char>, Vec<char>)>, key: Option<&Vec<char>>, line: usize) -> (r:
        Result<Option<Vec<char>>, InterpreterError>)
        ensures
            key is None ==> (r matches Err(e) && e matches InterpreterError::RuntimeError(m)
                && m.line == Some(line) && m.message@ == "Invalid argument to 'env' function"@),
            key matches Some(k) ==> (r matches Ok(v) && match pair_lookup(vars@, k@) {
                Some(x) => v matches Some(y) && y@ == x,
                None => v is None,
            }),
    {
        match key {
            None => Err(
                InterpreterError::RuntimeError(
                    ErrorMessage::from_str("Invalid argument to 'env' function", Some(line)),
                ),
            ),
            Some(k) => {
                let mut i = vars.len();
                assert(vars@.subrange(0, i as int) =~= vars@);
                while i > 0
                    invariant
                        i <= vars.len(),
                        pair_lookup(vars@, k@) == pair_lookup(vars@.subrange(0, i as int), k@),
                    decreases i,
                {
                    let ghost prefix = vars@.subrange(0, i as int);
                    assert(prefix.last() == vars@[i - 1]);
                    if chars_eq(&vars[i - 1].0, k) {
                        let mut value: Vec<char> = Vec::new();
                        append_chars(&mut value, &vars[i - 1].1);
                        assert(value@ =~= vars@[i - 1].1@);
                        return Ok(Some(value));
                    }
                    assert(prefix.drop_last() =~= vars@.subrange(0, i - 1));
                    i = i - 1;
                }
                Ok(None)
            },
        }
    }
}

/// Whether a value counts as true: all but `nil` and `false` do.
pub open spec fn spec_truthy(v: Value) -> bool {
    match v {
        Value::Nil => false,
        Value::Boolean(b) => b,
        _ => true,
    }
}

/// Whether a value counts as true: all but `nil` and `false` do.
pub fn is_truthy(v: Value) -> (r: bool)
    ensures
        r == spec_truthy(v),
{
    match v {
        Value::Nil => false,
        Value::Boolean(b) => b,
        _ => true,
    }
}

/// The largest nesting of calls and subexpressions the interpreter
/// follows before it reports a stack overflow.
pub const MAX_DEPTH: u64 = 200000;

/// The state of a run: the parser it reads from, the scopes, the stores
/// of strings, functions, classes and instances, the resolved distances of
/// variables, and the text printed so far.
pub struct Interpreter {
    pub parser: Option<Parser>,
    pub envs: Environments<Value>,
    pub global: Environment,
    pub strings: Vec<Vec<char>>,
    pub functions: Vec<FunctionObject>,
    pub classes: Vec<LoxClass>,
    pub instances: Vec<LoxInstance>,
    pub resolve_table: Vec<Option<usize>>,
    pub output: Vec<char>,
    pub has_parsing_errors: bool,
    pub env_vars: Vec<(Vec<char>, Vec<char>)>,
}

/// The sizes of the interpreter's stores.
pub struct Sizes {
    pub strings: nat,
    pub functions: nat,
    pub classes: nat,
    pub instances: nat,
}

/// Stores of these sizes hold what the value refers to.
pub open spec fn value_fits(v: Value, n: Sizes) -> bool {
    match v {
        Value::Str(i) => i < n.strings,
        Value::Function(i) => i < n.functions,
        Value::Class(i) => i < n.classes,
        Value::Instance(i) => i < n.instances,
        _ => true,
    }
}

/// No store is smaller in `b` than in `a`.
pub open spec fn sizes_le(a: Sizes, b: Sizes) -> bool {
    a.strings <= b.strings && a.functions <= b.functions && a.classes <= b.classes && a.instances
        <= b.instances
}

/// Every value of every scope fits the stores.
pub open spec fn frames_fit(v: Seq<FrameView<Value>>, n: Sizes) -> bool {
    forall|f: int, k: int|
        0 <= f < v.len() && 0 <= k < v[f].values.len() ==> value_fits(
            #[trigger] v[f].values[k],
            n,
        )
}

pub proof fn lemma_frames_fit_grow(v: Seq<FrameView<Value>>, a: Sizes, b: Sizes)
    requires
        frames_fit(v, a),
        sizes_le(a, b),
    ensures
        frames_fit(v, b),
{
    assert forall|f: int, k: int| 0 <= f < v.len() && 0 <= k < v[f].values.len() implies value_fits(
        #[trigger] v[f].values[k],
        b,
    ) by {
        assert(value_fits(v[f].values[k], a));
    }
}

pub proof fn lemma_frames_fit_define(v: Seq<FrameView<Value>>, frame: int, key: Seq<char>, x: Value, n: Sizes)
    requires
        frames_fit(v, n),
        value_fits(x, n),
        0 <= frame < v.len(),
    ensures
        frames_fit(defined(v, frame, key, x), n),
{
    let nv = defined(v, frame, key, x);
    assert forall|f: int, k: int| 0 <= f < nv.len() && 0 <= k < nv[f].values.len() implies value_fits(
        #[trigger] nv[f].values[k],
        n,
    ) by {
        if f == frame {
            if k < v[f].values.len() {
                assert(nv[f].values[k] == v[f].values[k]);
            }
        } else {
            assert(nv[f] == v[f]);
        }
    }
}

pub proof fn lemma_frames_fit_assign(v: Seq<FrameView<Value>>, frame: int, key: Seq<char>, x: Value, n: Sizes)
    requires
        frames_fit(v, n),
        value_fits(x, n),
        owner(v, frame, key) >= 0,
    ensures
        frames_fit(assigned(v, frame, key, x), n),
{
    crate::environment::lemma_owner_bound(v, frame, key);
    let o = owner(v, frame, key);
    let nv = assigned(v, frame, key, x);
    assert forall|f: int, k: int| 0 <= f < nv.len() && 0 <= k < nv[f].values.len() implies value_fits(
        #[trigger] nv[f].values[k],
        n,
    ) by {
        if f == o {
            if k != key_index(v[o].keys, key) {
                assert(nv[f].values[k] == v[f].values[k]);
            }
        } else {
            assert(nv[f] == v[f]);
        }
    }
}

pub proof fn lemma_frames_fit_push(v: Seq<FrameView<Value>>, e: Option<usize>, n: Sizes)
    requires
        frames_fit(v, n),
    ensures
        frames_fit(v.push(fresh(e)), n),
{
    let nv = v.push(fresh(e));
    assert forall|f: int, k: int| 0 <= f < nv.len() && 0 <= k < nv[f].values.len() implies value_fits(
        #[trigger] nv[f].values[k],
        n,
    ) by {
        if f < v.len() {
            assert(nv[f] == v[f]);
        }
    }
}

pub proof fn lemma_lookup_fits(v: Seq<FrameView<Value>>, frame: int, key: Seq<char>, n: Sizes)
    requires
        frames_fit(v, n),
    ensures
        lookup(v, frame, key) matches Some(x) ==> value_fits(x, n),
    decreases frame,
{
    if 0 <= frame < v.len() {
        crate::environment::lemma_key_index(v[frame].keys, key);
        let i = key_index(v[frame].keys, key);
        if 0 <= i < v[frame].values.len() {
            assert(value_fits(v[frame].values[i], n));
        }
        match v[frame].enclosing {
            Some(p) => {
                if p < frame {
                    lemma_lookup_fits(v, p as int, key, n);
                }
            },
            None => {},
        }
    }
}

pub proof fn lemma_lookup_at_fits(v: Seq<FrameView<Value>>, frame: int, key: Seq<char>, d: nat, n: Sizes)
    requires
        frames_fit(v, n),
    ensures
        lookup_at(v, frame, key, d) matches Some(x) ==> value_fits(x, n),
    decreases d,
{
    if 0 <= frame < v.len() {
        if d == 0 {
            let i = key_index(v[frame].keys, key);
            if 0 <= i < v[frame].values.len() {
                assert(value_fits(v[frame].values[i], n));
            }
        } else {
            match v[frame].enclosing {
                Some(p) => lemma_lookup_at_fits(v, p as int, key, (d - 1) as nat, n),
                None => {},
            }
        }
    }
}

/// A class refers only to existing functions, and its superclass was
/// made before it.
pub open spec fn class_fits(c: LoxClass, i: int, n: Sizes) -> bool {
    &&& forall|m: int| 0 <= m < c.methods@.len() ==> (#[trigger] c.methods@[m]).1 < n.functions
    &&& c.super_class matches Some(sc) ==> sc < i
}

/// An instance refers to an existing class, and its fields fit the stores.
pub open spec fn instance_fits(x: LoxInstance, n: Sizes) -> bool {
    &&& x.class < n.classes
    &&& forall|k: int| 0 <= k < x.fields@.len() ==> value_fits((#[trigger] x.fields@[k]).1, n)
}

pub proof fn lemma_parts_fit_grow(s: Interpreter, a: Sizes, b: Sizes)
    requires
        s.parts_fit(a),
        sizes_le(a, b),
    ensures
        s.parts_fit(b),
{
    lemma_frames_fit_grow(s.envs.view(), a, b);
    assert forall|i: int| 0 <= i < s.classes@.len() implies class_fits(#[trigger] s.classes@[i], i, b) by {
        assert(class_fits(s.classes@[i], i, a));
    }
    assert forall|i: int| 0 <= i < s.instances@.len() implies instance_fits(#[trigger] s.instances@[i], b) by {
        let x = s.instances@[i];
        assert(instance_fits(x, a));
        assert forall|k: int| 0 <= k < x.fields@.len() implies value_fits((#[trigger] x.fields@[k]).1, b) by {
            assert(value_fits(x.fields@[k].1, a));
        }
    }
}

/// A runtime error at a line.
fn runtime_error(message: &str, line: usize) -> (r: InterpreterError)
    ensures
        r matches InterpreterError::InterpreterError(m) && m.message@ == message@ && m.line == Some(
            line,
        ),
{
    InterpreterError::evaluating(str_to_chars(message), line)
}

/// The text of a string store entry, or nothing for an unknown position.
pub open spec fn string_at(strings: Seq<Vec<char>>, i: usize) -> Seq<char> {
    if i < strings.len() {
        strings[i as int]@
    } else {
        Seq::empty()
    }
}

impl Interpreter {
    /// The sizes of the stores.
    pub open spec fn sizes(&self) -> Sizes {
        Sizes {
            strings: self.strings@.len(),
            functions: self.functions@.len(),
            classes: self.classes@.len(),
            instances: self.instances@.len(),
        }
    }

    /// The value refers to something that exists.
    pub open spec fn value_ok(&self, v: Value) -> bool {
        value_fits(v, self.sizes())
    }

    /// Everything the scopes, functions, classes and instances refer to
    /// exists, for stores of sizes `n`.
    pub open spec fn parts_fit(&self, n: Sizes) -> bool {
        &&& frames_fit(self.envs.view(), n)
        &&& forall|i: int|
            0 <= i < self.functions@.len() ==> (#[trigger] self.functions@[i]).closure
                < self.envs.view().len()
        &&& forall|i: int| 0 <= i < self.classes@.len() ==> class_fits(#[trigger] self.classes@[i], i, n)
        &&& forall|i: int| 0 <= i < self.instances@.len() ==> instance_fits(#[trigger] self.instances@[i], n)
    }

    /// Every value held refers to something that exists.
    pub open spec fn heap_ok(&self) -> bool {
        self.parts_fit(self.sizes())
    }

    /// The scopes and the global scope are usable.
    pub open spec fn inv(&self) -> bool {
        &&& self.heap_ok()
        &&& self.parser matches Some(p) ==> p.wf()
        &&& self.envs.wf()
        &&& self.global.index < self.envs.view().len()
        &&& self.envs.view().len() < usize::MAX - 4
    }

    /// Whether the value `v` is printed as `text`, for the values whose
    /// text does not depend on the numeric formatter.
    pub open spec fn shows(&self, v: Value, text: Seq<char>) -> bool {
        match v {
            Value::Nil => text == "nil"@,
            Value::Boolean(b) => text == if b {
                "true"@
            } else {
                "false"@
            },
            Value::Str(i) => text == string_at(self.strings@, i),
            Value::Function(i) => text == if i < self.functions@.len() {
                match self.functions@[i as int].kind {
                    FunctionKind::Lox => "<fn "@ + self.functions@[i as int].name@ + ">"@,
                    FunctionKind::Clock => "clock"@,
                    FunctionKind::Env => "env"@,
                }
            } else {
                Seq::empty()
            },
            Value::Class(i) => text == if i < self.classes@.len() {
                "class "@ + self.classes@[i as int].name@ + " {...}"@
            } else {
                Seq::empty()
            },
            Value::Instance(i) => text == if i < self.instances@.len() {
                (if self.instances@[i as int].class < self.classes@.len() {
                    self.classes@[self.instances@[i as int].class as int].name@
                } else {
                    Seq::empty()
                }) + " instance"@
            } else {
                Seq::empty()
            },
            Value::Number(n) => formats(n, text),
        }
    }

    /// The text a value is printed as.
    pub fn display_value(&self, v: Value) -> (r: Vec<char>)
        ensures
            self.shows(v, r@),
    {
        let mut out: Vec<char> = Vec::new();
        match v {
            Value::Nil => append_str(&mut out, "nil"),
            Value::Boolean(b) => {
                if b {
                    append_str(&mut out, "true");
                } else {
                    append_str(&mut out, "false");
                }
            },
            Value::Number(n) => {
                let t = num_format(n);
                append_chars(&mut out, &t);
            },
            Value::Str(i) => {
                if i < self.strings.len() {
                    append_chars(&mut out, &self.strings[i]);
                }
            },
            Value::Function(i) => {
                if i < self.functions.len() {
                    let f = &self.functions[i];
                    match f.kind {
                        FunctionKind::Lox => {
                            append_str(&mut out, "<fn ");
                            append_chars(&mut out, &f.name);
                            append_str(&mut out, ">");
                            assert(out@ =~= "<fn "@ + f.name@ + ">"@);
                        },
                        FunctionKind::Clock => {
                            append_str(&mut out, "clock");
                            assert(out@ =~= "clock"@);
                        },
                        FunctionKind::Env => {
                            append_str(&mut out, "env");
                            assert(out@ =~= "env"@);
                        },
                    }
                }
            },
            Value::Class(i) => {
                if i < self.classes.len() {
                    append_str(&mut out, "class ");
                    append_chars(&mut out, &self.classes[i].name);
                    append_str(&mut out, " {...}");
                    assert(out@ =~= "class "@ + self.classes@[i as int].name@ + " {...}"@);
                }
            },
            Value::Instance(i) => {
                if i < self.instances.len() {
                    let c = self.instances[i].class;
                    if c < self.classes.len() {
                        append_chars(&mut out, &self.classes[c].name);
                    }
                    append_str(&mut out, " instance");
                    assert(out@ =~= (if c < self.classes@.len() {
                        self.classes@[c as int].name@
                    } else {
                        Seq::empty()
                    }) + " instance"@);
                }
            },
        }
        out
    }

    /// Adds a string to the store.
    fn new_string(&mut self, text: Vec<char>) -> (r: Value)
        requires
            old(self).inv(),
        ensures
            final(self).inv(),
            grows(*old(self), *final(self)),
            r == Value::Str(old(self).strings@.len() as usize),
            final(self).value_ok(r),
            final(self).strings@ == old(self).strings@.push(text),
            final(self).envs == old(self).envs,
            final(self).functions == old(self).functions,
            final(self).classes == old(self).classes,
            final(self).instances == old(self).instances,
            final(self).output == old(self).output,
            final(self).resolve_table == old(self).resolve_table,
            final(self).env_vars == old(self).env_vars,
    {
        let i = self.strings.len();
        self.strings.push(text);
        proof {
            assert(self.parts_fit(old(self).sizes()));
            lemma_parts_fit_grow(*self, old(self).sizes(), self.sizes());
        }
        Value::Str(i)
    }

    /// Whether two stored strings have the same text.
    fn strings_equal(&self, a: usize, b: usize) -> (r: bool)
        ensures
            r == (string_at(self.strings@, a) == string_at(self.strings@, b)),
    {
        let empty: Vec<char> = Vec::new();
        let x = if a < self.strings.len() {
            &self.strings[a]
        } else {
            &empty
        };
        let y = if b < self.strings.len() {
            &self.strings[b]
        } else {
            &empty
        };
        let r = chars_eq(x, y);
        proof {
            if a >= self.strings@.len() {
                assert(x@ =~= Seq::<char>::empty());
            }
            if b >= self.strings@.len() {
                assert(y@ =~= Seq::<char>::empty());
            }
        }
        r
    }
}


/// The error a binary operator gives on two operands, if it gives one.
pub open spec fn binary_error(op: TokenType, a: Value, b: Value) -> Option<Seq<char>> {
    let numbers = a is Number && b is Number;
    let strings = a is Str && b is Str;
    match op {
        TokenType::Plus => if numbers || strings {
            None
        } else {
            Some("Operands must be two numbers or two strings"@)
        },
        TokenType::Minus => if numbers {
            None
        } else {
            Some("Operands must be two numbers or two strings"@)
        },
        TokenType::Slash => if numbers {
            None
        } else {
            Some("Operands must be numbers"@)
        },
        TokenType::Star | TokenType::Greater | TokenType::GreaterEqual | TokenType::Less
        | TokenType::LessEqual => if numbers {
            None
        } else {
            Some("Unrecognized binary expression"@)
        },
        TokenType::EqualEqual | TokenType::BangEqual => None,
        _ => Some("Unrecognized binary expression"@),
    }
}

/// The boolean a comparison or equality operator gives, for the operators
/// that give one. Equality holds between two numbers that are equal as
/// IEEE values, two equal booleans and two strings with the same text;
/// `==` and `!=` are both false between values of any other kinds.
pub open spec fn comparison_result(op: TokenType, a: Value, b: Value, strings: Seq<Vec<char>>) -> Option<
    bool,
> {
    match (op, a, b) {
        (TokenType::Greater, Value::Number(x), Value::Number(y)) => Some(spec_num_lt(y, x)),
        (TokenType::GreaterEqual, Value::Number(x), Value::Number(y)) => Some(
            spec_num_lt(y, x) || spec_num_eq(y, x),
        ),
        (TokenType::Less, Value::Number(x), Value::Number(y)) => Some(spec_num_lt(x, y)),
        (TokenType::LessEqual, Value::Number(x), Value::Number(y)) => Some(
            spec_num_lt(x, y) || spec_num_eq(x, y),
        ),
        (TokenType::EqualEqual, Value::Number(x), Value::Number(y)) => Some(spec_num_eq(x, y)),
        (TokenType::BangEqual, Value::Number(x), Value::Number(y)) => Some(!spec_num_eq(x, y)),
        (TokenType::EqualEqual, Value::Boolean(x), Value::Boolean(y)) => Some(x == y),
        (TokenType::BangEqual, Value::Boolean(x), Value::Boolean(y)) => Some(x != y),
        (TokenType::EqualEqual, Value::Str(x), Value::Str(y)) => Some(
            string_at(strings, x) == string_at(strings, y),
        ),
        (TokenType::BangEqual, Value::Str(x), Value::Str(y)) => Some(
            string_at(strings, x) != string_at(strings, y),
        ),
        (TokenType::EqualEqual, _, _) => Some(false),
        (TokenType::BangEqual, _, _) => Some(false),
        _ => None,
    }
}

/// The number an arithmetic operator gives on two numbers, for the
/// operators that give one: IEEE sum, difference, product and quotient.
pub open spec fn arithmetic_result(op: TokenType, x: u64, y: u64) -> Option<u64> {
    match op {
        TokenType::Plus => Some(spec_num_add(x, y)),
        TokenType::Minus => Some(spec_num_add(x, spec_num_neg(y))),
        TokenType::Star => Some(spec_num_mul(x, y)),
        TokenType::Slash => Some(spec_num_div(x, y)),
        _ => None,
    }
}

/// What a binary operator gives on two operands when it changes nothing:
/// its value, or the message and line of its error. `None` for a `+` that
/// joins two strings, which adds to the string store.
pub open spec fn binary_outcome(op: Token, a: Value, b: Value, strings: Seq<Vec<char>>) -> Option<
    Result<Value, (Seq<char>, usize)>,
> {
    match binary_error(op.token_type, a, b) {
        Some(m) => Some(Err((m, op.line))),
        None => match comparison_result(op.token_type, a, b, strings) {
            Some(x) => Some(Ok(Value::Boolean(x))),
            None => match (a, b) {
                (Value::Number(x), Value::Number(y)) => match arithmetic_result(
                    op.token_type,
                    x,
                    y,
                ) {
                    Some(z) => Some(Ok(Value::Number(z))),
                    None => None,
                },
                _ => None,
            },
        },
    }
}

/// How deeply the expressions of a statement nest, its `if` branches
/// counting one level each.
pub open spec fn statement_nesting(s: Statement) -> nat
    decreases s,
{
    match s {
        Statement::Print(e) => nesting(e),
        Statement::Expression(e) => nesting(e),
        Statement::Variable(_, Some(e)) => nesting(e),
        Statement::While(c, b) => {
            let a = nesting(c);
            let x = 1 + statement_nesting(*b);
            if a >= x {
                a
            } else {
                x
            }
        },
        Statement::Block(ss) => 2 + stmts_nesting(ss@),
        Statement::Return(_, Some(e)) => nesting(e),
        Statement::If(c, t, e) => {
            let a = nesting(c);
            let b = 1 + statement_nesting(*t);
            let x = match e {
                Some(y) => 1 + statement_nesting(*y),
                None => 0,
            };
            if a >= b && a >= x {
                a
            } else if b >= x {
                b
            } else {
                x
            }
        },
        _ => 0,
    }
}

/// The deepest nesting among a list of statements.
pub open spec fn stmts_nesting(ss: Seq<Statement>) -> nat
    decreases ss,
{
    if ss.len() == 0 {
        0
    } else {
        let a = stmts_nesting(ss.drop_last());
        let b = statement_nesting(ss.last());
        if a >= b {
            a
        } else {
            b
        }
    }
}

/// How deeply the operators of an expression nest.
pub open spec fn nesting(e: Expr) -> nat
    decreases e,
{
    match e {
        Expr::Grouping(inner) => 1 + nesting(*inner),
        Expr::Unary(_, inner) => 1 + nesting(*inner),
        Expr::Binary(_, left, right) => 1 + if nesting(*left) > nesting(*right) {
            nesting(*left)
        } else {
            nesting(*right)
        },
        Expr::Logical(_, left, right) => 1 + if nesting(*left) > nesting(*right) {
            nesting(*left)
        } else {
            nesting(*right)
        },
        Expr::Assignment(_, _, value) => 1 + nesting(*value),
        Expr::Get(object, _) => 1 + nesting(*object),
        Expr::SetProperty(object, _, value) => 1 + if nesting(*object) > nesting(*value) {
            nesting(*object)
        } else {
            nesting(*value)
        },
        Expr::Call(callee, _, arguments) => 2 + if nesting(*callee) > exprs_nesting(arguments@) {
            nesting(*callee)
        } else {
            exprs_nesting(arguments@)
        },
        _ => 0,
    }
}

/// The deepest nesting among a list of expressions.
pub open spec fn exprs_nesting(es: Seq<Expr>) -> nat
    decreases es,
{
    if es.len() == 0 {
        0
    } else {
        let a = exprs_nesting(es.drop_last());
        let b = nesting(es.last());
        if a >= b {
            a
        } else {
            b
        }
    }
}

/// The distance the resolver found for expression `id`, if any.
pub open spec fn resolved(table: Seq<Option<usize>>, id: usize) -> Option<usize> {
    if id < table.len() {
        table[id as int]
    } else {
        None
    }
}

/// The value a variable has: at the distance the resolver found, when it
/// found one and the variable is there, and otherwise in the global scope.
pub open spec fn variable_value(s: Interpreter, id: usize, name: Seq<char>, env: Environment) -> Option<
    Value,
> {
    match (match resolved(s.resolve_table@, id) {
        Some(d) => lookup_at(s.envs.view(), env.index as int, name, d as nat),
        None => None,
    }) {
        Some(v) => Some(v),
        None => lookup(s.envs.view(), s.global.index as int, name),
    }
}

/// What evaluating an expression that changes nothing gives in state `s`
/// and scope `env`: its value, or the message and line of the error it
/// stops at. `None` for an expression that may change the state: a string
/// literal, an assignment, a call, a function, a property, `super`, or a
/// `+` that joins two strings.
pub open spec fn pure_outcome(s: Interpreter, env: Environment, e: Expr) -> Option<
    Result<Value, (Seq<char>, usize)>,
>
    decreases e,
{
    match e {
        Expr::Literal(token) => match token.token_type {
            TokenType::True => Some(Ok(Value::Boolean(true))),
            TokenType::False => Some(Ok(Value::Boolean(false))),
            TokenType::Nil => Some(Ok(Value::Nil)),
            _ => match token.literal {
                Some(Literal::Digit(n)) => Some(Ok(Value::Number(n))),
                Some(Literal::String(_)) => None,
                None => Some(Err(("token should have a literal"@, token.line))),
            },
        },
        Expr::Grouping(inner) => pure_outcome(s, env, *inner),
        Expr::Unary(token, inner) => if token.token_type == TokenType::Minus {
            match pure_outcome(s, env, *inner) {
                Some(Ok(Value::Number(n))) => Some(Ok(Value::Number(spec_num_neg(n)))),
                Some(Ok(_)) => Some(Err(("Operand must be a number"@, token.line))),
                other => other,
            }
        } else if token.token_type == TokenType::Bang {
            match pure_outcome(s, env, *inner) {
                Some(Ok(v)) => Some(Ok(Value::Boolean(!spec_truthy(v)))),
                other => other,
            }
        } else {
            Some(Err(("Unrecognized unary expression"@, token.line)))
        },
        Expr::Binary(token, left, right) => match pure_outcome(s, env, *left) {
            Some(Ok(a)) => match pure_outcome(s, env, *right) {
                Some(Ok(b)) => binary_outcome(token, a, b, s.strings@),
                other => other,
            },
            other => other,
        },
        Expr::Logical(token, left, right) => if token.token_type == TokenType::And
            || token.token_type == TokenType::Or {
            match pure_outcome(s, env, *left) {
                Some(Ok(l)) => if (token.token_type == TokenType::Or && spec_truthy(l)) || (
                token.token_type == TokenType::And && !spec_truthy(l)) {
                    Some(Ok(l))
                } else {
                    pure_outcome(s, env, *right)
                },
                other => other,
            }
        } else {
            Some(Err(("Logical operator should be 'or' or 'and'"@, token.line)))
        },
        Expr::Variable(id, token) => match variable_value(s, id, token.lexeme@, env) {
            Some(v) => Some(Ok(v)),
            None => Some(Err(("Undefined variable in scope: '"@ + token.lexeme@ + "'"@, token.line))),
        },
        Expr::This(id, token) => match variable_value(s, id, token.lexeme@, env) {
            Some(v) => Some(Ok(v)),
            None => Some(Err(("Undefined variable in scope: '"@ + token.lexeme@ + "'"@, token.line))),
        },
        _ => None,
    }
}

/// What evaluating `name = value` does when `value` changes nothing: with
/// the value `v`, the nearest visible definition of the name becomes `v`
/// and `v` is the result, or, when no definition is visible, it stops at
/// the undefined-variable error; it stops at the error of `value`
/// otherwise. Nothing but the scopes changes.
pub open spec fn assignment_done(
    before: Interpreter,
    after: Interpreter,
    env: Environment,
    name: Token,
    outcome: Result<Value, (Seq<char>, usize)>,
    r: Result<Value, InterpreterError>,
) -> bool {
    &&& after.output@ == before.output@
    &&& after.strings == before.strings
    &&& after.functions == before.functions
    &&& after.classes == before.classes
    &&& after.instances == before.instances
    &&& match outcome {
        Ok(v) => if owner(before.envs.view(), env.index as int, name.lexeme@) >= 0 {
            r == Ok::<Value, InterpreterError>(v) && after.envs.view() == assigned(
                before.envs.view(),
                env.index as int,
                name.lexeme@,
                v,
            )
        } else {
            r matches Err(InterpreterError::InterpreterError(em)) && em.message@
                == "Undefined variable '"@ + name.lexeme@ + "'"@ && em.line == Some(name.line)
                && after.envs.view() == before.envs.view()
        },
        Err((m, line)) => r matches Err(InterpreterError::InterpreterError(em)) && em.message@
            == m && em.line == Some(line) && after.envs.view() == before.envs.view(),
    }
}

/// A read after a write: once `name = value` has given `v` in scope `env`,
/// looking the name up from `env` gives `v`.
pub proof fn lemma_read_after_assignment(
    before: Interpreter,
    after: Interpreter,
    env: Environment,
    name: Token,
    v: Value,
    r: Result<Value, InterpreterError>,
)
    requires
        before.inv(),
        env.index < before.envs.view().len(),
        assignment_done(before, after, env, name, Ok(v), r),
        r is Ok,
    ensures
        lookup(after.envs.view(), env.index as int, name.lexeme@) == Some(v),
{
    lemma_get_after_assign(before.envs.view(), env.index as int, name.lexeme@, v);
}

/// A read after a declaration: once a variable statement has defined `name`
/// as `v` in scope `env`, looking the name up from `env` gives `v`.
pub proof fn lemma_read_after_definition(
    before: Interpreter,
    after: Interpreter,
    env: Environment,
    name: Seq<char>,
    v: Value,
)
    requires
        before.inv(),
        env.index < before.envs.view().len(),
        only_defined(before, after, env, name, v),
    ensures
        lookup(after.envs.view(), env.index as int, name) == Some(v),
{
    lemma_get_after_define(before.envs.view(), env.index as int, name, v);
}

/// The value of the field `name` among `fields`: that of the last entry
/// with that name.
pub open spec fn field_value(fields: Seq<(Vec<char>, Value)>, name: Seq<char>) -> Option<Value>
    decreases fields.len(),
{
    if fields.len() == 0 {
        None
    } else if fields.last().0@ == name {
        Some(fields.last().1)
    } else {
        field_value(fields.drop_last(), name)
    }
}

/// Entries after `i` that hold other names do not matter.
proof fn lemma_field_value_prefix(fields: Seq<(Vec<char>, Value)>, name: Seq<char>, i: int)
    requires
        0 <= i <= fields.len(),
        forall|j: int| i <= j < fields.len() ==> (#[trigger] fields[j]).0@ != name,
    ensures
        field_value(fields, name) == field_value(fields.subrange(0, i), name),
    decreases fields.len(),
{
    if fields.len() > i {
        assert(fields.drop_last() =~= fields.subrange(0, fields.len() - 1));
        lemma_field_value_prefix(fields.drop_last(), name, i);
        assert(fields.drop_last().subrange(0, i) =~= fields.subrange(0, i));
    } else {
        assert(fields.subrange(0, i) =~= fields);
    }
}

/// Replacing an entry by one with the same name changes no other field.
proof fn lemma_field_value_update(
    fields: Seq<(Vec<char>, Value)>,
    p: int,
    entry: (Vec<char>, Value),
    other: Seq<char>,
)
    requires
        0 <= p < fields.len(),
        entry.0@ == fields[p].0@,
        entry.0@ != other,
    ensures
        field_value(fields.update(p, entry), other) == field_value(fields, other),
    decreases fields.len(),
{
    let u = fields.update(p, entry);
    if p == fields.len() - 1 {
        assert(u.drop_last() =~= fields.drop_last());
    } else {
        assert(u.drop_last() =~= fields.drop_last().update(p, entry));
        lemma_field_value_update(fields.drop_last(), p, entry, other);
    }
}

/// What writing the field `name` of instance `k` as `v` does: the field
/// reads `v` afterwards, the other fields and instances are unchanged.
pub open spec fn field_written(a: Interpreter, b: Interpreter, k: int, name: Seq<char>, v: Value) -> bool {
    &&& b.instances@.len() == a.instances@.len()
    &&& forall|i: int| 0 <= i < b.instances@.len() && i != k ==> b.instances@[i] == a.instances@[i]
    &&& b.instances@[k].class == a.instances@[k].class
    &&& field_value(b.instances@[k].fields@, name) == Some(v)
    &&& forall|other: Seq<char>|
        other != name ==> #[trigger] field_value(b.instances@[k].fields@, other) == field_value(
            a.instances@[k].fields@,
            other,
        )
}

/// A property read after a property write gives the value written.
pub proof fn lemma_property_read_after_write(a: Interpreter, b: Interpreter, k: int, name: Seq<char>, v: Value)
    requires
        field_written(a, b, k, name, v),
    ensures
        field_value(b.instances@[k].fields@, name) == Some(v),
{
}

/// What reading or writing a property does when the object (and the value
/// written) change nothing: on an instance, a read gives the field when it
/// has one, and a write sets the field and gives `nil`; on anything else
/// both stop at an error. Only the write changes the state.
pub open spec fn property_done(
    before: Interpreter,
    after: Interpreter,
    env: Environment,
    e: Expr,
    r: Result<Value, InterpreterError>,
) -> bool {
    match e {
        Expr::Get(object, name) => match pure_outcome(before, env, *object) {
            Some(Ok(Value::Instance(i))) => field_value(before.instances@[i as int].fields@, name.lexeme@)
                matches Some(v) ==> r == Ok::<Value, InterpreterError>(v) && after == before,
            Some(Ok(_)) => r matches Err(InterpreterError::InterpreterError(em)) && em.message@
                == "Only instances have properties"@ && em.line == Some(name.line) && after == before,
            _ => true,
        },
        Expr::SetProperty(object, name, value) => match (
            pure_outcome(before, env, *object),
            pure_outcome(before, env, *value),
        ) {
            (Some(Ok(Value::Instance(i))), Some(Ok(v))) => r == Ok::<Value, InterpreterError>(
                Value::Nil,
            ) && field_written(before, after, i as int, name.lexeme@, v) && after.output@
                == before.output@,
            (Some(Ok(_)), Some(Ok(_))) => r matches Err(InterpreterError::InterpreterError(em))
                && em.message@ == "Can only set properties on instances"@ && em.line == Some(
                name.line,
            ) && after == before,
            _ => true,
        },
        _ => true,
    }
}

/// The function of the method `name` in a method table: that of the last
/// entry with that name.
pub open spec fn table_method(methods: Seq<(Vec<char>, usize)>, name: Seq<char>) -> Option<usize>
    decreases methods.len(),
{
    if methods.len() == 0 {
        None
    } else if methods.last().0@ == name {
        Some(methods.last().1)
    } else {
        table_method(methods.drop_last(), name)
    }
}

/// The method `name` of class `c`: from its own table, else from its
/// superclass, and so on up the chain.
pub open spec fn method_of(classes: Seq<LoxClass>, c: int, name: Seq<char>) -> Option<usize>
    decreases c,
{
    if c < 0 || c >= classes.len() {
        None
    } else {
        match table_method(classes[c].methods@, name) {
            Some(f) => Some(f),
            None => match classes[c].super_class {
                Some(sc) => if (sc as int) < c {
                    method_of(classes, sc as int, name)
                } else {
                    None
                },
                None => None,
            },
        }
    }
}

/// Whether `r` is the runtime error with the message and line given.
pub open spec fn fails_with<T>(r: Result<T, InterpreterError>, m: Seq<char>, line: usize) -> bool {
    r matches Err(InterpreterError::InterpreterError(em)) && em.message@ == m && em.line == Some(line)
}

/// Whether `b` is `a` with only its string store changed.
pub open spec fn same_but_strings(a: Interpreter, b: Interpreter) -> bool {
    &&& b.parser == a.parser
    &&& b.envs == a.envs
    &&& b.global == a.global
    &&& b.functions == a.functions
    &&& b.classes == a.classes
    &&& b.instances == a.instances
    &&& b.resolve_table == a.resolve_table
    &&& b.output == a.output
    &&& b.has_parsing_errors == a.has_parsing_errors
    &&& b.env_vars == a.env_vars
}

/// Whether `b` is `a` with only its scopes changed.
pub open spec fn same_but_envs(a: Interpreter, b: Interpreter) -> bool {
    &&& b.parser == a.parser
    &&& b.strings == a.strings
    &&& b.global == a.global
    &&& b.functions == a.functions
    &&& b.classes == a.classes
    &&& b.instances == a.instances
    &&& b.resolve_table == a.resolve_table
    &&& b.output == a.output
    &&& b.has_parsing_errors == a.has_parsing_errors
    &&& b.env_vars == a.env_vars
}

/// Whether `b` is `a` with one more string, `text`, at the end of the
/// store.
pub open spec fn string_added(a: Interpreter, b: Interpreter, text: Seq<char>) -> bool {
    &&& b.strings@.len() == a.strings@.len() + 1
    &&& b.strings@.drop_last() == a.strings@
    &&& b.strings@.last()@ == text
    &&& same_but_strings(a, b)
}

/// What applying a binary operator to two values does: the outcome of
/// `binary_outcome`, changing nothing, or, for `+` on two strings, a new
/// string holding the two texts joined.
pub open spec fn binary_done(
    before: Interpreter,
    after: Interpreter,
    op: Token,
    a: Value,
    b: Value,
    r: Result<Value, InterpreterError>,
) -> bool {
    match binary_outcome(op, a, b, before.strings@) {
        Some(o) => gives(r, o) && after == before,
        None => (op.token_type == TokenType::Plus && a is Str && b is Str) ==> (r == Ok::<
            Value,
            InterpreterError,
        >(Value::Str(before.strings@.len() as usize)) && string_added(
            before,
            after,
            string_at(before.strings@, a->Str_0) + string_at(before.strings@, b->Str_0),
        )),
    }
}

/// What evaluating a literal does.
pub open spec fn literal_done(
    s: Interpreter,
    token: Token,
    t: Interpreter,
    r: Result<Value, InterpreterError>,
) -> bool {
    match token.token_type {
        TokenType::True => r == Ok::<Value, InterpreterError>(Value::Boolean(true)) && t == s,
        TokenType::False => r == Ok::<Value, InterpreterError>(Value::Boolean(false)) && t == s,
        TokenType::Nil => r == Ok::<Value, InterpreterError>(Value::Nil) && t == s,
        _ => match token.literal {
            Some(Literal::Digit(n)) => r == Ok::<Value, InterpreterError>(Value::Number(n)) && t
                == s,
            Some(Literal::String(text)) => r == Ok::<Value, InterpreterError>(
                Value::Str(s.strings@.len() as usize),
            ) && string_added(s, t, text@),
            None => fails_with(r, "token should have a literal"@, token.line) && t == s,
        },
    }
}

/// Always true: names a point partway through evaluating a list of
/// expressions (the values so far, the state and the result), so that the
/// quantifier introducing that point has a trigger.
pub open spec fn args_trigger(vs: Seq<Value>, s: Interpreter, r: Result<(), InterpreterError>) -> bool {
    true
}

/// Whether `r` is the error reported once the depth budget of a run is
/// spent.
pub open spec fn overflowed<T>(r: Result<T, InterpreterError>) -> bool {
    r matches Err(InterpreterError::RuntimeError(m)) && m.message@ == "Stack overflow"@ && m.line is None
}

/// Whether `r` is the error reported when no more scopes can be made.
pub open spec fn out_of_scopes<T>(r: Result<T, InterpreterError>) -> bool {
    r matches Err(InterpreterError::RuntimeError(m)) && m.message@ == "Out of memory"@ && m.line is None
}

/// Whether state `s` can make no more scopes.
pub open spec fn scopes_full(s: Interpreter) -> bool {
    s.envs.view().len() >= usize::MAX - 8
}

/// Whether `b` is `a` with one more scope, enclosed by `frame`, at the end.
pub open spec fn scope_added(a: Interpreter, b: Interpreter, frame: usize) -> bool {
    same_but_envs(a, b) && b.envs.view() == a.envs.view().push(fresh(Some(frame)))
}

/// Whether `b` keeps the parts of `a` that evaluation never changes but
/// through printing: the parser, the global scope, the resolution table,
/// the printed text and the environment variables.
pub open spec fn kept(a: Interpreter, b: Interpreter) -> bool {
    &&& b.parser == a.parser
    &&& b.global == a.global
    &&& b.resolve_table == a.resolve_table
    &&& b.output == a.output
    &&& b.has_parsing_errors == a.has_parsing_errors
    &&& b.env_vars == a.env_vars
}

/// The result `r` without its value.
pub open spec fn without_value(r: Result<Value, InterpreterError>) -> Result<(), InterpreterError> {
    match r {
        Ok(_) => Ok(()),
        Err(x) => Err(x),
    }
}

/// Whether `b` is `a` with one more function at the end of the store: the
/// Lox function of the expression `fun name(params) { body }` (named
/// `__<fun_anon>` without a name), closing over `env`.
pub open spec fn function_added(
    a: Interpreter,
    b: Interpreter,
    name: Option<Token>,
    function: Rc<Function>,
    env: Environment,
) -> bool {
    let fo = b.functions@.last();
    &&& b.functions@.len() == a.functions@.len() + 1
    &&& b.functions@.drop_last() == a.functions@
    &&& fo.kind == FunctionKind::Lox
    &&& fo.name@ == match name {
        Some(tk) => tk.lexeme@,
        None => "__<fun_anon>"@,
    }
    &&& fo.parameters@.len() == function.parameters@.len()
    &&& forall|i: int|
        0 <= i < fo.parameters@.len() ==> (#[trigger] fo.parameters@[i])@
            == function.parameters@[i].lexeme@
    &&& fo.body == Some(function)
    &&& fo.closure == env.index
    &&& kept(a, b)
    &&& b.envs == a.envs
    &&& b.strings == a.strings
    &&& b.classes == a.classes
    &&& b.instances == a.instances
}

/// Whether `b` is `a` with one more instance, of class `c` and without
/// fields, at the end of the store.
pub open spec fn instance_added(a: Interpreter, b: Interpreter, c: usize) -> bool {
    &&& b.instances@.len() == a.instances@.len() + 1
    &&& b.instances@.drop_last() == a.instances@
    &&& b.instances@.last().class == c
    &&& b.instances@.last().fields@.len() == 0
    &&& kept(a, b)
    &&& b.envs == a.envs
    &&& b.strings == a.strings
    &&& b.functions == a.functions
    &&& b.classes == a.classes
}

/// Whether `b` is `a` with one more class at the end of the store: its
/// name, its methods (name and function, in order) and its superclass.
pub open spec fn class_added(
    a: Interpreter,
    b: Interpreter,
    name: Seq<char>,
    table: Seq<(Seq<char>, usize)>,
    sup: Option<usize>,
) -> bool {
    let c = b.classes@.last();
    &&& b.classes@.len() == a.classes@.len() + 1
    &&& b.classes@.drop_last() == a.classes@
    &&& c.name@ == name
    &&& c.methods@.len() == table.len()
    &&& forall|j: int|
        0 <= j < table.len() ==> (#[trigger] c.methods@[j]).0@ == table[j].0 && c.methods@[j].1
            == table[j].1
    &&& c.super_class == sup
    &&& kept(a, b)
    &&& b.envs == a.envs
    &&& b.strings == a.strings
    &&& b.functions == a.functions
    &&& b.instances == a.instances
}

/// What binding method `f` to instance `inst` does: a built-in function
/// is left as it is; a Lox function gets, as its closure, a new scope
/// around its old closure in which `this` is the instance. Fails, changing
/// nothing, when no more scopes can be made.
pub open spec fn bind_done(
    s: Interpreter,
    f: usize,
    inst: usize,
    t: Interpreter,
    r: Result<(), InterpreterError>,
) -> bool {
    let fo = s.functions@[f as int];
    let k = s.envs.view().len();
    if fo.kind != FunctionKind::Lox {
        r is Ok && t == s
    } else if scopes_full(s) {
        out_of_scopes(r) && t == s
    } else {
        &&& r is Ok
        &&& t.envs.view() == defined(
            s.envs.view().push(fresh(Some(fo.closure))),
            k as int,
            "this"@,
            Value::Instance(inst),
        )
        &&& t.functions@.len() == s.functions@.len()
        &&& forall|i: int|
            0 <= i < s.functions@.len() && i != f ==> #[trigger] t.functions@[i] == s.functions@[i]
        &&& t.functions@[f as int].closure == k
        &&& t.functions@[f as int].kind == fo.kind
        &&& t.functions@[f as int].name == fo.name
        &&& t.functions@[f as int].parameters == fo.parameters
        &&& t.functions@[f as int].body == fo.body
        &&& kept(s, t)
        &&& t.strings == s.strings
        &&& t.classes == s.classes
        &&& t.instances == s.instances
    }
}

/// How evaluating a list of expressions from the left, each with depth
/// budget `d`, goes: the values `vs` of those evaluated, the state `t`,
/// and the first error if any.
pub open spec fn evaluates_all(
    s: Interpreter,
    env: Environment,
    es: Seq<Expr>,
    d: nat,
    vs: Seq<Value>,
    t: Interpreter,
    r: Result<(), InterpreterError>,
) -> bool
    decreases d, 1nat, es.len(),
{
    if es.len() == 0 {
        vs.len() == 0 && r == Ok::<(), InterpreterError>(()) && t == s
    } else {
        exists|vs1: Seq<Value>, s1: Interpreter, r1: Result<(), InterpreterError>|
            #[trigger] args_trigger(vs1, s1, r1) && evaluates_all(s, env, es.drop_last(), d, vs1, s1, r1)
                && match r1 {
                Err(x) => r == Err::<(), InterpreterError>(x) && t == s1 && vs == vs1,
                Ok(_) => exists|s2: Interpreter, r2: Result<Value, InterpreterError>|
                    #[trigger] step_trigger(s2, r2) && evaluates(s1, env, es.last(), d, s2, r2) && t == s2
                        && match r2 {
                        Err(x) => r == Err::<(), InterpreterError>(x) && vs == vs1,
                        Ok(v) => r == Ok::<(), InterpreterError>(()) && vs == vs1.push(v),
                    },
            }
    }
}

/// Once the first expressions of a list have failed, later ones do not
/// matter.
proof fn lemma_args_stop(
    s: Interpreter,
    env: Environment,
    es: Seq<Expr>,
    d: nat,
    i: int,
    vs: Seq<Value>,
    t: Interpreter,
    r: Result<(), InterpreterError>,
)
    requires
        0 <= i <= es.len(),
        evaluates_all(s, env, es.subrange(0, i), d, vs, t, r),
        r is Err,
    ensures
        evaluates_all(s, env, es, d, vs, t, r),
    decreases es.len() - i,
{
    if i == es.len() {
        assert(es.subrange(0, i) =~= es);
    } else {
        assert(es.drop_last().subrange(0, i) =~= es.subrange(0, i));
        lemma_args_stop(s, env, es.drop_last(), d, i, vs, t, r);
        assert(args_trigger(vs, t, r));
    }
}

/// Always true: names a state and result reached partway through an
/// evaluation, so that the quantifier introducing them has a trigger.
pub open spec fn step_trigger(s: Interpreter, r: Result<Value, InterpreterError>) -> bool {
    true
}

/// Always true: names a state and result reached partway through binding
/// a method, so that the quantifier introducing them has a trigger.
pub open spec fn bind_trigger(s: Interpreter, r: Result<(), InterpreterError>) -> bool {
    true
}

/// How evaluating expression `e` in scope `env` with depth budget `d`
/// takes state `s` to state `t` with result `r`. With no budget left the
/// evaluation fails with a stack overflow; otherwise each operand is
/// evaluated with one less: operands from left to right, each error
/// stopping the evaluation, `and`/`or` skipping their right operand when
/// the left decides; a call evaluates its callee, then its arguments from
/// the left, then does what `call_runs` says; a function expression makes
/// a new function closing over `env`; `super` finds the method in the
/// superclass and binds it to `this`.
pub open spec fn evaluates(
    s: Interpreter,
    env: Environment,
    e: Expr,
    d: nat,
    t: Interpreter,
    r: Result<Value, InterpreterError>,
) -> bool
    decreases d, 0nat, 0nat,
{
    if d == 0 {
        overflowed(r) && t == s
    } else {
        let d1 = (d - 1) as nat;
        match e {
            Expr::Literal(token) => literal_done(s, token, t, r),
            Expr::Grouping(inner) => evaluates(s, env, *inner, d1, t, r),
            Expr::Unary(token, inner) => if token.token_type == TokenType::Minus
                || token.token_type == TokenType::Bang {
                exists|s1: Interpreter, r1: Result<Value, InterpreterError>|
                    #[trigger] step_trigger(s1, r1) && evaluates(s, env, *inner, d1, s1, r1) && t == s1
                        && match r1 {
                        Err(x) => r == Err::<Value, InterpreterError>(x),
                        Ok(v) => if token.token_type == TokenType::Minus {
                            match v {
                                Value::Number(n) => r == Ok::<Value, InterpreterError>(
                                    Value::Number(spec_num_neg(n)),
                                ),
                                _ => fails_with(r, "Operand must be a number"@, token.line),
                            }
                        } else {
                            r == Ok::<Value, InterpreterError>(Value::Boolean(!spec_truthy(v)))
                        },
                    }
            } else {
                fails_with(r, "Unrecognized unary expression"@, token.line) && t == s
            },
            Expr::Binary(token, left, right) => exists|s1: Interpreter, r1: Result<Value, InterpreterError>|
                #[trigger] step_trigger(s1, r1) && evaluates(s, env, *left, d1, s1, r1) && match r1 {
                    Err(x) => r == Err::<Value, InterpreterError>(x) && t == s1,
                    Ok(a) => exists|s2: Interpreter, r2: Result<Value, InterpreterError>|
                        #[trigger] step_trigger(s2, r2) && evaluates(s1, env, *right, d1, s2, r2) && match r2 {
                            Err(x) => r == Err::<Value, InterpreterError>(x) && t == s2,
                            Ok(b) => binary_done(s2, t, token, a, b, r),
                        },
                },
            Expr::Logical(token, left, right) => if token.token_type == TokenType::And
                || token.token_type == TokenType::Or {
                exists|s1: Interpreter, r1: Result<Value, InterpreterError>|
                    #[trigger] step_trigger(s1, r1) && evaluates(s, env, *left, d1, s1, r1) && match r1 {
                        Err(x) => r == Err::<Value, InterpreterError>(x) && t == s1,
                        Ok(l) => if (token.token_type == TokenType::Or && spec_truthy(l)) || (
                        token.token_type == TokenType::And && !spec_truthy(l)) {
                            r == Ok::<Value, InterpreterError>(l) && t == s1
                        } else {
                            evaluates(s1, env, *right, d1, t, r)
                        },
                    }
            } else {
                fails_with(r, "Logical operator should be 'or' or 'and'"@, token.line) && t == s
            },
            Expr::Variable(id, token) => t == s && match variable_value(s, id, token.lexeme@, env) {
                Some(v) => r == Ok::<Value, InterpreterError>(v),
                None => fails_with(
                    r,
                    "Undefined variable in scope: '"@ + token.lexeme@ + "'"@,
                    token.line,
                ),
            },
            Expr::This(id, token) => t == s && match variable_value(s, id, token.lexeme@, env) {
                Some(v) => r == Ok::<Value, InterpreterError>(v),
                None => fails_with(
                    r,
                    "Undefined variable in scope: '"@ + token.lexeme@ + "'"@,
                    token.line,
                ),
            },
            Expr::Assignment(_, name, value) => exists|s1: Interpreter, r1: Result<Value, InterpreterError>|
                #[trigger] step_trigger(s1, r1) && evaluates(s, env, *value, d1, s1, r1) && match r1 {
                    Err(x) => r == Err::<Value, InterpreterError>(x) && t == s1,
                    Ok(v) => assignment_done(s1, t, env, name, Ok(v), r),
                },
            Expr::Get(object, name) => exists|s1: Interpreter, r1: Result<Value, InterpreterError>|
                #[trigger] step_trigger(s1, r1) && evaluates(s, env, *object, d1, s1, r1) && match r1 {
                    Err(x) => r == Err::<Value, InterpreterError>(x) && t == s1,
                    Ok(Value::Instance(i)) => match field_value(
                        s1.instances@[i as int].fields@,
                        name.lexeme@,
                    ) {
                        Some(v) => r == Ok::<Value, InterpreterError>(v) && t == s1,
                        None => match method_of(
                            s1.classes@,
                            s1.instances@[i as int].class as int,
                            name.lexeme@,
                        ) {
                            Some(f) => bind_done(s1, f, i, t, without_value(r)) && (r is Ok ==> r
                                == Ok::<Value, InterpreterError>(Value::Function(f))),
                            None => r == Ok::<Value, InterpreterError>(Value::Nil) && t == s1,
                        },
                    },
                    Ok(_) => fails_with(r, "Only instances have properties"@, name.line) && t == s1,
                },
            Expr::Call(callee, paren, arguments) => exists|s1: Interpreter, r1: Result<Value, InterpreterError>|
                #[trigger] step_trigger(s1, r1) && evaluates(s, env, *callee, d1, s1, r1) && match r1 {
                    Err(x) => r == Err::<Value, InterpreterError>(x) && t == s1,
                    Ok(f) => exists|vs: Seq<Value>, s2: Interpreter, r2: Result<(), InterpreterError>|
                        #[trigger] args_trigger(vs, s2, r2) && evaluates_all(
                            s1,
                            env,
                            arguments@,
                            d1,
                            vs,
                            s2,
                            r2,
                        ) && match r2 {
                            Err(x) => r == Err::<Value, InterpreterError>(x) && t == s2,
                            Ok(_) => call_runs(s2, f, vs, paren.line, d1, t, r),
                        },
                },
            Expr::SetProperty(object, name, value) => exists|
                s1: Interpreter,
                r1: Result<Value, InterpreterError>,
            |
                #[trigger] step_trigger(s1, r1) && evaluates(s, env, *object, d1, s1, r1) && match r1 {
                    Err(x) => r == Err::<Value, InterpreterError>(x) && t == s1,
                    Ok(o) => exists|s2: Interpreter, r2: Result<Value, InterpreterError>|
                        #[trigger] step_trigger(s2, r2) && evaluates(s1, env, *value, d1, s2, r2) && match r2 {
                            Err(x) => r == Err::<Value, InterpreterError>(x) && t == s2,
                            Ok(v) => match o {
                                Value::Instance(i) => r == Ok::<Value, InterpreterError>(Value::Nil)
                                    && field_written(s2, t, i as int, name.lexeme@, v) && t.output
                                    == s2.output && t.envs == s2.envs && t.strings == s2.strings
                                    && t.resolve_table == s2.resolve_table,
                                _ => fails_with(r, "Can only set properties on instances"@, name.line)
                                    && t == s2,
                            },
                        },
                },
            Expr::Function(name, function) => r == Ok::<Value, InterpreterError>(
                Value::Function(s.functions@.len() as usize),
            ) && function_added(s, t, name, function, env),
            Expr::Super(id, _, method) => super_done(s, env, id, method, t, r),
        }
    }
}

/// What `super.method` does: at the distance the resolver found (which
/// must be more than zero), `super` must be a class and `this`, one scope
/// nearer, an instance; the method found in that class is bound to the
/// instance and is the result.
pub open spec fn super_done(
    s: Interpreter,
    env: Environment,
    id: usize,
    method: Token,
    t: Interpreter,
    r: Result<Value, InterpreterError>,
) -> bool {
    let missing = fails_with(
        r,
        "Undefined 'super' or '"@ + method.lexeme@ + "' in scope"@,
        method.line,
    ) && t == s;
    match resolved(s.resolve_table@, id) {
        None => missing,
        Some(dist) => if dist == 0 {
            missing
        } else {
            match lookup_at(s.envs.view(), env.index as int, "super"@, dist as nat) {
                Some(Value::Class(c)) => match lookup_at(
                    s.envs.view(),
                    env.index as int,
                    "this"@,
                    (dist - 1) as nat,
                ) {
                    Some(this) => match (method_of(s.classes@, c as int, method.lexeme@), this) {
                        (Some(f), Value::Instance(i)) => bind_done(s, f, i, t, without_value(r)) && (
                        r is Ok ==> r == Ok::<Value, InterpreterError>(Value::Function(f))),
                        _ => fails_with(
                            r,
                            "Method '"@ + method.lexeme@ + "' not found on the super class"@,
                            method.line,
                        ) && t == s,
                    },
                    None => missing,
                },
                _ => missing,
            }
        },
    }
}

/// How calling `callee` with the values `args` at line `line`, with depth
/// budget `d`, goes. A function called with the wrong number of arguments
/// reports both numbers; otherwise its body runs as `function_runs` says,
/// and the call gives the value of its `return`, or `nil`. A class makes a
/// new instance; when the class or a superclass has an `init` method, it
/// is bound to the instance and run with the arguments; the call gives the
/// instance. Anything else cannot be called. Nothing changes on a refusal.
pub open spec fn call_runs(
    s: Interpreter,
    callee: Value,
    args: Seq<Value>,
    line: usize,
    d: nat,
    t: Interpreter,
    r: Result<Value, InterpreterError>,
) -> bool
    decreases d, 0nat, 0nat,
{
    if d == 0 {
        overflowed(r) && t == s
    } else {
        let d1 = (d - 1) as nat;
        match callee {
            Value::Function(f) => if args.len() != spec_arity(s.functions@[f as int]) {
                r matches Err(InterpreterError::InterpreterError(em)) && em.line == Some(line) && t
                    == s && exists|txt: Seq<char>|
                    #[trigger] s.shows(callee, txt) && em.message@ == "Expected "@ + decimal(
                        spec_arity(s.functions@[f as int]),
                    ) + " arguments for function '"@ + txt + "' but got "@ + decimal(args.len())
            } else {
                exists|t1: Interpreter, r1: Result<StatementResult, InterpreterError>|
                    #[trigger] run_trigger(t1, r1) && function_runs(s, f, args, line, d1, t1, r1) && t == t1
                        && match r1 {
                        Ok(StatementResult::Return(v)) => r == Ok::<Value, InterpreterError>(v),
                        Ok(StatementResult::Empty) => r == Ok::<Value, InterpreterError>(Value::Nil),
                        Err(x) => r == Err::<Value, InterpreterError>(x),
                    }
            },
            Value::Class(c) => {
                let inst = s.instances@.len() as usize;
                exists|s1: Interpreter|
                    #[trigger] state_trigger(s1) && instance_added(s, s1, c) && match method_of(
                        s.classes@,
                        c as int,
                        "init"@,
                    ) {
                        None => r == Ok::<Value, InterpreterError>(Value::Instance(inst)) && t == s1,
                        Some(init) => exists|s2: Interpreter, rb: Result<(), InterpreterError>|
                            #[trigger] bind_trigger(s2, rb) && bind_done(s1, init, inst, s2, rb) && match rb {
                                Err(x) => r == Err::<Value, InterpreterError>(x) && t == s2,
                                Ok(_) => exists|
                                    t1: Interpreter,
                                    r1: Result<StatementResult, InterpreterError>,
                                |
                                    #[trigger] run_trigger(t1, r1) && function_runs(s2, init, args, line, d1, t1, r1)
                                        && t == t1 && match r1 {
                                        Err(x) => r == Err::<Value, InterpreterError>(x),
                                        Ok(_) => r == Ok::<Value, InterpreterError>(
                                            Value::Instance(inst),
                                        ),
                                    },
                            },
                    }
            },
            _ => fails_with(r, "Can only call functions, instances and methods"@, line) && t == s,
        }
    }
}

/// Always true: names a state and result reached partway through an
/// execution, so that the quantifier introducing them has a trigger.
pub open spec fn run_trigger(s: Interpreter, r: Result<StatementResult, InterpreterError>) -> bool {
    true
}

/// Always true: names a state that a step makes (a new scope, instance or
/// definition), so that the quantifier introducing it has a trigger.
pub open spec fn state_trigger(s: Interpreter) -> bool {
    true
}

/// Always true: names the methods made so far, a state and a result
/// partway through a class declaration, so that the quantifier introducing
/// them has a trigger.
pub open spec fn methods_trigger(
    table: Seq<(Seq<char>, usize)>,
    s: Interpreter,
    r: Result<(), InterpreterError>,
) -> bool {
    true
}

/// How executing statement `st` in scope `env` with depth budget `d`
/// takes state `s` to state `t` with result `r`. With no budget left it
/// fails with a stack overflow; otherwise its parts run with one less: a
/// `print` adds the value's text and a newline; a variable statement
/// defines the name in the scope; a block runs its statements in order in
/// a new scope enclosed by `env`, up to the first that does not finish
/// normally; an `if` runs the branch its condition selects; a `while` runs
/// its body while its condition holds, stopping at a `return` or an
/// error; a `return` finishes with its value; a class declaration does
/// what `class_runs` says.
pub open spec fn executes(
    s: Interpreter,
    env: Environment,
    st: Statement,
    d: nat,
    t: Interpreter,
    r: Result<StatementResult, InterpreterError>,
) -> bool
    decreases d, 0nat, 0nat,
{
    if d == 0 {
        overflowed(r) && t == s
    } else {
        let d1 = (d - 1) as nat;
        match st {
            Statement::Print(e) => exists|s1: Interpreter, r1: Result<Value, InterpreterError>|
                #[trigger] step_trigger(s1, r1) && evaluates(s, env, e, d1, s1, r1) && match r1 {
                    Err(x) => r == Err::<StatementResult, InterpreterError>(x) && t == s1,
                    Ok(v) => r == Ok::<StatementResult, InterpreterError>(StatementResult::Empty)
                        && only_printed(s1, t) && exists|text: Seq<char>|
                        #[trigger] s1.shows(v, text) && t.output@ == s1.output@ + text + seq!['\n'],
                },
            Statement::Expression(e) => exists|s1: Interpreter, r1: Result<Value, InterpreterError>|
                #[trigger] step_trigger(s1, r1) && evaluates(s, env, e, d1, s1, r1) && t == s1 && match r1 {
                    Err(x) => r == Err::<StatementResult, InterpreterError>(x),
                    Ok(_) => r == Ok::<StatementResult, InterpreterError>(StatementResult::Empty),
                },
            Statement::Variable(token, initializer) => match initializer {
                None => r == Ok::<StatementResult, InterpreterError>(StatementResult::Empty)
                    && only_defined(s, t, env, token.lexeme@, Value::Nil),
                Some(e) => exists|s1: Interpreter, r1: Result<Value, InterpreterError>|
                    #[trigger] step_trigger(s1, r1) && evaluates(s, env, e, d1, s1, r1) && match r1 {
                        Err(x) => r == Err::<StatementResult, InterpreterError>(x) && t == s1,
                        Ok(v) => r == Ok::<StatementResult, InterpreterError>(StatementResult::Empty)
                            && only_defined(s1, t, env, token.lexeme@, v),
                    },
            },
            Statement::Block(ss) => if scopes_full(s) {
                out_of_scopes(r) && t == s
            } else {
                exists|s1: Interpreter|
                    #[trigger] state_trigger(s1) && scope_added(s, s1, env.index) && block_runs(
                        s1,
                        Environment { index: s.envs.view().len() as usize },
                        ss@,
                        d1,
                        t,
                        r,
                    )
            },
            Statement::If(c, then_branch, else_branch) => exists|
                s1: Interpreter,
                r1: Result<Value, InterpreterError>,
            |
                #[trigger] step_trigger(s1, r1) && evaluates(s, env, c, d1, s1, r1) && match r1 {
                    Err(x) => r == Err::<StatementResult, InterpreterError>(x) && t == s1,
                    Ok(v) => if spec_truthy(v) {
                        executes(s1, env, *then_branch, d1, t, r)
                    } else {
                        match else_branch {
                            Some(x) => executes(s1, env, *x, d1, t, r),
                            None => r == Ok::<StatementResult, InterpreterError>(
                                StatementResult::Empty,
                            ) && t == s1,
                        }
                    },
                },
            Statement::While(c, body) => while_runs(s, env, c, *body, d1, u64::MAX as nat, t, r),
            Statement::Return(_, value) => match value {
                None => r == Ok::<StatementResult, InterpreterError>(
                    StatementResult::Return(Value::Nil),
                ) && t == s,
                Some(e) => exists|s1: Interpreter, r1: Result<Value, InterpreterError>|
                    #[trigger] step_trigger(s1, r1) && evaluates(s, env, e, d1, s1, r1) && t == s1
                        && match r1 {
                        Err(x) => r == Err::<StatementResult, InterpreterError>(x),
                        Ok(v) => r == Ok::<StatementResult, InterpreterError>(
                            StatementResult::Return(v),
                        ),
                    },
            },
            Statement::Class(name, methods, superclass) => class_runs(
                s,
                env,
                name,
                methods@,
                superclass,
                d1,
                t,
                r,
            ),
        }
    }
}

/// How a class declaration runs, with depth budget `d` for its parts: the
/// name is first defined as `nil` in `env`; with a superclass, a new scope
/// around `env` is made for the methods and the superclass expression is
/// evaluated in `env`; then `class_body` says the rest.
pub open spec fn class_runs(
    s: Interpreter,
    env: Environment,
    name: Token,
    methods: Seq<Expr>,
    superclass: Option<Expr>,
    d: nat,
    t: Interpreter,
    r: Result<StatementResult, InterpreterError>,
) -> bool
    decreases d, 3nat, 0nat,
{
    exists|s1: Interpreter|
        #[trigger] state_trigger(s1) && same_but_envs(s, s1) && s1.envs.view() == defined(
            s.envs.view(),
            env.index as int,
            name.lexeme@,
            Value::Nil,
        ) && match superclass {
            None => class_body(s1, env, env, name, methods, None, d, t, r),
            Some(sc) => if scopes_full(s1) {
                out_of_scopes(r) && t == s1
            } else {
                exists|s2: Interpreter|
                    #[trigger] state_trigger(s2) && scope_added(s1, s2, env.index) && exists|
                        s3: Interpreter,
                        r3: Result<Value, InterpreterError>,
                    |
                        #[trigger] step_trigger(s3, r3) && evaluates(s2, env, sc, d, s3, r3) && match r3 {
                            Err(x) => r == Err::<StatementResult, InterpreterError>(x) && t == s3,
                            Ok(v) => class_body(
                                s3,
                                env,
                                Environment { index: s1.envs.view().len() as usize },
                                name,
                                methods,
                                Some(v),
                                d,
                                t,
                                r,
                            ),
                        }
            },
        }
}

/// The rest of a class declaration: its methods are made in scope
/// `menv`; a superclass value must be a class, and is then defined as
/// `super` in `menv`; the class is added to the store and assigned to the
/// name in `env`.
pub open spec fn class_body(
    s: Interpreter,
    env: Environment,
    menv: Environment,
    name: Token,
    methods: Seq<Expr>,
    sv: Option<Value>,
    d: nat,
    t: Interpreter,
    r: Result<StatementResult, InterpreterError>,
) -> bool
    decreases d, 2nat, 0nat,
{
    exists|table: Seq<(Seq<char>, usize)>, s1: Interpreter, r1: Result<(), InterpreterError>|
        #[trigger] methods_trigger(table, s1, r1) && methods_made(
            s,
            menv,
            methods,
            d,
            name.line,
            table,
            s1,
            r1,
        ) && match r1 {
            Err(x) => r == Err::<StatementResult, InterpreterError>(x) && t == s1,
            Ok(_) => match sv {
                Some(Value::Class(sc)) => exists|s2: Interpreter|
                    #[trigger] state_trigger(s2) && same_but_envs(s1, s2) && s2.envs.view() == defined(
                        s1.envs.view(),
                        menv.index as int,
                        "super"@,
                        Value::Class(sc),
                    ) && class_declared(s2, env, name.lexeme@, table, Some(sc), t, r),
                Some(_) => fails_with(r, "super class must be a class type"@, name.line) && t == s1,
                None => class_declared(s1, env, name.lexeme@, table, None, t, r),
            },
        }
}

/// The end of a class declaration: the class is added to the store and
/// assigned to its name, seen from `env`.
pub open spec fn class_declared(
    s: Interpreter,
    env: Environment,
    name: Seq<char>,
    table: Seq<(Seq<char>, usize)>,
    sup: Option<usize>,
    t: Interpreter,
    r: Result<StatementResult, InterpreterError>,
) -> bool {
    let c = Value::Class(s.classes@.len() as usize);
    r == Ok::<StatementResult, InterpreterError>(StatementResult::Empty) && exists|s1: Interpreter|
        #[trigger] state_trigger(s1) && class_added(s, s1, name, table, sup) && same_but_envs(s1, t)
            && t.envs.view() == if owner(s1.envs.view(), env.index as int, name) >= 0 {
            assigned(s1.envs.view(), env.index as int, name, c)
        } else {
            s1.envs.view()
        }
}

/// How making a class's methods goes: each method expression is evaluated
/// in `menv` in order and must give a function, whose name and position
/// join the table; anything else fails with the declaration's line.
pub open spec fn methods_made(
    s: Interpreter,
    menv: Environment,
    ms: Seq<Expr>,
    d: nat,
    line: usize,
    table: Seq<(Seq<char>, usize)>,
    t: Interpreter,
    r: Result<(), InterpreterError>,
) -> bool
    decreases d, 1nat, ms.len(),
{
    if ms.len() == 0 {
        table.len() == 0 && r == Ok::<(), InterpreterError>(()) && t == s
    } else {
        exists|tb1: Seq<(Seq<char>, usize)>, s1: Interpreter, r1: Result<(), InterpreterError>|
            #[trigger] methods_trigger(tb1, s1, r1) && methods_made(
                s,
                menv,
                ms.drop_last(),
                d,
                line,
                tb1,
                s1,
                r1,
            ) && match r1 {
                Err(x) => r == Err::<(), InterpreterError>(x) && t == s1 && table == tb1,
                Ok(_) => exists|s2: Interpreter, r2: Result<Value, InterpreterError>|
                    #[trigger] step_trigger(s2, r2) && evaluates(s1, menv, ms.last(), d, s2, r2) && t
                        == s2 && match r2 {
                        Err(x) => r == Err::<(), InterpreterError>(x) && table == tb1,
                        Ok(Value::Function(f)) => r == Ok::<(), InterpreterError>(()) && table
                            == tb1.push((s2.functions@[f as int].name@, f)),
                        Ok(_) => fails_with(r, "class can only contain functions"@, line) && table
                            == tb1,
                    },
            }
    }
}

/// How a `while` loop runs, with depth budget `d` for its condition and
/// body and `budget` iterations left: the condition, then, while it holds,
/// the body; a `return` or an error in the body ends the loop, and the
/// loop fails when the budget runs out.
pub open spec fn while_runs(
    s: Interpreter,
    env: Environment,
    c: Expr,
    body: Statement,
    d: nat,
    budget: nat,
    t: Interpreter,
    r: Result<StatementResult, InterpreterError>,
) -> bool
    decreases d, 2nat, budget,
{
    exists|s1: Interpreter, r1: Result<Value, InterpreterError>|
        #[trigger] step_trigger(s1, r1) && evaluates(s, env, c, d, s1, r1) && match r1 {
            Err(x) => r == Err::<StatementResult, InterpreterError>(x) && t == s1,
            Ok(v) => if !spec_truthy(v) {
                r == Ok::<StatementResult, InterpreterError>(StatementResult::Empty) && t == s1
            } else {
                exists|s2: Interpreter, r2: Result<StatementResult, InterpreterError>|
                    #[trigger] run_trigger(s2, r2) && executes(s1, env, body, d, s2, r2) && match r2 {
                        Ok(StatementResult::Empty) => if budget == 0 {
                            r matches Err(InterpreterError::RuntimeError(m)) && m.message@
                                == "Loop ran too long"@ && m.line is None && t == s2
                        } else {
                            while_runs(s2, env, c, body, d, (budget - 1) as nat, t, r)
                        },
                        _ => r == r2 && t == s2,
                    }
            },
        }
}

/// How executing a list of statements in order, each with depth budget
/// `d`, goes: each runs in the state the one before left, up to the first
/// that does not finish normally, whose result is the list's.
pub open spec fn executes_all(
    s: Interpreter,
    env: Environment,
    ss: Seq<Statement>,
    d: nat,
    t: Interpreter,
    r: Result<StatementResult, InterpreterError>,
) -> bool
    decreases d, 1nat, ss.len(),
{
    if ss.len() == 0 {
        r == Ok::<StatementResult, InterpreterError>(StatementResult::Empty) && t == s
    } else {
        exists|s1: Interpreter, r1: Result<StatementResult, InterpreterError>|
            #[trigger] run_trigger(s1, r1) && executes_all(s, env, ss.drop_last(), d, s1, r1) && match r1 {
                Ok(StatementResult::Empty) => executes(s1, env, ss.last(), d, t, r),
                _ => r == r1 && t == s1,
            }
    }
}

/// How running a block's statements in scope `env` with depth budget `d`
/// goes: with no budget left it fails with a stack overflow; otherwise
/// each statement runs with one less, as `executes_all` says.
pub open spec fn block_runs(
    s: Interpreter,
    env: Environment,
    ss: Seq<Statement>,
    d: nat,
    t: Interpreter,
    r: Result<StatementResult, InterpreterError>,
) -> bool
    decreases d, 0nat, 0nat,
{
    if d == 0 {
        overflowed(r) && t == s
    } else {
        executes_all(s, env, ss, (d - 1) as nat, t, r)
    }
}

/// Once a list's first statements have stopped it, later statements do
/// not matter.
proof fn lemma_skip_rest(
    s: Interpreter,
    env: Environment,
    ss: Seq<Statement>,
    d: nat,
    i: int,
    t: Interpreter,
    r: Result<StatementResult, InterpreterError>,
)
    requires
        0 <= i <= ss.len(),
        executes_all(s, env, ss.subrange(0, i), d, t, r),
        r != Ok::<StatementResult, InterpreterError>(StatementResult::Empty),
    ensures
        executes_all(s, env, ss, d, t, r),
    decreases ss.len() - i,
{
    if i == ss.len() {
        assert(ss.subrange(0, i) =~= ss);
    } else {
        assert(ss.drop_last().subrange(0, i) =~= ss.subrange(0, i));
        lemma_skip_rest(s, env, ss.drop_last(), d, i, t, r);
        assert(run_trigger(t, r));
    }
}

/// Always true: names a state and result reached partway through a
/// program, so that the quantifier introducing them has a trigger.
pub open spec fn program_trigger(s: Interpreter, r: Result<(), InterpreterError>) -> bool {
    true
}

/// How running a program's statements goes: in order, each in the state
/// the one before left, in scope `env` and with depth budget `d`; a
/// `return` at the top finishes only its statement, and the first error
/// stops the program.
pub open spec fn program_runs(
    s: Interpreter,
    env: Environment,
    ss: Seq<Statement>,
    d: nat,
    t: Interpreter,
    r: Result<(), InterpreterError>,
) -> bool
    decreases ss.len(),
{
    if ss.len() == 0 {
        r == Ok::<(), InterpreterError>(()) && t == s
    } else {
        exists|s1: Interpreter, r1: Result<(), InterpreterError>|
            #[trigger] program_trigger(s1, r1) && program_runs(s, env, ss.drop_last(), d, s1, r1) && match r1 {
                Err(x) => r == Err::<(), InterpreterError>(x) && t == s1,
                Ok(_) => exists|s2: Interpreter, r2: Result<StatementResult, InterpreterError>|
                    #[trigger] run_trigger(s2, r2) && executes(s1, env, ss.last(), d, s2, r2) && t == s2
                        && match r2 {
                        Err(x) => r == Err::<(), InterpreterError>(x),
                        Ok(_) => r == Ok::<(), InterpreterError>(()),
                    },
            }
    }
}

/// Once a program's first statements have failed, later statements do
/// not matter.
proof fn lemma_program_stops(
    s: Interpreter,
    env: Environment,
    ss: Seq<Statement>,
    d: nat,
    i: int,
    t: Interpreter,
    r: Result<(), InterpreterError>,
)
    requires
        0 <= i <= ss.len(),
        program_runs(s, env, ss.subrange(0, i), d, t, r),
        r is Err,
    ensures
        program_runs(s, env, ss, d, t, r),
    decreases ss.len() - i,
{
    if i == ss.len() {
        assert(ss.subrange(0, i) =~= ss);
    } else {
        assert(ss.drop_last().subrange(0, i) =~= ss.subrange(0, i));
        lemma_program_stops(s, env, ss.drop_last(), d, i, t, r);
        assert(program_trigger(t, r));
    }
}

/// `and` and `or` give the left operand's value when it decides the
/// result (a falsy value for `and`, a truthy one for `or`), in the state the
/// left operand left: the right operand is not evaluated.
pub proof fn law_logical_decides(
    s: Interpreter,
    env: Environment,
    token: Token,
    l: Expr,
    r: Expr,
    d: nat,
    s1: Interpreter,
    vl: Value,
)
    requires
        (token.token_type == TokenType::Or && spec_truthy(vl)) || (token.token_type
            == TokenType::And && !spec_truthy(vl)),
        evaluates(s, env, l, d, s1, Ok(vl)),
    ensures
        evaluates(s, env, Expr::Logical(token, Box::new(l), Box::new(r)), d + 1, s1, Ok(vl)),
{
    assert(step_trigger(s1, Ok(vl)));
}

/// When the left operand of `and` or `or` does not decide the result, the
/// expression gives what the right operand gives, evaluated after the left.
pub proof fn law_logical_passes_on(
    s: Interpreter,
    env: Environment,
    token: Token,
    l: Expr,
    r: Expr,
    d: nat,
    s1: Interpreter,
    vl: Value,
    t: Interpreter,
    rr: Result<Value, InterpreterError>,
)
    requires
        (token.token_type == TokenType::Or && !spec_truthy(vl)) || (token.token_type
            == TokenType::And && spec_truthy(vl)),
        evaluates(s, env, l, d, s1, Ok(vl)),
        evaluates(s1, env, r, d, t, rr),
    ensures
        evaluates(s, env, Expr::Logical(token, Box::new(l), Box::new(r)), d + 1, t, rr),
{
    assert(step_trigger(s1, Ok(vl)));
}

/// Whether two values are equal for `==`: two numbers equal as IEEE
/// values, two equal booleans, or two strings with the same text.
pub open spec fn values_equal(a: Value, b: Value, strings: Seq<Vec<char>>) -> bool {
    match (a, b) {
        (Value::Number(x), Value::Number(y)) => spec_num_eq(x, y),
        (Value::Boolean(x), Value::Boolean(y)) => x == y,
        (Value::Str(x), Value::Str(y)) => string_at(strings, x) == string_at(strings, y),
        _ => false,
    }
}

/// Whether two values are of the same kind among numbers, booleans and
/// strings.
pub open spec fn same_kind(a: Value, b: Value) -> bool {
    (a is Number && b is Number) || (a is Boolean && b is Boolean) || (a is Str && b is Str)
}

/// `==` gives whether its operands' values are equal, and `!=` the
/// opposite for two values of one kind (both are false for values of
/// different kinds); neither fails nor changes the state the operands left.
pub proof fn law_equality(
    s: Interpreter,
    env: Environment,
    token: Token,
    a: Expr,
    b: Expr,
    d: nat,
    s1: Interpreter,
    va: Value,
    s2: Interpreter,
    vb: Value,
)
    requires
        token.token_type == TokenType::EqualEqual || token.token_type == TokenType::BangEqual,
        evaluates(s, env, a, d, s1, Ok(va)),
        evaluates(s1, env, b, d, s2, Ok(vb)),
    ensures
        evaluates(
            s,
            env,
            Expr::Binary(token, Box::new(a), Box::new(b)),
            d + 1,
            s2,
            Ok(
                Value::Boolean(
                    if token.token_type == TokenType::EqualEqual {
                        values_equal(va, vb, s2.strings@)
                    } else {
                        same_kind(va, vb) && !values_equal(va, vb, s2.strings@)
                    },
                ),
            ),
        ),
{
    assert(step_trigger(s1, Ok(va)));
    assert(step_trigger(s2, Ok(vb)));
}

/// `!` gives the negated truthiness of its operand's value (only `nil` and
/// `false` are falsy), in the state the operand left.
pub proof fn law_not(
    s: Interpreter,
    env: Environment,
    token: Token,
    e: Expr,
    d: nat,
    s1: Interpreter,
    v: Value,
)
    requires
        token.token_type == TokenType::Bang,
        evaluates(s, env, e, d, s1, Ok(v)),
    ensures
        evaluates(
            s,
            env,
            Expr::Unary(token, Box::new(e)),
            d + 1,
            s1,
            Ok(Value::Boolean(!spec_truthy(v))),
        ),
        spec_truthy(v) <==> !(v is Nil || v == Value::Boolean(false)),
{
    assert(step_trigger(s1, Ok(v)));
}

/// A block runs its statements in a new scope, enclosed by `env`, added
/// at the end of the store: what it declares is declared there, not in
/// `env` or the scopes around it.
pub proof fn law_block_scope(
    s: Interpreter,
    env: Environment,
    ss: Seq<Statement>,
    block: Vec<Statement>,
    d: nat,
    t: Interpreter,
    r: Result<StatementResult, InterpreterError>,
)
    requires
        block@ == ss,
        !scopes_full(s),
        executes(s, env, Statement::Block(block), d + 1, t, r),
    ensures
        exists|s1: Interpreter|
            #[trigger] state_trigger(s1) && scope_added(s, s1, env.index) && s1.envs.view().last()
                == fresh::<Value>(Some(env.index)) && block_runs(
                s1,
                Environment { index: s.envs.view().len() as usize },
                ss,
                d,
                t,
                r,
            ),
{
}

/// A `return` ends a list of statements: once the statements before it
/// finished normally and it returned, the list returns the same value and
/// the statements after it do not run.
pub proof fn law_return_ends_statements(
    s: Interpreter,
    env: Environment,
    ss: Seq<Statement>,
    i: int,
    d: nat,
    s1: Interpreter,
    t: Interpreter,
    v: Value,
)
    requires
        0 <= i < ss.len(),
        executes_all(s, env, ss.subrange(0, i), d, s1, Ok(StatementResult::Empty)),
        executes(s1, env, ss[i], d, t, Ok(StatementResult::Return(v))),
    ensures
        executes_all(s, env, ss, d, t, Ok(StatementResult::Return(v))),
{
    let sub = ss.subrange(0, i + 1);
    assert(sub.drop_last() =~= ss.subrange(0, i));
    assert(run_trigger(s1, Ok(StatementResult::Empty)));
    assert(executes_all(s, env, sub, d, t, Ok(StatementResult::Return(v))));
    lemma_skip_rest(s, env, ss, d, i + 1, t, Ok(StatementResult::Return(v)));
}

/// A `return` in a loop's body ends the loop with the same value: no
/// further iteration runs.
pub proof fn law_return_ends_loop(
    s: Interpreter,
    env: Environment,
    c: Expr,
    body: Statement,
    d: nat,
    budget: nat,
    s1: Interpreter,
    cv: Value,
    t: Interpreter,
    v: Value,
)
    requires
        evaluates(s, env, c, d, s1, Ok(cv)),
        spec_truthy(cv),
        executes(s1, env, body, d, t, Ok(StatementResult::Return(v))),
    ensures
        while_runs(s, env, c, body, d, budget, t, Ok(StatementResult::Return(v))),
{
    assert(step_trigger(s1, Ok(cv)));
    assert(run_trigger(t, Ok(StatementResult::Return(v))));
}

/// The resolver's state before it reads a program.
pub open spec fn fresh_resolution() -> ResolveState {
    ResolveState {
        scopes: Seq::empty(),
        function: FunctionType::NoFunction,
        class: ClassType::NoClass,
        table: Seq::empty(),
    }
}

/// Whether `s` is the state `a` runs a program's statements in: `a` with
/// its parser used and a resolution table holding the distances of
/// `table`.
pub open spec fn ready_to_run(a: Interpreter, s: Interpreter, table: Seq<(usize, usize)>) -> bool {
    &&& s.parser is None
    &&& s.envs == a.envs
    &&& s.global == a.global
    &&& s.strings == a.strings
    &&& s.functions == a.functions
    &&& s.classes == a.classes
    &&& s.instances == a.instances
    &&& s.output == a.output
    &&& s.env_vars == a.env_vars
    &&& forall|id: int|
        0 <= id < s.resolve_table@.len() ==> #[trigger] s.resolve_table@[id] == table_entry(
            table,
            id as usize,
        )
}

/// Always true: names an evaluation of the source's expression (the
/// expression, the state and scope it starts in, and the state and result
/// it ends with), so that the quantifier introducing it has a trigger.
pub open spec fn source_trigger(
    e: Expr,
    s: Interpreter,
    env: Environment,
    t: Interpreter,
    r: Result<Value, InterpreterError>,
) -> bool {
    true
}

/// The scopes after defining the first `n` parameters `ps` as the values
/// `vs`, in order, in scope `frame`.
pub open spec fn params_bound(
    v: Seq<FrameView<Value>>,
    frame: int,
    ps: Seq<Vec<char>>,
    vs: Seq<Value>,
    n: nat,
) -> Seq<FrameView<Value>>
    decreases n,
{
    if n == 0 {
        v
    } else {
        defined(params_bound(v, frame, ps, vs, (n - 1) as nat), frame, ps[n - 1]@, vs[n - 1])
    }
}

/// The name `env` is asked for: the text of its single argument when that
/// is a string.
pub open spec fn env_key(s: Interpreter, args: Seq<Value>) -> Option<Seq<char>> {
    if args.len() == 1 {
        match args[0] {
            Value::Str(i) => if i < s.strings@.len() {
                Some(s.strings@[i as int]@)
            } else {
                None
            },
            _ => None,
        }
    } else {
        None
    }
}

/// How running function `f` with the values `args` and depth budget `d`
/// goes, for a Lox function: in a new scope enclosed by the function's
/// closure, each parameter is defined as its argument, in order, and then
/// the body runs in that scope as a block with one less budget. The
/// built-in `env` gives a new string holding the value of the variable its
/// string argument names (the latest entry wins), `nil` when the variable
/// is not set, and an error for any other argument. The built-in `clock`
/// changes nothing and gives some whole number of seconds or the clock's
/// error; which number depends on the time.
pub open spec fn function_runs(
    s: Interpreter,
    f: usize,
    args: Seq<Value>,
    line: usize,
    d: nat,
    t: Interpreter,
    r: Result<StatementResult, InterpreterError>,
) -> bool
    decreases d, 0nat, 0nat,
{
    let fo = s.functions@[f as int];
    let n = if fo.parameters@.len() < args.len() {
        fo.parameters@.len()
    } else {
        args.len()
    };
    if d == 0 {
        overflowed(r) && t == s
    } else if fo.kind == FunctionKind::Clock {
        &&& t == s
        &&& r is Ok ==> exists|n: u64|
            r == Ok::<StatementResult, InterpreterError>(
                StatementResult::Return(Value::Number(#[trigger] spec_num_from_u64(n))),
            )
        &&& r is Err ==> (r matches Err(InterpreterError::RuntimeError(m)) && m.line == Some(line)
            && m.message@.len() >= 19 && m.message@.subrange(0, 19) == "System time error: "@)
    } else if fo.kind == FunctionKind::Env {
        match env_key(s, args) {
            None => r matches Err(InterpreterError::RuntimeError(m)) && m.line == Some(line)
                && m.message@ == "Invalid argument to 'env' function"@ && t == s,
            Some(k) => match pair_lookup(s.env_vars@, k) {
                Some(x) => r == Ok::<StatementResult, InterpreterError>(
                    StatementResult::Return(Value::Str(s.strings@.len() as usize)),
                ) && string_added(s, t, x),
                None => r == Ok::<StatementResult, InterpreterError>(
                    StatementResult::Return(Value::Nil),
                ) && t == s,
            },
        }
    } else if scopes_full(s) {
        out_of_scopes(r) && t == s
    } else {
        exists|s1: Interpreter|
            #[trigger] state_trigger(s1) && same_but_envs(s, s1) && s1.envs.view() == params_bound(
                s.envs.view().push(fresh(Some(fo.closure))),
                s.envs.view().len() as int,
                fo.parameters@,
                args,
                n,
            ) && match fo.body {
                Some(b) => block_runs(
                    s1,
                    Environment { index: s.envs.view().len() as usize },
                    b.body@,
                    (d - 1) as nat,
                    t,
                    r,
                ),
                None => r == Ok::<StatementResult, InterpreterError>(StatementResult::Empty) && t
                    == s1,
            }
    }
}

/// How many arguments a function takes.
pub open spec fn spec_arity(f: FunctionObject) -> nat {
    match f.kind {
        FunctionKind::Lox => f.parameters@.len(),
        FunctionKind::Clock => 0,
        FunctionKind::Env => 1,
    }
}
/// Whether an evaluation's result is the outcome given.
pub open spec fn gives(r: Result<Value, InterpreterError>, outcome: Result<Value, (Seq<char>, usize)>) -> bool {
    match outcome {
        Ok(v) => r == Ok::<Value, InterpreterError>(v),
        Err((m, line)) => r matches Err(InterpreterError::InterpreterError(em)) && em.message@ == m
            && em.line == Some(line),
    }
}

/// Whether `b` is `a` with nothing but its printed text changed.
pub open spec fn only_printed(a: Interpreter, b: Interpreter) -> bool {
    &&& b.parser == a.parser
    &&& b.envs == a.envs
    &&& b.global == a.global
    &&& b.strings == a.strings
    &&& b.functions == a.functions
    &&& b.classes == a.classes
    &&& b.instances == a.instances
    &&& b.resolve_table == a.resolve_table
    &&& b.has_parsing_errors == a.has_parsing_errors
    &&& b.env_vars == a.env_vars
}

/// Whether `b` is `a` with one more definition: `name` as `v` in scope
/// `env`.
pub open spec fn only_defined(a: Interpreter, b: Interpreter, env: Environment, name: Seq<char>, v: Value) -> bool {
    &&& b.envs.view() == defined(a.envs.view(), env.index as int, name, v)
    &&& b.output@ == a.output@
    &&& b.global == a.global
    &&& b.strings == a.strings
    &&& b.functions == a.functions
    &&& b.classes == a.classes
    &&& b.instances == a.instances
    &&& b.resolve_table == a.resolve_table
}

/// What executing a `print`, expression, variable or `if` statement whose
/// expression changes nothing does: a `print` adds the value's text and a
/// newline to the output and changes nothing else; an expression statement
/// changes nothing; a variable statement defines the name in the scope as
/// the value (`nil` without an initializer); an `if` does what the branch
/// its condition selects does, or nothing; a `while` whose condition is
/// false at the start does nothing; a `return` finishes with the value
/// (`nil` without one) and changes nothing. Each stops at the expression's
/// error.
pub open spec fn pure_statement_done(
    before: Interpreter,
    after: Interpreter,
    env: Environment,
    statement: Statement,
    r: Result<StatementResult, InterpreterError>,
) -> bool
    decreases statement,
{
    match statement {
        Statement::Print(e) => pure_outcome(before, env, e) matches Some(outcome) ==> match outcome {
            Ok(v) => r matches Ok(StatementResult::Empty) && only_printed(before, after) && exists|
                t: Seq<char>,
            | before.shows(v, t) && after.output@ == before.output@ + t + seq!['\n'],
            Err((m, line)) => r matches Err(InterpreterError::InterpreterError(em)) && em.message@
                == m && em.line == Some(line),
        },
        Statement::Expression(e) => pure_outcome(before, env, e) matches Some(outcome) ==> match outcome {
            Ok(v) => r matches Ok(StatementResult::Empty) && after == before,
            Err((m, line)) => r matches Err(InterpreterError::InterpreterError(em)) && em.message@
                == m && em.line == Some(line),
        },
        Statement::If(c, t, e) => pure_outcome(before, env, c) matches Some(outcome) ==> match outcome {
            Ok(v) => if spec_truthy(v) {
                pure_statement_done(before, after, env, *t, r)
            } else {
                match e {
                    Some(x) => pure_statement_done(before, after, env, *x, r),
                    None => r matches Ok(StatementResult::Empty) && after == before,
                }
            },
            Err((m, line)) => r matches Err(InterpreterError::InterpreterError(em)) && em.message@
                == m && em.line == Some(line),
        },
        Statement::While(c, _) => pure_outcome(before, env, c) matches Some(outcome) ==> match outcome {
            Ok(v) => !spec_truthy(v) ==> (r matches Ok(StatementResult::Empty) && after == before),
            Err((m, line)) => r matches Err(InterpreterError::InterpreterError(em)) && em.message@
                == m && em.line == Some(line),
        },
        Statement::Return(_, value) => (match value {
            Some(e) => pure_outcome(before, env, e),
            None => Some(Ok(Value::Nil)),
        }) matches Some(outcome) ==> match outcome {
            Ok(v) => r == Ok::<StatementResult, InterpreterError>(StatementResult::Return(v))
                && after == before,
            Err((m, line)) => r matches Err(InterpreterError::InterpreterError(em)) && em.message@
                == m && em.line == Some(line),
        },
        Statement::Variable(token, initializer) => (match initializer {
            Some(e) => pure_outcome(before, env, e),
            None => Some(Ok(Value::Nil)),
        }) matches Some(outcome) ==> match outcome {
            Ok(v) => r matches Ok(StatementResult::Empty) && only_defined(
                before,
                after,
                env,
                token.lexeme@,
                v,
            ),
            Err((m, line)) => r matches Err(InterpreterError::InterpreterError(em)) && em.message@
                == m && em.line == Some(line),
        },
        _ => true,
    }
}

/// The interpreter's stores are only ever added to, its printed text
/// only grows, and the global scope stays.
pub open spec fn grows(a: Interpreter, b: Interpreter) -> bool {
    &&& a.envs.view().len() <= b.envs.view().len()
    &&& sizes_le(a.sizes(), b.sizes())
    &&& a.output@.is_prefix_of(b.output@)
    &&& b.global == a.global
    &&& b.parser == a.parser
    &&& b.has_parsing_errors == a.has_parsing_errors
}

impl Interpreter {
    /// Applies a binary operator to two evaluated operands. A string
    /// concatenation adds the joined text to the string store.
    pub fn binary_values(&mut self, op: &Token, a: Value, b: Value) -> (r: Result<Value, InterpreterError>)
        requires
            old(self).inv(),
        ensures
            final(self).inv(),
            grows(*old(self), *final(self)),
            r matches Ok(v) ==> final(self).value_ok(v),
            final(self).envs == old(self).envs,
            final(self).output == old(self).output,
            final(self).resolve_table == old(self).resolve_table,
            binary_error(op.token_type, a, b) matches Some(m) ==> (r matches Err(e)
                && e matches InterpreterError::InterpreterError(em) && em.message@ == m
                && em.line == Some(op.line)),
            binary_error(op.token_type, a, b) is None ==> (comparison_result(
                op.token_type,
                a,
                b,
                old(self).strings@,
            ) matches Some(x) ==> r == Ok::<Value, InterpreterError>(Value::Boolean(x))),
            (a, b) matches (Value::Number(x), Value::Number(y)) ==> (arithmetic_result(
                op.token_type,
                x,
                y,
            ) matches Some(z) ==> r == Ok::<Value, InterpreterError>(Value::Number(z))),
            !(op.token_type == TokenType::Plus && a is Str && b is Str) ==> *final(self)
                == *old(self),
            op.token_type == TokenType::Plus && a is Str && b is Str ==> (r matches Ok(
                Value::Str(i),
            ) && string_at(final(self).strings@, i) == string_at(old(self).strings@, a->Str_0)
                + string_at(old(self).strings@, b->Str_0)),
            binary_done(*old(self), *final(self), *op, a, b, r),
    {
        let line = op.line;
        match (op.token_type, a, b) {
            (TokenType::Plus, Value::Number(x), Value::Number(y)) => Ok(Value::Number(num_add(x, y))),
            (TokenType::Plus, Value::Str(x), Value::Str(y)) => {
                let mut joined: Vec<char> = Vec::new();
                if x < self.strings.len() {
                    append_chars(&mut joined, &self.strings[x]);
                }
                if y < self.strings.len() {
                    append_chars(&mut joined, &self.strings[y]);
                }
                assert(joined@ =~= string_at(self.strings@, x) + string_at(self.strings@, y));
                let ghost text = joined@;
                let v = self.new_string(joined);
                assert(self.strings@.last()@ == text);
                assert(self.strings@.drop_last() =~= old(self).strings@);
                assert(string_added(*old(self), *self, text));
                Ok(v)
            },
            (TokenType::Plus, _, _) => Err(
                runtime_error("Operands must be two numbers or two strings", line),
            ),
            (TokenType::Minus, Value::Number(x), Value::Number(y)) => Ok(
                Value::Number(num_add(x, num_neg(y))),
            ),
            (TokenType::Minus, _, _) => Err(
                runtime_error("Operands must be two numbers or two strings", line),
            ),
            (TokenType::Slash, Value::Number(x), Value::Number(y)) => Ok(Value::Number(num_div(x, y))),
            (TokenType::Slash, _, _) => Err(runtime_error("Operands must be numbers", line)),
            (TokenType::Star, Value::Number(x), Value::Number(y)) => Ok(Value::Number(num_mul(x, y))),
            (TokenType::Greater, Value::Number(x), Value::Number(y)) => Ok(
                Value::Boolean(num_lt(y, x)),
            ),
            (TokenType::GreaterEqual, Value::Number(x), Value::Number(y)) => Ok(
                Value::Boolean(num_le(y, x)),
            ),
            (TokenType::Less, Value::Number(x), Value::Number(y)) => Ok(Value::Boolean(num_lt(x, y))),
            (TokenType::LessEqual, Value::Number(x), Value::Number(y)) => Ok(
                Value::Boolean(num_le(x, y)),
            ),
            (TokenType::EqualEqual, Value::Number(x), Value::Number(y)) => Ok(
                Value::Boolean(num_eq(x, y)),
            ),
            (TokenType::BangEqual, Value::Number(x), Value::Number(y)) => Ok(
                Value::Boolean(!num_eq(x, y)),
            ),
            (TokenType::EqualEqual, Value::Boolean(x), Value::Boolean(y)) => Ok(Value::Boolean(x == y)),
            (TokenType::BangEqual, Value::Boolean(x), Value::Boolean(y)) => Ok(Value::Boolean(x != y)),
            (TokenType::EqualEqual, Value::Str(x), Value::Str(y)) => Ok(
                Value::Boolean(self.strings_equal(x, y)),
            ),
            (TokenType::BangEqual, Value::Str(x), Value::Str(y)) => Ok(
                Value::Boolean(!self.strings_equal(x, y)),
            ),
            (TokenType::EqualEqual, _, _) => Ok(Value::Boolean(false)),
            (TokenType::BangEqual, _, _) => Ok(Value::Boolean(false)),
            _ => Err(runtime_error("Unrecognized binary expression", line)),
        }
    }

    /// The value of a variable: at the distance the resolver found, when
    /// it found one and the variable is there, and otherwise in the global
    /// scope.
    pub fn lookup_variable(&self, id: usize, name: &Vec<char>, env: Environment) -> (r: Option<Value>)
        requires
            self.inv(),
            env.index < self.envs.view().len(),
        ensures
            r == variable_value(*self, id, name@, env),
            r matches Some(v) ==> self.value_ok(v),
    {
        let distance = if id < self.resolve_table.len() {
            self.resolve_table[id]
        } else {
            None
        };
        let local = match distance {
            Some(d) => env.get_at(&self.envs, name, d),
            None => None,
        };
        proof {
            lemma_lookup_fits(self.envs.view(), self.global.index as int, name@, self.sizes());
            match distance {
                Some(d) => lemma_lookup_at_fits(self.envs.view(), env.index as int, name@, d as nat, self.sizes()),
                None => {},
            }
        }
        match local {
            Some(v) => Some(v),
            None => self.global.get(&self.envs, name),
        }
    }

    /// The method `name` of a class or of its superclasses, nearest first.
    pub fn find_method(&self, class: usize, name: &Vec<char>) -> (r: Option<usize>)
        requires
            self.heap_ok(),
        ensures
            r matches Some(f) ==> f < self.functions@.len(),
            r == method_of(self.classes@, class as int, name@),
    {
        let mut c = class;
        loop
            invariant
                self.heap_ok(),
                method_of(self.classes@, class as int, name@) == method_of(
                    self.classes@,
                    c as int,
                    name@,
                ),
            decreases c,
        {
            if c >= self.classes.len() {
                return None;
            }
            let methods = &self.classes[c].methods;
            assert(class_fits(self.classes@[c as int], c as int, self.sizes()));
            let mut i = methods.len();
            assert(methods@.subrange(0, i as int) =~= methods@);
            while i > 0
                invariant
                    i <= methods.len(),
                    c < self.classes@.len(),
                    methods == self.classes@[c as int].methods,
                    class_fits(self.classes@[c as int], c as int, self.sizes()),
                    table_method(methods@, name@) == table_method(
                        methods@.subrange(0, i as int),
                        name@,
                    ),
                    method_of(self.classes@, class as int, name@) == method_of(
                        self.classes@,
                        c as int,
                        name@,
                    ),
                decreases i,
            {
                let ghost prefix = methods@.subrange(0, i as int);
                assert(prefix.last() == methods@[i - 1]);
                if chars_eq(&methods[i - 1].0, name) {
                    assert(methods@[i - 1].1 < self.functions@.len());
                    return Some(methods[i - 1].1);
                }
                assert(prefix.drop_last() =~= methods@.subrange(0, i - 1));
                i = i - 1;
            }
            assert(methods@.subrange(0, 0).len() == 0);
            match self.classes[c].super_class {
                Some(s) => {
                    c = s;
                },
                None => {
                    return None;
                },
            }
        }
    }

    /// A new scope around `env`; fails only when no more scopes can be
    /// counted.
    fn enclose_env(&mut self, env: Environment) -> (r: Result<Environment, InterpreterError>)
        requires
            old(self).inv(),
            env.index < old(self).envs.view().len(),
        ensures
            final(self).inv(),
            grows(*old(self), *final(self)),
            final(self).functions == old(self).functions,
            final(self).instances == old(self).instances,
            final(self).classes == old(self).classes,
            final(self).strings == old(self).strings,
            final(self).output == old(self).output,
            final(self).resolve_table == old(self).resolve_table,
            r matches Ok(e) ==> e.index < final(self).envs.view().len(),
            r is Err <==> old(self).envs.view().len() >= usize::MAX - 8,
            r is Err ==> *final(self) == *old(self) && out_of_scopes(r),
            r matches Ok(e) ==> e.index == old(self).envs.view().len() && final(self).envs.view()
                == old(self).envs.view().push(fresh(Some(env.index))) && same_but_envs(
                *old(self),
                *final(self),
            ),
    {
        if self.envs.len() >= usize::MAX - 8 {
            return Err(
                InterpreterError::RuntimeError(ErrorMessage::from_str("Out of memory", None)),
            );
        }
        let e = env.enclose(&mut self.envs);
        proof {
            lemma_frames_fit_push(old(self).envs.view(), Some(env.index), self.sizes());
        }
        Ok(e)
    }

    /// Defines a name in a scope.
    fn define_in(&mut self, env: Environment, name: Vec<char>, value: Value)
        requires
            old(self).inv(),
            env.index < old(self).envs.view().len(),
            old(self).value_ok(value),
        ensures
            final(self).inv(),
            grows(*old(self), *final(self)),
            final(self).functions == old(self).functions,
            final(self).instances == old(self).instances,
            final(self).classes == old(self).classes,
            final(self).strings == old(self).strings,
            final(self).output == old(self).output,
            final(self).resolve_table == old(self).resolve_table,
            final(self).envs.view() == defined(old(self).envs.view(), env.index as int, name@, value),
            final(self).env_vars == old(self).env_vars,
            same_but_envs(*old(self), *final(self)),
    {
        let ghost key = name@;
        env.define(&mut self.envs, name, value);
        proof {
            lemma_frames_fit_define(old(self).envs.view(), env.index as int, key, value, self.sizes());
        }
    }

    /// Sets the visible definition of a name; fails when there is none.
    fn assign_in(&mut self, env: Environment, name: &Vec<char>, value: Value) -> (r: Result<(), ()>)
        requires
            old(self).inv(),
            env.index < old(self).envs.view().len(),
            old(self).value_ok(value),
        ensures
            final(self).inv(),
            grows(*old(self), *final(self)),
            final(self).functions == old(self).functions,
            final(self).instances == old(self).instances,
            final(self).classes == old(self).classes,
            final(self).strings == old(self).strings,
            final(self).output == old(self).output,
            final(self).resolve_table == old(self).resolve_table,
            r is Ok <==> owner(old(self).envs.view(), env.index as int, name@) >= 0,
            r is Ok ==> final(self).envs.view() == assigned(old(self).envs.view(), env.index as int, name@, value),
            r is Err ==> final(self).envs.view() == old(self).envs.view(),
            same_but_envs(*old(self), *final(self)),
    {
        let r = env.assign(&mut self.envs, name, value);
        proof {
            if r is Ok {
                lemma_frames_fit_assign(old(self).envs.view(), env.index as int, name@, value, self.sizes());
            }
        }
        r
    }

    /// Lets a method see `this` as the given instance: its closure becomes
    /// a new scope, around the old one, that defines `this`. The function
    /// itself is changed, for everyone who holds it. Built-in functions
    /// are left as they are.
    fn bind(&mut self, function: usize, this: usize) -> (r: Result<(), InterpreterError>)
        requires
            old(self).inv(),
            function < old(self).functions@.len(),
            this < old(self).instances@.len(),
        ensures
            final(self).inv(),
            grows(*old(self), *final(self)),
            final(self).output == old(self).output,
            final(self).resolve_table == old(self).resolve_table,
            bind_done(*old(self), function, this, *final(self), r),
    {
        if self.functions[function].kind != FunctionKind::Lox {
            return Ok(());
        }
        let closure = self.functions[function].closure;
        let env = self.enclose_env(Environment { index: closure })?;
        self.define_in(env, str_to_chars("this"), Value::Instance(this));
        let ghost before = *self;
        let f = &mut self.functions[function];
        f.closure = env.index;
        proof {
            assert forall|i: int| 0 <= i < self.functions@.len() implies (
            #[trigger] self.functions@[i]).closure < self.envs.view().len() by {
                if i != function {
                    assert(self.functions@[i] == before.functions@[i]);
                }
            }
            assert(self.parts_fit(self.sizes()));
        }
        Ok(())
    }

    /// A property of an instance: a field, or else a method bound to the
    /// instance, or else `nil`.
    #[verifier::loop_isolation(false)]
    fn instance_get(&mut self, instance: usize, name: &Vec<char>) -> (r: Result<Value, InterpreterError>)
        requires
            old(self).inv(),
            instance < old(self).instances@.len(),
        ensures
            final(self).inv(),
            grows(*old(self), *final(self)),
            final(self).output == old(self).output,
            final(self).resolve_table == old(self).resolve_table,
            r matches Ok(v) ==> final(self).value_ok(v),
            field_value(old(self).instances@[instance as int].fields@, name@) matches Some(v) ==> r
                == Ok::<Value, InterpreterError>(v) && *final(self) == *old(self),
            field_value(old(self).instances@[instance as int].fields@, name@) is None && method_of(
                old(self).classes@,
                old(self).instances@[instance as int].class as int,
                name@,
            ) is None ==> r == Ok::<Value, InterpreterError>(Value::Nil) && *final(self) == *old(
                self,
            ),
            field_value(old(self).instances@[instance as int].fields@, name@) is None ==> (method_of(
                old(self).classes@,
                old(self).instances@[instance as int].class as int,
                name@,
            ) matches Some(f) ==> (bind_done(*old(self), f, instance, *final(self), without_value(r))
                && (r is Ok ==> r == Ok::<Value, InterpreterError>(Value::Function(f))))),
    {
        let fields = &self.instances[instance].fields;
        assert(instance_fits(self.instances@[instance as int], self.sizes()));
        let mut i = fields.len();
        while i > 0
            invariant
                i <= fields.len(),
                forall|j: int| i <= j < fields@.len() ==> (#[trigger] fields@[j]).0@ != name@,
            decreases i,
        {
            if chars_eq(&fields[i - 1].0, name) {
                assert(value_fits(fields@[i - 1].1, self.sizes()));
                proof {
                    lemma_field_value_prefix(fields@, name@, i as int);
                    assert(fields@.subrange(0, i as int).last() == fields@[i - 1]);
                }
                return Ok(fields[i - 1].1);
            }
            i = i - 1;
        }
        proof {
            lemma_field_value_prefix(fields@, name@, 0);
            assert(fields@.subrange(0, 0).len() == 0);
        }
        let class = self.instances[instance].class;
        match self.find_method(class, name) {
            Some(f) => {
                self.bind(f, instance)?;
                Ok(Value::Function(f))
            },
            None => Ok(Value::Nil),
        }
    }

    /// Sets a field of an instance.
    fn instance_set(&mut self, instance: usize, name: &Vec<char>, value: Value)
        requires
            old(self).inv(),
            instance < old(self).instances@.len(),
            old(self).value_ok(value),
        ensures
            final(self).inv(),
            grows(*old(self), *final(self)),
            final(self).output == old(self).output,
            final(self).resolve_table == old(self).resolve_table,
            field_written(*old(self), *final(self), instance as int, name@, value),
            final(self).envs == old(self).envs,
            final(self).strings == old(self).strings,
    {
        let n = self.instances[instance].fields.len();
        let ghost before = *self;
        let ghost fields = self.instances@[instance as int].fields@;
        let mut i = n;
        while i > 0
            invariant
                i <= n,
                n == self.instances@[instance as int].fields.len(),
                instance < self.instances.len(),
                *self == before,
                before == *old(self),
                before.inv(),
                before.value_ok(value),
                fields == before.instances@[instance as int].fields@,
                forall|j: int| i <= j < fields.len() ==> (#[trigger] fields[j]).0@ != name@,
            decreases i,
        {
            if chars_eq(&self.instances[instance].fields[i - 1].0, name) {
                let key = self.instances[instance].fields[i - 1].0.clone();
                assert(key@ =~= fields[i - 1].0@);
                let inst = &mut self.instances[instance];
                inst.fields.set(i - 1, (key, value));
                proof {
                    self.lemma_instance_update(before, instance as int);
                    let nf = self.instances@[instance as int].fields@;
                    assert(nf == fields.update(i - 1, (key, value)));
                    assert forall|j: int| i <= j < nf.len() implies (#[trigger] nf[j]).0@ != name@ by {
                        assert(nf[j] == fields[j]);
                    }
                    lemma_field_value_prefix(nf, name@, i as int);
                    assert(nf.subrange(0, i as int).last() == (key, value));
                    assert forall|other: Seq<char>| other != name@ implies #[trigger] field_value(
                        nf,
                        other,
                    ) == field_value(fields, other) by {
                        lemma_field_value_update(fields, i - 1, (key, value), other);
                    }
                }
                return;
            }
            i = i - 1;
        }
        let key = name.clone();
        assert(key@ =~= name@);
        let inst = &mut self.instances[instance];
        inst.fields.push((key, value));
        proof {
            self.lemma_instance_update(before, instance as int);
            let nf = self.instances@[instance as int].fields@;
            assert(nf.drop_last() =~= fields);
            assert forall|other: Seq<char>| other != name@ implies #[trigger] field_value(nf, other)
                == field_value(fields, other) by {
                assert(nf.last().0@ == name@);
            }
        }
    }

    /// Changing the fields of one instance to fitting values keeps the
    /// stores consistent.
    proof fn lemma_instance_update(&self, before: Interpreter, k: int)
        requires
            before.inv(),
            0 <= k < before.instances@.len(),
            self.instances@.len() == before.instances@.len(),
            forall|i: int| 0 <= i < self.instances@.len() && i != k ==> self.instances@[i] == before.instances@[i],
            self.instances@[k].class == before.instances@[k].class,
            forall|j: int| 0 <= j < self.instances@[k].fields@.len() ==> value_fits(
                (#[trigger] self.instances@[k].fields@[j]).1,
                before.sizes(),
            ),
            self.envs == before.envs,
            self.global == before.global,
            self.parser == before.parser,
            self.strings == before.strings,
            self.functions == before.functions,
            self.classes == before.classes,
        ensures
            self.inv(),
    {
        assert forall|i: int| 0 <= i < self.instances@.len() implies instance_fits(#[trigger] self.instances@[i], self.sizes()) by {
            if i != k {
                assert(self.instances@[i] == before.instances@[i]);
            }
        }
    }
}


fn stack_overflow() -> (r: InterpreterError)
    ensures
        r matches InterpreterError::RuntimeError(m) && m.message@ == "Stack overflow"@ && m.line is None,
{
    InterpreterError::RuntimeError(ErrorMessage::from_str("Stack overflow", None))
}

/// A runtime error whose message names something: `before` + `name` +
/// `after`.
fn named_error(before: &str, name: &Vec<char>, after: &str, line: usize) -> (r: InterpreterError)
    ensures
        r matches InterpreterError::InterpreterError(m) && m.message@ == before@ + name@ + after@
            && m.line == Some(line),
{
    let mut message: Vec<char> = Vec::new();
    append_str(&mut message, before);
    append_chars(&mut message, name);
    append_str(&mut message, after);
    InterpreterError::evaluating(message, line)
}

/// The entry the table built from `entries` holds for `id`: the distance of
/// the last entry for `id`.
pub open spec fn table_entry(entries: Seq<(usize, usize)>, id: usize) -> Option<usize>
    decreases entries.len(),
{
    if entries.len() == 0 {
        None
    } else if entries.last().0 == id {
        Some(entries.last().1)
    } else {
        table_entry(entries.drop_last(), id)
    }
}

/// The resolver's findings as a table indexed by expression number.
pub fn dense_table(entries: &Vec<(usize, usize)>, n: usize) -> (r: Vec<Option<usize>>)
    ensures
        r@.len() == n,
        forall|id: int| 0 <= id < n ==> #[trigger] r@[id] == table_entry(entries@, id as usize),
{
    let mut t: Vec<Option<usize>> = Vec::new();
    let mut i: usize = 0;
    while i < n
        invariant
            i <= n,
            t@.len() == i,
            forall|j: int| 0 <= j < i ==> #[trigger] t@[j] == table_entry(entries@.subrange(0, 0), j as usize),
        decreases n - i,
    {
        t.push(None);
        i = i + 1;
    }
    let mut k: usize = 0;
    while k < entries.len()
        invariant
            k <= entries.len(),
            t@.len() == n,
            forall|j: int| 0 <= j < n ==> #[trigger] t@[j] == table_entry(entries@.subrange(0, k as int), j as usize),
        decreases entries.len() - k,
    {
        let (id, d) = entries[k];
        let ghost prev = entries@.subrange(0, k as int);
        let ghost next = entries@.subrange(0, k + 1);
        assert(next.drop_last() =~= prev);
        assert(next.last() == entries@[k as int]);
        if id < n {
            t.set(id, Some(d));
        }
        k = k + 1;
    }
    assert(entries@.subrange(0, entries@.len() as int) =~= entries@);
    t
}

impl Interpreter {
    /// A new instance of a class, with no fields.
    fn new_instance(&mut self, class: usize) -> (r: usize)
        requires
            old(self).inv(),
            class < old(self).classes@.len(),
        ensures
            final(self).inv(),
            grows(*old(self), *final(self)),
            r == old(self).instances@.len(),
            r < final(self).instances@.len(),
            instance_added(*old(self), *final(self), class),
            final(self).functions == old(self).functions,
            final(self).classes == old(self).classes,
            final(self).output == old(self).output,
            final(self).resolve_table == old(self).resolve_table,
    {
        let r = self.instances.len();
        self.instances.push(LoxInstance { class, fields: Vec::new() });
        proof {
            assert(self.instances@.drop_last() =~= old(self).instances@);
            assert forall|i: int| 0 <= i < self.instances@.len() implies instance_fits(
                #[trigger] self.instances@[i],
                old(self).sizes(),
            ) by {
                if i < old(self).instances@.len() {
                    assert(self.instances@[i] == old(self).instances@[i]);
                }
            }
            assert(self.parts_fit(old(self).sizes()));
            lemma_parts_fit_grow(*self, old(self).sizes(), self.sizes());
        }
        r
    }

    /// A new class.
    fn new_class(&mut self, name: Vec<char>, methods: Vec<(Vec<char>, usize)>, super_class: Option<usize>) -> (r: usize)
        requires
            old(self).inv(),
            forall|j: int| 0 <= j < methods@.len() ==> (#[trigger] methods@[j]).1 < old(self).functions@.len(),
            super_class matches Some(sc) ==> sc < old(self).classes@.len(),
        ensures
            final(self).inv(),
            grows(*old(self), *final(self)),
            r == old(self).classes@.len(),
            r < final(self).classes@.len(),
            final(self).classes@ == old(self).classes@.push((LoxClass { name, methods, super_class })),
            kept(*old(self), *final(self)),
            final(self).strings == old(self).strings,
            final(self).functions == old(self).functions,
            final(self).instances == old(self).instances,
            final(self).envs == old(self).envs,
            final(self).output == old(self).output,
            final(self).resolve_table == old(self).resolve_table,
    {
        let r = self.classes.len();
        self.classes.push(LoxClass { name, methods, super_class });
        proof {
            assert forall|i: int| 0 <= i < self.classes@.len() implies class_fits(
                #[trigger] self.classes@[i],
                i,
                old(self).sizes(),
            ) by {
                if i < old(self).classes@.len() {
                    assert(self.classes@[i] == old(self).classes@[i]);
                }
            }
            assert(self.parts_fit(old(self).sizes()));
            lemma_parts_fit_grow(*self, old(self).sizes(), self.sizes());
        }
        r
    }

    /// Adding a function whose closure exists keeps the stores consistent.
    proof fn lemma_function_pushed(&self, before: Interpreter)
        requires
            before.inv(),
            self.functions@.len() == before.functions@.len() + 1,
            forall|i: int| 0 <= i < before.functions@.len() ==> self.functions@[i] == before.functions@[i],
            self.functions@.last().closure < before.envs.view().len(),
            self.envs == before.envs,
            self.global == before.global,
            self.parser == before.parser,
            self.strings == before.strings,
            self.classes == before.classes,
            self.instances == before.instances,
        ensures
            self.inv(),
            sizes_le(before.sizes(), self.sizes()),
    {
        assert forall|i: int| 0 <= i < self.functions@.len() implies (
        #[trigger] self.functions@[i]).closure < self.envs.view().len() by {
            if i < before.functions@.len() {
                assert(self.functions@[i] == before.functions@[i]);
            }
        }
        assert(self.parts_fit(before.sizes()));
        lemma_parts_fit_grow(*self, before.sizes(), self.sizes());
    }

    /// Prints a value: appends its text and a newline to the output, and
    /// returns the text.
    pub fn print_value(&mut self, v: Value) -> (t: Vec<char>)
        requires
            old(self).inv(),
        ensures
            final(self).inv(),
            grows(*old(self), *final(self)),
            old(self).shows(v, t@),
            final(self).output@ == old(self).output@ + t@ + seq!['\n'],
            only_printed(*old(self), *final(self)),
    {
        let t = self.display_value(v);
        append_chars(&mut self.output, &t);
        self.output.push('\n');
        proof {
            assert(self.parts_fit(self.sizes()));
            assert(old(self).output@.is_prefix_of(self.output@));
        }
        t
    }

    /// A new Lox function closing over `env`.
    fn new_function(&mut self, name: &Option<Token>, function: &Rc<Function>, env: Environment) -> (r: Value)
        requires
            old(self).inv(),
            env.index < old(self).envs.view().len(),
        ensures
            final(self).inv(),
            grows(*old(self), *final(self)),
            final(self).value_ok(r),
            final(self).envs == old(self).envs,
            final(self).output == old(self).output,
            final(self).resolve_table == old(self).resolve_table,
            r == Value::Function(old(self).functions@.len() as usize),
            function_added(*old(self), *final(self), *name, *function, env),
    {
        let name = match name {
            Some(t) => {
                let n = t.lexeme.clone();
                assert(n@ == t.lexeme@);
                n
            },
            None => str_to_chars("__<fun_anon>"),
        };
        let mut parameters: Vec<Vec<char>> = Vec::new();
        let mut i: usize = 0;
        while i < function.parameters.len()
            invariant
                i <= function.parameters.len(),
                parameters@.len() == i,
                forall|j: int| 0 <= j < i ==> (#[trigger] parameters@[j])@ == function.parameters@[j].lexeme@,
            decreases function.parameters.len() - i,
        {
            let p = function.parameters[i].lexeme.clone();
            assert(p@ == function.parameters@[i as int].lexeme@);
            parameters.push(p);
            i = i + 1;
        }
        let index = self.functions.len();
        self.functions.push(
            FunctionObject {
                kind: FunctionKind::Lox,
                name,
                parameters,
                body: Some(rc_clone(function)),
                closure: env.index,
            },
        );
        proof {
            self.lemma_function_pushed(*old(self));
            assert(self.functions@.drop_last() =~= old(self).functions@);
        }
        Value::Function(index)
    }

    /// A built-in function.
    fn new_native(&mut self, kind: FunctionKind, name: &str) -> (r: Value)
        requires
            old(self).inv(),
        ensures
            final(self).inv(),
            grows(*old(self), *final(self)),
            final(self).value_ok(r),
            final(self).envs == old(self).envs,
            final(self).output == old(self).output,
            final(self).resolve_table == old(self).resolve_table,
    {
        let index = self.functions.len();
        self.functions.push(
            FunctionObject {
                kind,
                name: str_to_chars(name),
                parameters: Vec::new(),
                body: None,
                closure: self.global.index,
            },
        );
        proof {
            self.lemma_function_pushed(*old(self));
        }
        Value::Function(index)
    }

    /// Defines the built-in functions `clock` and `env` in a scope.
    fn define_natives(&mut self, env: Environment)
        requires
            old(self).inv(),
            env.index < old(self).envs.view().len(),
        ensures
            final(self).inv(),
            grows(*old(self), *final(self)),
            final(self).output == old(self).output,
            lookup(final(self).envs.view(), env.index as int, "clock"@) is Some,
            lookup(final(self).envs.view(), env.index as int, "env"@) is Some,
    {
        let clock = self.new_native(FunctionKind::Clock, "clock");
        self.define_in(env, str_to_chars("clock"), clock);
        let ghost after_clock = self.envs.view();
        proof {
            lemma_get_after_define(old(self).envs.view(), env.index as int, "clock"@, clock);
        }
        let envf = self.new_native(FunctionKind::Env, "env");
        self.define_in(env, str_to_chars("env"), envf);
        proof {
            reveal_strlit("clock");
            reveal_strlit("env");
            assert("clock"@.len() != "env"@.len());
            lemma_get_after_define(after_clock, env.index as int, "env"@, envf);
            crate::environment::lemma_define_keeps_other_names(
                after_clock,
                env.index as int,
                "env"@,
                envf,
                env.index as int,
                "clock"@,
            );
        }
    }

    /// Evaluates an expression in a scope.
    fn eval(&mut self, expr: &Expr, env: Environment, depth: u64) -> (r: Result<Value, InterpreterError>)
        requires
            old(self).inv(),
            env.index < old(self).envs.view().len(),
        ensures
            final(self).inv(),
            grows(*old(self), *final(self)),
            r matches Ok(v) ==> final(self).value_ok(v),
            depth > nesting(*expr) ==> (pure_outcome(*old(self), env, *expr) matches Some(outcome)
                ==> gives(r, outcome) && *final(self) == *old(self)),
            depth > nesting(*expr) ==> property_done(*old(self), *final(self), env, *expr, r),
            evaluates(*old(self), env, *expr, depth as nat, *final(self), r),
            depth > nesting(*expr) ==> (*expr matches Expr::Assignment(_, name, value) ==> (
            pure_outcome(*old(self), env, *value) matches Some(outcome) ==> assignment_done(
                *old(self),
                *final(self),
                env,
                name,
                outcome,
                r,
            ))),
        decreases depth, 0nat,
    {
        if depth == 0 {
            return Err(stack_overflow());
        }
        let d = depth - 1;
        match expr {
            Expr::Literal(token) => match token.token_type {
                TokenType::True => Ok(Value::Boolean(true)),
                TokenType::False => Ok(Value::Boolean(false)),
                TokenType::Nil => Ok(Value::Nil),
                _ => match &token.literal {
                    Some(Literal::Digit(n)) => Ok(Value::Number(*n)),
                    Some(Literal::String(text)) => {
                        let mut copy: Vec<char> = Vec::new();
                        append_chars(&mut copy, text);
                        let ghost c = copy@;
                        let v = self.new_string(copy);
                        proof {
                            assert(self.strings@.drop_last() =~= old(self).strings@);
                            assert(self.strings@.last()@ == c);
                        }
                        Ok(v)
                    },
                    None => Err(runtime_error("token should have a literal", token.line)),
                },
            },
            Expr::Logical(token, left, right) => {
                if token.token_type == TokenType::And || token.token_type == TokenType::Or {
                    let ghost s0 = *self;
                    let l = match self.eval(left, env, d) {
                        Ok(l) => l,
                        Err(x) => {
                            proof {
                                assert(evaluates(s0, env, **left, d as nat, *self, Err(x)));
                                assert(step_trigger(*self, Err(x)));
                                assert(evaluates(s0, env, *expr, depth as nat, *self, Err::<Value, InterpreterError>(x)));
                            }
                            return Err(x);
                        },
                    };
                    proof {
                        assert(evaluates(s0, env, **left, d as nat, *self, Ok(l)));
                        assert(step_trigger(*self, Ok(l)));
                    }
                    let t = is_truthy(l);
                    if (token.token_type == TokenType::Or && t) || (token.token_type
                        == TokenType::And && !t) {
                        Ok(l)
                    } else {
                        self.eval(right, env, d)
                    }
                } else {
                    Err(runtime_error("Logical operator should be 'or' or 'and'", token.line))
                }
            },
            Expr::Grouping(e) => self.eval(e, env, d),
            Expr::Unary(token, e) => {
                if token.token_type == TokenType::Minus || token.token_type == TokenType::Bang {
                    let ghost s0 = *self;
                    let v = match self.eval(e, env, d) {
                        Ok(v) => v,
                        Err(x) => {
                            proof {
                                assert(evaluates(s0, env, **e, d as nat, *self, Err(x)));
                                assert(step_trigger(*self, Err(x)));
                                assert(evaluates(s0, env, *expr, depth as nat, *self, Err::<Value, InterpreterError>(x)));
                            }
                            return Err(x);
                        },
                    };
                    proof {
                        assert(evaluates(s0, env, **e, d as nat, *self, Ok(v)));
                        assert(step_trigger(*self, Ok(v)));
                    }
                    if token.token_type == TokenType::Minus {
                        match v {
                            Value::Number(n) => Ok(Value::Number(num_neg(n))),
                            _ => Err(runtime_error("Operand must be a number", token.line)),
                        }
                    } else {
                        Ok(Value::Boolean(!is_truthy(v)))
                    }
                } else {
                    Err(runtime_error("Unrecognized unary expression", token.line))
                }
            },
            Expr::Binary(token, left, right) => {
                let ghost s0 = *self;
                let a = match self.eval(left, env, d) {
                    Ok(a) => a,
                    Err(x) => {
                        proof {
                            assert(evaluates(s0, env, **left, d as nat, *self, Err(x)));
                            assert(step_trigger(*self, Err(x)));
                            assert(evaluates(s0, env, *expr, depth as nat, *self, Err::<Value, InterpreterError>(x)));
                        }
                        return Err(x);
                    },
                };
                let ghost s1 = *self;
                proof {
                    assert(evaluates(s0, env, **left, d as nat, s1, Ok(a)));
                    assert(step_trigger(s1, Ok(a)));
                }
                let b = match self.eval(right, env, d) {
                    Ok(b) => b,
                    Err(x) => {
                        proof {
                            assert(evaluates(s1, env, **right, d as nat, *self, Err(x)));
                            assert(step_trigger(*self, Err(x)));
                            assert(evaluates(s0, env, *expr, depth as nat, *self, Err::<Value, InterpreterError>(x)));
                        }
                        return Err(x);
                    },
                };
                let ghost s2 = *self;
                proof {
                    assert(evaluates(s1, env, **right, d as nat, s2, Ok(b)));
                    assert(step_trigger(s2, Ok(b)));
                }
                let r = self.binary_values(token, a, b);
                proof {
                    assert(binary_done(s2, *self, *token, a, b, r));
                }
                r
            },
            Expr::Variable(id, token) | Expr::This(id, token) => {
                match self.lookup_variable(*id, &token.lexeme, env) {
                    Some(v) => Ok(v),
                    None => Err(named_error("Undefined variable in scope: '", &token.lexeme, "'", token.line)),
                }
            },
            Expr::Assignment(_, token, value) => {
                let ghost s0 = *self;
                let v = match self.eval(value, env, d) {
                    Ok(v) => v,
                    Err(x) => {
                        proof {
                            assert(evaluates(s0, env, **value, d as nat, *self, Err(x)));
                            assert(step_trigger(*self, Err(x)));
                            assert(evaluates(s0, env, *expr, depth as nat, *self, Err::<Value, InterpreterError>(x)));
                        }
                        return Err(x);
                    },
                };
                proof {
                    assert(evaluates(s0, env, **value, d as nat, *self, Ok(v)));
                    assert(step_trigger(*self, Ok(v)));
                }
                match self.assign_in(env, &token.lexeme, v) {
                    Ok(()) => Ok(v),
                    Err(()) => {
                        let e = named_error("Undefined variable '", &token.lexeme, "'", token.line);
                        proof {
                            reveal_strlit("Undefined variable '");
                            reveal_strlit("'");
                        }
                        Err(e)
                    },
                }
            },
            Expr::Call(callee, paren, arguments) => {
                let ghost s0 = *self;
                let callee_value = match self.eval(callee, env, d) {
                    Ok(v) => v,
                    Err(x) => {
                        proof {
                            assert(step_trigger(*self, Err(x)));
                        }
                        return Err(x);
                    },
                };
                let ghost s1 = *self;
                proof {
                    assert(step_trigger(*self, Ok(callee_value)));
                }
                let ghost es = arguments@;
                let mut args: Vec<Value> = Vec::new();
                let mut i: usize = 0;
                proof {
                    assert(es.subrange(0, 0).len() == 0);
                    assert(args@.len() == 0);
                }
                while i < arguments.len()
                    invariant
                        i <= arguments.len(),
                        es == arguments@,
                        pure_outcome(*old(self), env, *expr) is None,
                        *expr is Call,
                        self.inv(),
                        env.index < self.envs.view().len(),
                        grows(*old(self), *self),
                        d < depth,
                        d == depth - 1,
                        self.value_ok(callee_value),
                        forall|j: int| 0 <= j < args@.len() ==> self.value_ok(#[trigger] args@[j]),
                        s0 == *old(self),
                        *expr == Expr::Call(*callee, *paren, *arguments),
                        evaluates(s0, env, **callee, d as nat, s1, Ok(callee_value)),
                        evaluates_all(s1, env, es.subrange(0, i as int), d as nat, args@, *self, Ok(())),
                    decreases arguments.len() - i,
                {
                    let ghost before = *self;
                    let ghost vs_before = args@;
                    let rv = self.eval(&arguments[i], env, d);
                    proof {
                        assert(step_trigger(*self, rv));
                        assert(args_trigger(vs_before, before, Ok(())));
                        let sub = es.subrange(0, i + 1);
                        assert(sub.drop_last() =~= es.subrange(0, i as int));
                        assert(sub.last() == es[i as int]);
                    }
                    let v = match rv {
                        Ok(v) => v,
                        Err(x) => {
                            proof {
                                let sub = es.subrange(0, i + 1);
                                assert(evaluates_all(s1, env, sub, d as nat, vs_before, *self, Err(x)));
                                lemma_args_stop(s1, env, es, d as nat, i + 1, vs_before, *self, Err(x));
                                assert(args_trigger(vs_before, *self, Err(x)));
                                assert(step_trigger(s1, Ok(callee_value)));
                            }
                            return Err(x);
                        },
                    };
                    args.push(v);
                    proof {
                        let sub = es.subrange(0, i + 1);
                        assert(args@ == vs_before.push(v));
                        assert(evaluates_all(s1, env, sub, d as nat, args@, *self, Ok(())));
                    }
                    i = i + 1;
                }
                proof {
                    assert(es.subrange(0, i as int) =~= es);
                    assert(args_trigger(args@, *self, Ok(())));
                    assert(step_trigger(s1, Ok(callee_value)));
                }
                self.call_value(callee_value, args, paren.line, d)
            },
            Expr::Function(name, function) => Ok(self.new_function(name, function, env)),
            Expr::Get(object, name) => match {
                let ghost s0 = *self;
                let o = match self.eval(object, env, d) {
                    Ok(o) => o,
                    Err(x) => {
                        proof {
                            assert(evaluates(s0, env, **object, d as nat, *self, Err(x)));
                            assert(step_trigger(*self, Err(x)));
                            assert(evaluates(s0, env, *expr, depth as nat, *self, Err::<Value, InterpreterError>(x)));
                        }
                        return Err(x);
                    },
                };
                proof {
                    assert(evaluates(s0, env, **object, d as nat, *self, Ok(o)));
                    assert(step_trigger(*self, Ok(o)));
                }
                o
            } {
                Value::Instance(i) => self.instance_get(i, &name.lexeme),
                _ => {
                    let e = runtime_error("Only instances have properties", name.line);
                    proof {
                        reveal_strlit("Only instances have properties");
                    }
                    Err(e)
                },
            },
            Expr::SetProperty(object, name, value) => {
                let ghost s0 = *self;
                let o = match self.eval(object, env, d) {
                    Ok(o) => o,
                    Err(x) => {
                        proof {
                            assert(evaluates(s0, env, **object, d as nat, *self, Err(x)));
                            assert(step_trigger(*self, Err(x)));
                            assert(evaluates(s0, env, *expr, depth as nat, *self, Err::<Value, InterpreterError>(x)));
                        }
                        return Err(x);
                    },
                };
                let ghost s1 = *self;
                proof {
                    assert(evaluates(s0, env, **object, d as nat, s1, Ok(o)));
                    assert(step_trigger(s1, Ok(o)));
                }
                let v = match self.eval(value, env, d) {
                    Ok(v) => v,
                    Err(x) => {
                        proof {
                            assert(evaluates(s1, env, **value, d as nat, *self, Err(x)));
                            assert(step_trigger(*self, Err(x)));
                            assert(evaluates(s0, env, *expr, depth as nat, *self, Err::<Value, InterpreterError>(x)));
                        }
                        return Err(x);
                    },
                };
                proof {
                    assert(evaluates(s1, env, **value, d as nat, *self, Ok(v)));
                    assert(step_trigger(*self, Ok(v)));
                }
                match o {
                    Value::Instance(i) => {
                        self.instance_set(i, &name.lexeme, v);
                        Ok(Value::Nil)
                    },
                    _ => {
                        let e = runtime_error("Can only set properties on instances", name.line);
                        proof {
                            reveal_strlit("Can only set properties on instances");
                        }
                        Err(e)
                    },
                }
            },
            Expr::Super(id, _, method) => {
                let distance = if *id < self.resolve_table.len() {
                    self.resolve_table[*id]
                } else {
                    None
                };
                match distance {
                    Some(dist) => {
                        if dist == 0 {
                            return Err(named_error("Undefined 'super' or '", &method.lexeme, "' in scope", method.line));
                        }
                        let super_name = str_to_chars("super");
                        let this_name = str_to_chars("this");
                        let sc = env.get_at(&self.envs, &super_name, dist);
                        let this = env.get_at(&self.envs, &this_name, dist - 1);
                        proof {
                            lemma_lookup_at_fits(self.envs.view(), env.index as int, this_name@, (dist - 1) as nat, self.sizes());
                        }
                        match (sc, this) {
                            (Some(Value::Class(c)), Some(this)) => {
                                match (self.find_method(c, &method.lexeme), this) {
                                    (Some(f), Value::Instance(t)) => {
                                        self.bind(f, t)?;
                                        Ok(Value::Function(f))
                                    },
                                    _ => Err(named_error("Method '", &method.lexeme, "' not found on the super class", method.line)),
                                }
                            },
                            _ => Err(named_error("Undefined 'super' or '", &method.lexeme, "' in scope", method.line)),
                        }
                    },
                    None => Err(named_error("Undefined 'super' or '", &method.lexeme, "' in scope", method.line)),
                }
            },
        }
    }

    /// Calls a function, or a class to make an instance.
    fn call_value(&mut self, callee: Value, args: Vec<Value>, line: usize, depth: u64) -> (r: Result<Value, InterpreterError>)
        requires
            old(self).inv(),
            old(self).value_ok(callee),
            forall|i: int| 0 <= i < args@.len() ==> old(self).value_ok(#[trigger] args@[i]),
        ensures
            final(self).inv(),
            grows(*old(self), *final(self)),
            r matches Ok(v) ==> final(self).value_ok(v),
            call_runs(*old(self), callee, args@, line, depth as nat, *final(self), r),
        decreases depth, 0nat,
    {
        if depth == 0 {
            return Err(stack_overflow());
        }
        match callee {
            Value::Function(f) => {
                let arity = match self.functions[f].kind {
                    FunctionKind::Lox => self.functions[f].parameters.len(),
                    FunctionKind::Clock => 0,
                    FunctionKind::Env => 1,
                };
                assert(arity == spec_arity(self.functions@[f as int]));
                if args.len() != arity {
                    let mut message: Vec<char> = Vec::new();
                    append_str(&mut message, "Expected ");
                    append_decimal(&mut message, arity);
                    append_str(&mut message, " arguments for function '");
                    let shown = self.display_value(callee);
                    append_chars(&mut message, &shown);
                    append_str(&mut message, "' but got ");
                    append_decimal(&mut message, args.len());
                    let e = InterpreterError::evaluating(message, line);
                    proof {
                        reveal_strlit("Expected ");
                        reveal_strlit(" arguments for function '");
                        reveal_strlit("' but got ");
                        assert(e->InterpreterError_0.message@ =~= "Expected "@ + decimal(arity as nat)
                            + " arguments for function '"@ + shown@ + "' but got "@ + decimal(
                            args@.len(),
                        ));
                    }
                    return Err(e);
                }
                let rc = self.call_function(f, args, line, depth - 1);
                proof {
                    assert(run_trigger(*self, rc));
                }
                match rc {
                    Ok(StatementResult::Return(v)) => Ok(v),
                    Ok(StatementResult::Empty) => Ok(Value::Nil),
                    Err(x) => Err(x),
                }
            },
            Value::Class(c) => {
                let instance = self.new_instance(c);
                proof {
                    assert(state_trigger(*self));
                }
                let init_name = str_to_chars("init");
                match self.find_method(c, &init_name) {
                    Some(init) => {
                        let rb = self.bind(init, instance);
                        proof {
                            assert(bind_trigger(*self, rb));
                        }
                        match rb {
                            Err(x) => {
                                return Err(x);
                            },
                            Ok(()) => {},
                        }
                        let rc = self.call_function(init, args, line, depth - 1);
                        proof {
                            assert(run_trigger(*self, rc));
                        }
                        match rc {
                            Err(x) => {
                                return Err(x);
                            },
                            Ok(_) => {},
                        }
                    },
                    None => {},
                }
                Ok(Value::Instance(instance))
            },
            _ => Err(runtime_error("Can only call functions, instances and methods", line)),
        }
    }

    /// Runs the body of a function with the given arguments.
    fn call_function(&mut self, f: usize, args: Vec<Value>, line: usize, depth: u64) -> (r: Result<StatementResult, InterpreterError>)
        requires
            old(self).inv(),
            f < old(self).functions@.len(),
            forall|i: int| 0 <= i < args@.len() ==> old(self).value_ok(#[trigger] args@[i]),
        ensures
            final(self).inv(),
            grows(*old(self), *final(self)),
            r matches Ok(StatementResult::Return(v)) ==> final(self).value_ok(v),
            function_runs(*old(self), f, args@, line, depth as nat, *final(self), r),
        decreases depth, 0nat,
    {
        if depth == 0 {
            return Err(stack_overflow());
        }
        match self.functions[f].kind {
            FunctionKind::Clock => {
                let clock = Clock {};
                match clock.call(line) {
                    Ok(seconds) => Ok(StatementResult::Return(Value::Number(num_from_u64(seconds)))),
                    Err(e) => Err(e),
                }
            },
            FunctionKind::Env => {
                let envf = Env {};
                let key = if args.len() == 1 {
                    match args[0] {
                        Value::Str(i) => if i < self.strings.len() {
                            Some(&self.strings[i])
                        } else {
                            None
                        },
                        _ => None,
                    }
                } else {
                    None
                };
                proof {
                    assert(key matches Some(k) ==> env_key(*old(self), args@) == Some(k@));
                    assert(key is None ==> env_key(*old(self), args@) is None);
                }
                match envf.call(&self.env_vars, key, line) {
                    Ok(Some(text)) => {
                        let v = self.new_string(text);
                        proof {
                            assert(self.strings@.drop_last() =~= old(self).strings@);
                        }
                        Ok(StatementResult::Return(v))
                    },
                    Ok(None) => Ok(StatementResult::Return(Value::Nil)),
                    Err(e) => Err(e),
                }
            },
            FunctionKind::Lox => {
                let closure = self.functions[f].closure;
                let call_env = self.enclose_env(Environment { index: closure })?;
                let ghost entry = *self;
                let ghost fo = old(self).functions@[f as int];
                let ghost base = self.envs.view();
                let count = self.functions[f].parameters.len();
                let mut i: usize = 0;
                while i < count && i < args.len()
                    invariant
                        self.inv(),
                        call_env.index < self.envs.view().len(),
                        call_env.index == old(self).envs.view().len(),
                        grows(*old(self), *self),
                        f < self.functions@.len(),
                        forall|j: int| 0 <= j < args@.len() ==> self.value_ok(#[trigger] args@[j]),
                        count == fo.parameters@.len(),
                        self.functions == entry.functions,
                        entry.functions@[f as int] == fo,
                        same_but_envs(entry, *self),
                        i <= count,
                        i <= args@.len(),
                        self.envs.view() == params_bound(base, call_env.index as int, fo.parameters@, args@, i as nat),
                    decreases count - i,
                {
                    let name = self.functions[f].parameters[i].clone();
                    assert(name@ =~= fo.parameters@[i as int]@);
                    self.define_in(call_env, name, args[i]);
                    i = i + 1;
                }
                proof {
                    assert(state_trigger(*self));
                }
                let body = match &self.functions[f].body {
                    Some(b) => Some(rc_clone(b)),
                    None => None,
                };
                proof {
                    assert(body == fo.body);
                }
                match body {
                    Some(b) => {
                        proof {
                            assert(fo.body == Some(b));
                        }
                        self.execute_block(&b.body, call_env, depth - 1)
                    },
                    None => Ok(StatementResult::Empty),
                }
            },
        }
    }

    /// Runs statements in order in a scope; stops at a `return`.
    fn execute_block(&mut self, statements: &Vec<Statement>, env: Environment, depth: u64) -> (r: Result<StatementResult, InterpreterError>)
        requires
            old(self).inv(),
            env.index < old(self).envs.view().len(),
        ensures
            final(self).inv(),
            grows(*old(self), *final(self)),
            r matches Ok(StatementResult::Return(v)) ==> final(self).value_ok(v),
            block_runs(*old(self), env, statements@, depth as nat, *final(self), r),
        decreases depth, 0nat,
    {
        if depth == 0 {
            return Err(stack_overflow());
        }
        let ghost s0 = *self;
        let ghost ss = statements@;
        let mut i: usize = 0;
        proof {
            assert(ss.subrange(0, 0).len() == 0);
        }
        while i < statements.len()
            invariant
                i <= statements.len(),
                ss == statements@,
                s0 == *old(self),
                self.inv(),
                env.index < self.envs.view().len(),
                grows(*old(self), *self),
                depth > 0,
                executes_all(
                    s0,
                    env,
                    ss.subrange(0, i as int),
                    (depth - 1) as nat,
                    *self,
                    Ok(StatementResult::Empty),
                ),
            decreases statements.len() - i,
        {
            let ghost before = *self;
            let r1 = self.execute_statement(&statements[i], env, depth - 1);
            proof {
                let sub = ss.subrange(0, i + 1);
                assert(sub.drop_last() =~= ss.subrange(0, i as int));
                assert(sub.last() == ss[i as int]);
                assert(run_trigger(before, Ok(StatementResult::Empty)));
                assert(executes_all(s0, env, sub, (depth - 1) as nat, *self, r1));
                if !(r1 == Ok::<StatementResult, InterpreterError>(StatementResult::Empty)) {
                    lemma_skip_rest(s0, env, ss, (depth - 1) as nat, i + 1, *self, r1);
                }
            }
            match r1 {
                Err(x) => {
                    return Err(x);
                },
                Ok(StatementResult::Return(v)) => {
                    return Ok(StatementResult::Return(v));
                },
                Ok(StatementResult::Empty) => {},
            }
            i = i + 1;
        }
        proof {
            assert(ss.subrange(0, i as int) =~= ss);
        }
        Ok(StatementResult::Empty)
    }

    /// Runs a statement in a scope.
    fn execute_statement(&mut self, statement: &Statement, env: Environment, depth: u64) -> (r: Result<StatementResult, InterpreterError>)
        requires
            old(self).inv(),
            env.index < old(self).envs.view().len(),
        ensures
            final(self).inv(),
            grows(*old(self), *final(self)),
            r matches Ok(StatementResult::Return(v)) ==> final(self).value_ok(v),
            depth > 1 + statement_nesting(*statement) ==> pure_statement_done(
                *old(self),
                *final(self),
                env,
                *statement,
                r,
            ),
            executes(*old(self), env, *statement, depth as nat, *final(self), r),
        decreases depth, 0nat,
    {
        if depth == 0 {
            return Err(stack_overflow());
        }
        let d = depth - 1;
        match statement {
            Statement::Print(e) => {
                let v = match self.eval(e, env, d) {
                    Ok(v) => v,
                    Err(x) => {
                        proof {
                            assert(step_trigger(*self, Err(x)));
                        }
                        return Err(x);
                    },
                };
                proof {
                    assert(step_trigger(*self, Ok(v)));
                }
                let ghost evaluated = *self;
                let t = self.print_value(v);
                assert(evaluated.shows(v, t@) && self.output@ == evaluated.output@ + t@ + seq!['\n']);
                Ok(StatementResult::Empty)
            },
            Statement::Expression(e) => {
                let v = match self.eval(e, env, d) {
                    Ok(v) => v,
                    Err(x) => {
                        proof {
                            assert(step_trigger(*self, Err(x)));
                        }
                        return Err(x);
                    },
                };
                proof {
                    assert(step_trigger(*self, Ok(v)));
                }
                Ok(StatementResult::Empty)
            },
            Statement::Variable(token, initializer) => {
                let v = match initializer {
                    Some(e) => {
                        let v = match self.eval(e, env, d) {
                    Ok(v) => v,
                    Err(x) => {
                        proof {
                            assert(step_trigger(*self, Err(x)));
                        }
                        return Err(x);
                    },
                };
                proof {
                    assert(step_trigger(*self, Ok(v)));
                }
                        v
                    },
                    None => Value::Nil,
                };
                let name = token.lexeme.clone();
                assert(name@ =~= token.lexeme@);
                self.define_in(env, name, v);
                Ok(StatementResult::Empty)
            },
            Statement::Block(statements) => {
                let inner = self.enclose_env(env)?;
                proof {
                    assert(state_trigger(*self));
                }
                self.execute_block(statements, inner, d)
            },
            Statement::If(condition, then_branch, else_branch) => {
                let c = match self.eval(condition, env, d) {
                    Ok(c) => c,
                    Err(x) => {
                        proof {
                            assert(step_trigger(*self, Err(x)));
                        }
                        return Err(x);
                    },
                };
                proof {
                    assert(step_trigger(*self, Ok(c)));
                }

                if is_truthy(c) {
                    self.execute_statement(then_branch, env, d)
                } else {
                    match else_branch {
                        Some(e) => self.execute_statement(e, env, d),
                        None => Ok(StatementResult::Empty),
                    }
                }
            },
            Statement::While(condition, body) => {
                let mut budget: u64 = u64::MAX;
                let ghost mut first = true;
                let ghost s0 = *self;
                loop
                    invariant
                        *statement is While,
                        *statement == Statement::While(*condition, *body),
                        self.inv(),
                        env.index < self.envs.view().len(),
                        grows(*old(self), *self),
                        d < depth,
                        d == depth - 1,
                        first ==> *self == *old(self),
                        !first ==> (pure_outcome(*old(self), env, *condition) matches Some(Ok(v))
                            && spec_truthy(v)) || pure_outcome(*old(self), env, *condition) is None
                            || d <= nesting(*condition),
                        s0 == *old(self),
                        forall|t2: Interpreter, r2: Result<StatementResult, InterpreterError>|
                            #[trigger] while_runs(*self, env, *condition, **body, d as nat, budget as nat, t2, r2)
                                ==> while_runs(s0, env, *condition, **body, d as nat, u64::MAX as nat, t2, r2),
                    decreases budget,
                {
                    let ghost here = *self;
                    let c = match self.eval(condition, env, d) {
                        Ok(c) => c,
                        Err(x) => {
                            proof {
                                assert(step_trigger(*self, Err(x)));
                                assert(while_runs(here, env, *condition, **body, d as nat, budget as nat, *self, Err(x)));
                            }
                            return Err(x);
                        },
                    };
                    let ghost tested = *self;
                    proof {
                        assert(step_trigger(*self, Ok(c)));
                    }
                    if !is_truthy(c) {
                        proof {
                            assert(while_runs(here, env, *condition, **body, d as nat, budget as nat, *self, Ok(StatementResult::Empty)));
                        }
                        return Ok(StatementResult::Empty);
                    }
                    proof {
                        first = false;
                    }
                    let rb = self.execute_statement(body, env, d);
                    proof {
                        assert(run_trigger(*self, rb));
                        assert(executes(tested, env, **body, d as nat, *self, rb));
                    }
                    match rb {
                        Err(x) => {
                            proof {
                                assert(while_runs(here, env, *condition, **body, d as nat, budget as nat, *self, Err(x)));
                            }
                            return Err(x);
                        },
                        Ok(StatementResult::Return(v)) => {
                            proof {
                                assert(while_runs(here, env, *condition, **body, d as nat, budget as nat, *self, Ok(StatementResult::Return(v))));
                            }
                            return Ok(StatementResult::Return(v));
                        },
                        Ok(StatementResult::Empty) => {},
                    }
                    if budget == 0 {
                        let e = InterpreterError::RuntimeError(
                            ErrorMessage::from_str("Loop ran too long", None),
                        );
                        proof {
                            assert(while_runs(here, env, *condition, **body, d as nat, budget as nat, *self, Err(e)));
                        }
                        return Err(e);
                    }
                    proof {
                        let nb = (budget - 1) as nat;
                        assert forall|t2: Interpreter, r2: Result<StatementResult, InterpreterError>|
                            #[trigger] while_runs(*self, env, *condition, **body, d as nat, nb, t2, r2)
                            implies while_runs(s0, env, *condition, **body, d as nat, u64::MAX as nat, t2, r2) by {
                            assert(while_runs(here, env, *condition, **body, d as nat, budget as nat, t2, r2));
                        }
                    }
                    budget = budget - 1;
                }
            },
            Statement::Return(_, value) => {
                let v = match value {
                    Some(e) => {
                        let v = match self.eval(e, env, d) {
                    Ok(v) => v,
                    Err(x) => {
                        proof {
                            assert(step_trigger(*self, Err(x)));
                        }
                        return Err(x);
                    },
                };
                proof {
                    assert(step_trigger(*self, Ok(v)));
                }
                        v
                    },
                    None => Value::Nil,
                };
                Ok(StatementResult::Return(v))
            },
            Statement::Class(name, methods, superclass) => self.declare_class(name, methods, superclass, env, d),
        }
    }

    /// Runs a class declaration in scope `env`, evaluating its parts with
    /// depth budget `d`.
    fn declare_class(
        &mut self,
        name: &Token,
        methods: &Vec<Expr>,
        superclass: &Option<Expr>,
        env: Environment,
        d: u64,
    ) -> (r: Result<StatementResult, InterpreterError>)
        requires
            old(self).inv(),
            env.index < old(self).envs.view().len(),
        ensures
            final(self).inv(),
            grows(*old(self), *final(self)),
            r is Ok ==> r == Ok::<StatementResult, InterpreterError>(StatementResult::Empty),
            class_runs(*old(self), env, *name, methods@, *superclass, d as nat, *final(self), r),
        decreases d, 1nat,
    {
        let ghost s0 = *self;
        let cname = name.lexeme.clone();
        assert(cname@ == name.lexeme@);
        self.define_in(env, cname, Value::Nil);
        let ghost s1 = *self;
        proof {
            assert(state_trigger(s1));
        }
        let mut method_env = env;
        let mut super_value: Option<Value> = None;
        match superclass {
            Some(sc) => {
                let me = match self.enclose_env(env) {
                    Ok(e) => e,
                    Err(x) => {
                        proof {
                            assert(scopes_full(s1));
                            assert(class_runs(s0, env, *name, methods@, *superclass, d as nat, *self, Err(x)));
                        }
                        return Err(x);
                    },
                };
                let ghost s2 = *self;
                proof {
                    assert(state_trigger(s2));
                    assert(scope_added(s1, s2, env.index));
                }
                method_env = me;
                let rv = self.eval(sc, env, d);
                proof {
                    assert(step_trigger(*self, rv));
                }
                match rv {
                    Ok(v) => {
                        super_value = Some(v);
                        proof {
                            assert(evaluates(s2, env, *sc, d as nat, *self, Ok(v)));
                            assert forall|t2: Interpreter, r2: Result<StatementResult, InterpreterError>|
                                #[trigger] class_body(*self, env, method_env, *name, methods@, super_value, d as nat, t2, r2)
                                implies class_runs(s0, env, *name, methods@, *superclass, d as nat, t2, r2) by {
                                assert(step_trigger(*self, Ok(v)));
                            }
                        }
                    },
                    Err(x) => {
                        proof {
                            assert(evaluates(s2, env, *sc, d as nat, *self, Err(x)));
                            assert(class_runs(s0, env, *name, methods@, *superclass, d as nat, *self, Err(x)));
                        }
                        return Err(x);
                    },
                }
            },
            None => {},
        }
        let ghost sb = *self;
        proof {
            assert forall|t2: Interpreter, r2: Result<StatementResult, InterpreterError>|
                #[trigger] class_body(sb, env, method_env, *name, methods@, super_value, d as nat, t2, r2)
                implies class_runs(s0, env, *name, methods@, *superclass, d as nat, t2, r2) by {
            }
            assert(methods@.subrange(0, 0).len() == 0);
        }
        let mut table: Vec<(Vec<char>, usize)> = Vec::new();
        let ghost mut gtable: Seq<(Seq<char>, usize)> = Seq::empty();
        let mut i: usize = 0;
        while i < methods.len()
            invariant
                self.inv(),
                env.index < self.envs.view().len(),
                method_env.index < self.envs.view().len(),
                grows(*old(self), *self),
                i <= methods.len(),
                super_value matches Some(sv) ==> self.value_ok(sv),
                forall|j: int| 0 <= j < table@.len() ==> (#[trigger] table@[j]).1 < self.functions@.len(),
                methods_made(sb, method_env, methods@.subrange(0, i as int), d as nat, name.line, gtable, *self, Ok(())),
                table@.len() == gtable.len(),
                forall|j: int| 0 <= j < gtable.len() ==> (#[trigger] table@[j]).0@ == gtable[j].0 && table@[j].1 == gtable[j].1,
                forall|t2: Interpreter, r2: Result<StatementResult, InterpreterError>|
                    #[trigger] class_body(sb, env, method_env, *name, methods@, super_value, d as nat, t2, r2)
                    ==> class_runs(s0, env, *name, methods@, *superclass, d as nat, t2, r2),
                s0 == *old(self),
            decreases methods.len() - i,
        {
            let ghost before = *self;
            let ghost tb = gtable;
            let rv = self.eval(&methods[i], method_env, d);
            proof {
                assert(step_trigger(*self, rv));
                assert(methods_trigger(tb, before, Ok(())));
                let sub = methods@.subrange(0, i + 1);
                assert(sub.drop_last() =~= methods@.subrange(0, i as int));
                assert(sub.last() == methods@[i as int]);
            }
            match rv {
                Ok(Value::Function(f)) => {
                    let fname = self.functions[f].name.clone();
                    assert(fname@ == self.functions@[f as int].name@);
                    table.push((fname, f));
                    proof {
                        gtable = tb.push((fname@, f));
                        let sub = methods@.subrange(0, i + 1);
                        assert(methods_made(sb, method_env, sub, d as nat, name.line, gtable, *self, Ok(())));
                    }
                },
                Ok(_) => {
                    let e = runtime_error("class can only contain functions", name.line);
                    proof {
                        let sub = methods@.subrange(0, i + 1);
                        assert(methods_made(sb, method_env, sub, d as nat, name.line, tb, *self, Err(e)));
                        lemma_methods_stop(sb, method_env, methods@, d as nat, name.line, i + 1, tb, *self, Err(e));
                        assert(methods_trigger(tb, *self, Err(e)));
                        assert(class_body(sb, env, method_env, *name, methods@, super_value, d as nat, *self, Err(e)));
                    }
                    return Err(e);
                },
                Err(x) => {
                    proof {
                        let sub = methods@.subrange(0, i + 1);
                        assert(methods_made(sb, method_env, sub, d as nat, name.line, tb, *self, Err(x)));
                        lemma_methods_stop(sb, method_env, methods@, d as nat, name.line, i + 1, tb, *self, Err(x));
                        assert(methods_trigger(tb, *self, Err(x)));
                        assert(class_body(sb, env, method_env, *name, methods@, super_value, d as nat, *self, Err(x)));
                    }
                    return Err(x);
                },
            }
            i = i + 1;
        }
        let ghost sm = *self;
        proof {
            assert(methods@.subrange(0, i as int) =~= methods@);
            assert(methods_trigger(gtable, sm, Ok(())));
        }
        let super_class = match super_value {
            Some(Value::Class(sc)) => {
                self.define_in(method_env, str_to_chars("super"), Value::Class(sc));
                proof {
                    assert(state_trigger(*self));
                }
                Some(sc)
            },
            Some(_) => {
                let e = runtime_error("super class must be a class type", name.line);
                proof {
                    assert(class_body(sb, env, method_env, *name, methods@, super_value, d as nat, *self, Err(e)));
                }
                return Err(e);
            },
            None => None,
        };
        let ghost sd = *self;
        let cname2 = name.lexeme.clone();
        assert(cname2@ == name.lexeme@);
        let c = self.new_class(cname2, table, super_class);
        let ghost sc2 = *self;
        proof {
            assert(state_trigger(sc2));
            assert(sc2.classes@.drop_last() =~= sd.classes@);
            assert(class_added(sd, sc2, name.lexeme@, gtable, super_class));
        }
        let _ = self.assign_in(env, &name.lexeme, Value::Class(c));
        proof {
            assert(class_declared(sd, env, name.lexeme@, gtable, super_class, *self, Ok(StatementResult::Empty)));
            assert(class_body(sb, env, method_env, *name, methods@, super_value, d as nat, *self, Ok(StatementResult::Empty)));
        }
        Ok(StatementResult::Empty)
    }

}

/// Once a class's first method expressions have failed, later ones do not
/// matter.
proof fn lemma_methods_stop(
    s: Interpreter,
    menv: Environment,
    ms: Seq<Expr>,
    d: nat,
    line: usize,
    i: int,
    table: Seq<(Seq<char>, usize)>,
    t: Interpreter,
    r: Result<(), InterpreterError>,
)
    requires
        0 <= i <= ms.len(),
        methods_made(s, menv, ms.subrange(0, i), d, line, table, t, r),
        r is Err,
    ensures
        methods_made(s, menv, ms, d, line, table, t, r),
    decreases ms.len() - i,
{
    if i == ms.len() {
        assert(ms.subrange(0, i) =~= ms);
    } else {
        assert(ms.drop_last().subrange(0, i) =~= ms.subrange(0, i));
        lemma_methods_stop(s, menv, ms.drop_last(), d, line, i, table, t, r);
        assert(methods_trigger(table, t, r));
    }
}


/// The text of the error `run` and `evaluate` give once the program was
/// used already.
pub open spec fn used_text() -> Seq<char> {
    "Error: Interpreter's statements have already been consumed."@
}

fn used_error() -> (r: InterpreterError)
    ensures
        crate::errors::spec_error_text(r) == used_text(),
{
    let e = InterpreterError::InterpreterError(
        ErrorMessage::from_str("Interpreter's statements have already been consumed", None),
    );
    proof {
        reveal_strlit("Interpreter's statements have already been consumed");
        reveal_strlit("Error: ");
        reveal_strlit(".");
        reveal_strlit("Error: Interpreter's statements have already been consumed.");
        assert(crate::errors::spec_error_text(e) =~= used_text());
    }
    e
}

impl Interpreter {
    /// An interpreter for the program a parser reads, with the built-in
    /// functions defined in its global scope and nothing printed yet.
    pub fn new(parser: Parser) -> (r: Interpreter)
        requires
            parser.wf(),
        ensures
            r.inv(),
            r.parser == Some(parser),
            r.output@.len() == 0,
            !r.has_parsing_errors,
            lookup(r.envs.view(), r.global.index as int, "clock"@) is Some,
            lookup(r.envs.view(), r.global.index as int, "env"@) is Some,
    {
        let mut envs: Environments<Value> = Environments::new();
        let global = Environment::new(&mut envs);
        let mut me = Interpreter {
            parser: Some(parser),
            envs,
            global,
            strings: Vec::new(),
            functions: Vec::new(),
            classes: Vec::new(),
            instances: Vec::new(),
            resolve_table: Vec::new(),
            output: Vec::new(),
            has_parsing_errors: false,
            env_vars: Vec::new(),
        };
        proof {
            assert(frames_fit(me.envs.view(), me.sizes()));
            assert(me.functions@.len() == 0 && me.classes@.len() == 0 && me.instances@.len() == 0);
            assert(me.parts_fit(me.sizes()));
        }
        me.define_natives(global);
        me
    }

    /// An interpreter for a source text.
    pub fn build(content: &str) -> (r: Result<Interpreter, InterpreterError>)
        requires
            content@.len() < usize::MAX - 3,
        ensures
            r matches Ok(i) && i.inv() && i.parser is Some && i.output@.len() == 0,
            r matches Ok(i) && (i.parser matches Some(p) && (p.errors is None && p.next_id == 0
                && (p.tokens matches Some(t) && (t.pos == 0 && t.line == 1 && !t.has_reached_eof
                && t.content@ == crate::scanner::line_stream(content@))))),
            r matches Ok(i) && !i.has_parsing_errors,
    {
        let parser = Parser::build(content)?;
        Ok(Interpreter::new(parser))
    }

    /// Sets the environment variables the built-in `env` function reads.
    pub fn set_env_vars(&mut self, vars: Vec<(Vec<char>, Vec<char>)>)
        ensures
            final(self).env_vars == vars,
            final(self).parser == old(self).parser,
            final(self).envs == old(self).envs,
            final(self).global == old(self).global,
            final(self).output == old(self).output,
    {
        self.env_vars = vars;
    }

    /// The text printed so far.
    pub fn output_string(&self) -> (r: String)
        ensures
            r@ == self.output@,
    {
        chars_to_string(&self.output)
    }

    /// A fresh global scope with the built-in functions.
    fn new_global_environment(&mut self) -> (r: Result<Environment, InterpreterError>)
        requires
            old(self).inv(),
        ensures
            final(self).inv(),
            grows(*old(self), *final(self)),
            final(self).output == old(self).output,
            r matches Ok(e) ==> e.index < final(self).envs.view().len(),
            r is Ok <==> old(self).envs.view().len() < usize::MAX - 8,
    {
        if self.envs.len() >= usize::MAX - 8 {
            return Err(
                InterpreterError::RuntimeError(ErrorMessage::from_str("Out of memory", None)),
            );
        }
        let ghost before = *self;
        let env = Environment::new(&mut self.envs);
        proof {
            lemma_frames_fit_push(before.envs.view(), None, before.sizes());
            assert(self.sizes() == before.sizes());
            assert forall|i: int| 0 <= i < self.functions@.len() implies (
            #[trigger] self.functions@[i]).closure < self.envs.view().len() by {
                assert(self.functions@[i] == before.functions@[i]);
            }
            assert(self.parts_fit(self.sizes()));
        }
        self.define_natives(env);
        Ok(env)
    }

    /// Evaluates the source as one expression and prints its value, with
    /// no newline. Fails with the parsing errors when there were any, with
    /// the runtime error when evaluation fails, and when the program was
    /// used already.
    pub fn evaluate(&mut self) -> (r: Result<(), InterpreterError>)
        requires
            old(self).inv(),
        ensures
            final(self).inv(),
            final(self).parser is None,
            old(self).output@.is_prefix_of(final(self).output@),
            old(self).parser is None ==> (r matches Err(e) && crate::errors::spec_error_text(e)
                == used_text()) && final(self).output == old(self).output,
            old(self).parser matches Some(p) && p.tokens matches Some(t) && !(spec_expression(
                cursor_items(t),
                p.next_id,
            ).parsed is Got) ==> r is Err,
            old(self).parser matches Some(p) ==> (p.tokens matches Some(tk) ==> (spec_expression(
                cursor_items(tk),
                p.next_id,
            ).parsed matches Parsed::Got(ev) ==> (old(self).envs.view().len() < usize::MAX - 8
                ==> exists|e: Expr, s1: Interpreter, genv: Environment, s2: Interpreter, r1: Result<
                Value,
                InterpreterError,
            >|
                #[trigger] source_trigger(e, s1, genv, s2, r1) && expr_view(e) == ev && s1.output
                    == old(self).output && genv.index
                    < s1.envs.view().len() && evaluates(
                    s1,
                    genv,
                    e,
                    MAX_DEPTH as nat,
                    s2,
                    r1,
                ) && match r1 {
                    Err(x) => r == Err::<(), InterpreterError>(x) && *final(self) == s2,
                    Ok(v) => (if spec_expression(cursor_items(tk), p.next_id).clean {
                        r is Ok
                    } else {
                        r matches Err(InterpreterError::ParsingErrors(_))
                    }) && exists|text: Seq<char>|
                        #[trigger] s2.shows(v, text) && final(self).output@ == s2.output@ + text,
                }))),
    {
        let mut parser = match self.parser.take() {
            Some(p) => p,
            None => {
                return Err(used_error());
            },
        };
        match parser.parse_expression()? {
            Some(expr) => {
                let env = self.new_global_environment()?;
                let ghost s1 = *self;
                let r1 = self.eval(&expr, env, MAX_DEPTH);
                proof {
                    assert(source_trigger(expr, s1, env, *self, r1));
                }
                let result = match r1 {
                    Ok(v) => v,
                    Err(x) => {
                        return Err(x);
                    },
                };
                let ghost s2 = *self;
                let text = self.display_value(result);
                append_chars(&mut self.output, &text);
                proof {
                    assert(s2.shows(result, text@));
                }
            },
            None => {},
        }
        match parser.errors() {
            Some(errors) => Err(errors),
            None => Ok(()),
        }
    }

    /// Runs the source as a program: parses all statements, resolves
    /// them, and executes them in order in the global scope, printing as
    /// they go. Fails with the first resolution or runtime error, then
    /// with the parsing errors if there were any, and when the program was
    /// used already.
    pub fn run(&mut self) -> (r: Result<(), InterpreterError>)
        requires
            old(self).inv(),
        ensures
            final(self).inv(),
            final(self).parser is None,
            old(self).output@.is_prefix_of(final(self).output@),
            old(self).parser is None ==> (r matches Err(e) && crate::errors::spec_error_text(e)
                == used_text()) && final(self).output == old(self).output,
            old(self).parser matches Some(p) && p.tokens matches Some(t) && spec_program(
                cursor_items(t),
                p.next_id,
            ) is None ==> r is Err,
            old(self).parser matches Some(p) ==> (p.tokens matches Some(tk) ==> (spec_program(
                cursor_items(tk),
                p.next_id,
            ) matches Some(prog) ==> exists|ss: Seq<Statement>|
                #[trigger] stmts_view(ss) == prog && match resolve_stmts(fresh_resolution(), ss) {
                    Err(e) => r matches Err(InterpreterError::InterpreterError(m)) && m.message@
                        == e.message && m.line == e.line && final(self).output == old(self).output,
                    Ok(rs) => exists|
                        s1: Interpreter,
                        r1: Result<(), InterpreterError>,
                    |
                        #[trigger] program_trigger(s1, r1) && ready_to_run(*old(self), s1, rs.table)
                            && program_runs(s1, old(self).global, ss, MAX_DEPTH as nat, *final(self), r1) && match r1 {
                            Err(x) => r == Err::<(), InterpreterError>(x),
                            Ok(_) => if spec_program_clean(cursor_items(tk), p.next_id) {
                                r is Ok
                            } else {
                                r matches Err(InterpreterError::ParsingErrors(_))
                            },
                        },
                })),
    {
        let environment = self.global;
        let mut parser = match self.parser.take() {
            Some(p) => p,
            None => {
                return Err(used_error());
            },
        };
        let statements = parser.parse()?;
        let mut resolver = Resolver::new();
        resolver.resolve(&statements)?;
        self.resolve_table = dense_table(&resolver.resolve_table, parser.id_count());
        let ghost s1 = *self;
        let ghost ss = statements@;
        proof {
            assert(ready_to_run(*old(self), s1, resolver@.table));
            assert(ss.subrange(0, 0).len() == 0);
        }
        let mut i: usize = 0;
        while i < statements.len()
            invariant
                self.inv(),
                environment == self.global,
                environment == s1.global,
                self.parser is None,
                old(self).parser is Some,
                old(self).output@.is_prefix_of(self.output@),
                ss == statements@,
                i <= statements.len(),
                ready_to_run(*old(self), s1, resolver@.table),
                resolve_stmts(fresh_resolution(), ss) == Ok::<ResolveState, ResolveError>(resolver@),
                old(self).parser matches Some(p) ==> (p.tokens matches Some(tk) ==> (spec_program(
                    cursor_items(tk),
                    p.next_id,
                ) matches Some(prog) ==> stmts_view(ss) == prog)),
                program_runs(
                    s1,
                    environment,
                    ss.subrange(0, i as int),
                    MAX_DEPTH as nat,
                    *self,
                    Ok(()),
                ),
            decreases statements.len() - i,
        {
            let ghost before = *self;
            let ri = self.execute_statement(&statements[i], environment, MAX_DEPTH);
            proof {
                let sub = ss.subrange(0, i + 1);
                assert(sub.drop_last() =~= ss.subrange(0, i as int));
                assert(sub.last() == ss[i as int]);
                assert(program_trigger(before, Ok(())));
                assert(run_trigger(*self, ri));
                if ri is Err {
                    let x = ri->Err_0;
                    assert(program_runs(s1, environment, sub, MAX_DEPTH as nat, *self, Err(x)));
                    lemma_program_stops(s1, environment, ss, MAX_DEPTH as nat, i + 1, *self, Err(x));
                } else {
                    assert(program_runs(s1, environment, sub, MAX_DEPTH as nat, *self, Ok(())));
                }
            }
            match ri {
                Err(x) => {
                    proof {
                        assert(program_trigger(s1, Err::<(), InterpreterError>(x)));
                    }
                    return Err(x);
                },
                Ok(_) => {},
            }
            i = i + 1;
        }
        proof {
            assert(ss.subrange(0, i as int) =~= ss);
            assert(program_trigger(s1, Ok(())));
        }
        match parser.errors() {
            Some(errors) => Err(errors),
            None => Ok(()),
        }
    }
}

} // verus!
