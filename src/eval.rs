//! Evaluating Frothy syntax trees against a variable environment.

use vstd::prelude::*;
use vstd::string::*;

use crate::ast::{
    asts_view, copy_asts, lemma_asts_view, parse_program, Ast, Literal, Parser, SpecAst, SpecLiteral,
};
use crate::error::{Error, SpecError};
use crate::token::Numeral;

verus! {

/// The four arithmetic operations.
#[derive(Clone, Copy, Debug, PartialEq, Eq, Structural)]
pub enum BinOp {
    Add,
    Subtract,
    Multiply,
    Divide,
}

/// A number, held as the exact arithmetic that produced it: a literal, the constant
/// π, or an operation on two numbers. The number it stands for is the IEEE-754
/// double that the term computes: a literal's digits read as a double and negated
/// when marked negative, π, or the double operation on the operands' values (so
/// division by zero and NaN behave as IEEE prescribes). That value is a function of
/// the term alone; computing it is floating-point work, left to the host.
#[derive(Debug)]
pub enum Num {
    Literal(Numeral),
    Pi,
    Binary(BinOp, Box<Num>, Box<Num>),
}

/// What a [`Num`] stands for.
pub enum SpecNum {
    Literal((bool, Seq<char>)),
    Pi,
    Binary(BinOp, Box<SpecNum>, Box<SpecNum>),
}

/// The native functions that a builtin value can run. They are a closed set, each
/// verified with the library; a host registers them under names of its choice
/// with [`Context::builtin_func`].
#[derive(Clone, Copy, Debug, PartialEq, Eq, Structural)]
pub enum Native {
    /// Writes the value of `print_arg` as a line of output, to the interpreter's
    /// list of printed values, and returns `Nil`.
    Print,
}

/// A Frothy value.
#[derive(Debug)]
pub enum Value {
    Number(Num),
    Boolean(bool),
    Nil,
    /// A function: its body, with no captured environment.
    Func(Vec<Ast>),
    /// A native function, with the name it was registered under.
    BuiltinFunc(String, Native),
}

/// What a [`Value`] stands for.
pub enum SpecValue {
    Number(SpecNum),
    Boolean(bool),
    Nil,
    Func(Seq<SpecAst>),
    BuiltinFunc(Seq<char>, Native),
}

/// Errors met while evaluating.
#[derive(Debug)]
pub enum InterpreterError {
    /// A name with no binding.
    VariableUndefined(String),
    /// A call of a value that is neither a function nor a builtin.
    NotCallable(Value),
    /// Function calls nested deeper than the interpreter allows.
    CallDepthExceeded,
}

pub open spec fn num_view(n: Num) -> SpecNum
    decreases n,
{
    match n {
        Num::Literal(l) => SpecNum::Literal(l@),
        Num::Pi => SpecNum::Pi,
        Num::Binary(op, a, b) => SpecNum::Binary(op, Box::new(num_view(*a)), Box::new(num_view(*b))),
    }
}

impl View for Num {
    type V = SpecNum;

    open spec fn view(&self) -> SpecNum {
        num_view(*self)
    }
}

impl View for Value {
    type V = SpecValue;

    open spec fn view(&self) -> SpecValue {
        match self {
            Value::Number(n) => SpecValue::Number(n@),
            Value::Boolean(b) => SpecValue::Boolean(*b),
            Value::Nil => SpecValue::Nil,
            Value::Func(body) => SpecValue::Func(asts_view(body@)),
            Value::BuiltinFunc(name, f) => SpecValue::BuiltinFunc(name@, *f),
        }
    }
}

impl Num {
    /// A copy of this number.
    pub fn copy(&self) -> (r: Num)
        ensures
            r@ == self@,
        decreases self,
    {
        match self {
            Num::Literal(l) => Num::Literal(l.copy()),
            Num::Pi => Num::Pi,
            Num::Binary(op, a, b) => Num::Binary(*op, Box::new((**a).copy()), Box::new((**b).copy())),
        }
    }
}

impl Value {
    /// A copy of this value.
    pub fn copy(&self) -> (r: Value)
        ensures
            r@ == self@,
    {
        match self {
            Value::Number(n) => Value::Number(n.copy()),
            Value::Boolean(b) => Value::Boolean(*b),
            Value::Nil => Value::Nil,
            Value::Func(body) => Value::Func(copy_asts(body)),
            Value::BuiltinFunc(name, f) => Value::BuiltinFunc(name.clone(), *f),
        }
    }
}


pub open spec fn result_view(r: Result<Value, Error>) -> Result<SpecValue, SpecError> {
    match r {
        Ok(v) => Ok(v@),
        Err(e) => Err(e@),
    }
}

/// The environment that the bindings `vars` make, a later binding of a name
/// replacing an earlier one.
pub open spec fn env_of(vars: Seq<(String, Value)>) -> Map<Seq<char>, SpecValue>
    decreases vars.len(),
{
    if vars.len() == 0 {
        Map::empty()
    } else {
        env_of(vars.drop_last()).insert(vars.last().0@, vars.last().1@)
    }
}

/// No name is bound twice in `vars`.
pub open spec fn distinct_names(vars: Seq<(String, Value)>) -> bool {
    forall|i: int, j: int| 0 <= i < j < vars.len() ==> #[trigger] vars[i].0@ != #[trigger] vars[j].0@
}

proof fn lemma_distinct_drop_last(vars: Seq<(String, Value)>)
    requires
        distinct_names(vars),
        vars.len() > 0,
    ensures
        distinct_names(vars.drop_last()),
{
    let d = vars.drop_last();
    assert forall|x: int, y: int| 0 <= x < y < d.len() implies #[trigger] d[x].0@ != #[trigger] d[y].0@ by {
        assert(d[x] == vars[x]);
        assert(d[y] == vars[y]);
    }
}

proof fn lemma_distinct_push(vars: Seq<(String, Value)>, b: (String, Value))
    requires
        distinct_names(vars),
        forall|j: int| 0 <= j < vars.len() ==> #[trigger] vars[j].0@ != b.0@,
    ensures
        distinct_names(vars.push(b)),
        env_of(vars.push(b)) == env_of(vars).insert(b.0@, b.1@),
{
    let p = vars.push(b);
    assert(p.drop_last() =~= vars);
    assert forall|x: int, y: int| 0 <= x < y < p.len() implies #[trigger] p[x].0@ != #[trigger] p[y].0@ by {
        assert(p[x] == vars[x]);
        if y < vars.len() {
            assert(p[y] == vars[y]);
            assert(vars[x].0@ != vars[y].0@);
        } else {
            assert(p[y] == b);
            assert(vars[x].0@ != b.0@);
        }
    }
}

proof fn lemma_env_has(vars: Seq<(String, Value)>, i: int)
    requires
        distinct_names(vars),
        0 <= i < vars.len(),
    ensures
        env_of(vars).contains_key(vars[i].0@),
        env_of(vars)[vars[i].0@] == vars[i].1@,
    decreases vars.len(),
{
    if i < vars.len() - 1 {
        lemma_distinct_drop_last(vars);
        lemma_env_has(vars.drop_last(), i);
        assert(vars.drop_last()[i] == vars[i]);
        assert(vars[i].0@ != vars[vars.len() - 1].0@);
    }
}

proof fn lemma_env_lacks(vars: Seq<(String, Value)>, k: Seq<char>)
    requires
        forall|i: int| 0 <= i < vars.len() ==> #[trigger] vars[i].0@ != k,
    ensures
        !env_of(vars).contains_key(k),
    decreases vars.len(),
{
    if vars.len() > 0 {
        assert forall|i: int| 0 <= i < vars.drop_last().len() implies #[trigger] vars.drop_last()[i].0@ != k by {
            assert(vars.drop_last()[i] == vars[i]);
        }
        lemma_env_lacks(vars.drop_last(), k);
        assert(vars[vars.len() - 1].0@ != k);
    }
}

proof fn lemma_env_update(vars: Seq<(String, Value)>, i: int, b: (String, Value))
    requires
        distinct_names(vars),
        0 <= i < vars.len(),
        vars[i].0@ == b.0@,
    ensures
        env_of(vars.update(i, b)) == env_of(vars).insert(b.0@, b.1@),
        distinct_names(vars.update(i, b)),
    decreases vars.len(),
{
    let n = vars.len();
    let u = vars.update(i, b);
    assert forall|x: int, y: int| 0 <= x < y < u.len() implies #[trigger] u[x].0@ != #[trigger] u[y].0@ by {
        assert(u[x].0@ == vars[x].0@);
        assert(u[y].0@ == vars[y].0@);
        assert(vars[x].0@ != vars[y].0@);
    }
    if i == n - 1 {
        assert(u.drop_last() =~= vars.drop_last());
        assert(env_of(u) =~= env_of(vars).insert(b.0@, b.1@));
    } else {
        assert(u.drop_last() =~= vars.drop_last().update(i, b));
        lemma_distinct_drop_last(vars);
        assert(vars.drop_last()[i] == vars[i]);
        lemma_env_update(vars.drop_last(), i, b);
        assert(vars[i].0@ != vars[n - 1].0@);
        assert(u.last() == vars.last());
        assert(env_of(u) =~= env_of(vars).insert(b.0@, b.1@));
    }
}

/// The variable environment: one namespace of bindings from names to values.
pub struct Context {
    vars: Vec<(String, Value)>,
}

impl View for Context {
    type V = Map<Seq<char>, SpecValue>;

    closed spec fn view(&self) -> Map<Seq<char>, SpecValue> {
        env_of(self.vars@)
    }
}

impl Context {
    pub closed spec fn wf(&self) -> bool {
        distinct_names(self.vars@)
    }

    /// An empty environment.
    pub fn new() -> (r: Context)
        ensures
            r.wf(),
            r@ == Map::<Seq<char>, SpecValue>::empty(),
    {
        Context { vars: Vec::new() }
    }

    /// The value bound to `ident`, copied.
    pub fn lookup(&self, ident: &String) -> (r: Result<Value, Error>)
        requires
            self.wf(),
        ensures
            self@.contains_key(ident@) ==> (r matches Ok(v) && v@ == self@[ident@]),
            !self@.contains_key(ident@) ==> (r matches Err(e) && e@ == SpecError::VariableUndefined(
                ident@,
            )),
    {
        let mut i: usize = 0;
        while i < self.vars.len()
            invariant
                i <= self.vars@.len(),
                distinct_names(self.vars@),
                forall|j: int| 0 <= j < i ==> #[trigger] self.vars@[j].0@ != ident@,
            decreases self.vars@.len() - i,
        {
            if self.vars[i].0 == *ident {
                proof {
                    lemma_env_has(self.vars@, i as int);
                }
                return Ok(self.vars[i].1.copy());
            }
            i = i + 1;
        }
        proof {
            lemma_env_lacks(self.vars@, ident@);
        }
        Err(Error::Interpreter(InterpreterError::VariableUndefined(ident.clone())))
    }

    /// Binds `ident` to `value`, replacing any earlier binding of it.
    pub fn set(&mut self, ident: String, value: Value)
        requires
            old(self).wf(),
        ensures
            final(self).wf(),
            final(self)@ == old(self)@.insert(ident@, value@),
    {
        let mut i: usize = 0;
        while i < self.vars.len()
            invariant
                i <= self.vars@.len(),
                distinct_names(self.vars@),
                self.vars@ == old(self).vars@,
                forall|j: int| 0 <= j < i ==> #[trigger] self.vars@[j].0@ != ident@,
            decreases self.vars@.len() - i,
        {
            if self.vars[i].0 == ident {
                proof {
                    lemma_env_update(self.vars@, i as int, (ident, value));
                }
                self.vars.set(i, (ident, value));
                return;
            }
            i = i + 1;
        }
        proof {
            lemma_distinct_push(self.vars@, (ident, value));
        }
        self.vars.push((ident, value));
    }

    /// Registers the native function `f` under `name`.
    pub fn builtin_func(&mut self, name: String, f: Native)
        requires
            old(self).wf(),
        ensures
            final(self).wf(),
            final(self)@ == old(self)@.insert(name@, SpecValue::BuiltinFunc(name@, f)),
    {
        let value = Value::BuiltinFunc(name.clone(), f);
        self.set(name, value);
    }
}


/// How deeply function calls may nest before evaluation fails with
/// `CallDepthExceeded`, rather than exhausting the host's stack.
pub const MAX_CALL_DEPTH: u64 = 256;

/// What an interpreter holds: its environment, and the values that `print` has
/// written, in order.
pub struct SpecState {
    pub env: Map<Seq<char>, SpecValue>,
    pub printed: Seq<SpecValue>,
}

pub open spec fn print_arg_name() -> Seq<char> {
    seq!['p', 'r', 'i', 'n', 't', '_', 'a', 'r', 'g']
}

pub open spec fn values_view(v: Seq<Value>) -> Seq<SpecValue> {
    v.map_values(|x: Value| x@)
}

/// The value of a literal.
pub open spec fn literal_value(l: SpecLiteral) -> SpecValue {
    match l {
        SpecLiteral::Boolean(b) => SpecValue::Boolean(b),
        SpecLiteral::Number(n) => SpecValue::Number(SpecNum::Literal(n)),
        SpecLiteral::Nil => SpecValue::Nil,
    }
}

/// `op` on two values: a number when both are numbers, `Nil` otherwise.
pub open spec fn arith(op: BinOp, a: SpecValue, b: SpecValue) -> SpecValue {
    match (a, b) {
        (SpecValue::Number(x), SpecValue::Number(y)) => SpecValue::Number(
            SpecNum::Binary(op, Box::new(x), Box::new(y)),
        ),
        _ => SpecValue::Nil,
    }
}

/// Running the native function `f` in state `st`.
pub open spec fn native_spec(f: Native, st: SpecState) -> (Result<SpecValue, SpecError>, SpecState) {
    match f {
        Native::Print => if st.env.contains_key(print_arg_name()) {
            (
                Ok(SpecValue::Nil),
                SpecState { env: st.env, printed: st.printed.push(st.env[print_arg_name()]) },
            )
        } else {
            (Err(SpecError::VariableUndefined(print_arg_name())), st)
        },
    }
}

/// Evaluating `a` in state `st`, with `depth` more nested function calls allowed:
/// the result, and the state after it.
pub open spec fn eval_spec(depth: nat, st: SpecState, a: SpecAst) -> (Result<SpecValue, SpecError>, SpecState)
    decreases depth, a,
{
    match a {
        SpecAst::Literal(l) => (Ok(literal_value(l)), st),
        SpecAst::Add(x, y) => {
            let (rx, s1) = eval_spec(depth, st, *x);
            match rx {
                Err(e) => (Err(e), s1),
                Ok(vx) => {
                    let (ry, s2) = eval_spec(depth, s1, *y);
                    match ry {
                        Err(e) => (Err(e), s2),
                        Ok(vy) => (Ok(arith(BinOp::Add, vx, vy)), s2),
                    }
                },
            }
        },
        SpecAst::Subtract(x, y) => {
            let (rx, s1) = eval_spec(depth, st, *x);
            match rx {
                Err(e) => (Err(e), s1),
                Ok(vx) => {
                    let (ry, s2) = eval_spec(depth, s1, *y);
                    match ry {
                        Err(e) => (Err(e), s2),
                        Ok(vy) => (Ok(arith(BinOp::Subtract, vx, vy)), s2),
                    }
                },
            }
        },
        SpecAst::Multiply(x, y) => {
            let (rx, s1) = eval_spec(depth, st, *x);
            match rx {
                Err(e) => (Err(e), s1),
                Ok(vx) => {
                    let (ry, s2) = eval_spec(depth, s1, *y);
                    match ry {
                        Err(e) => (Err(e), s2),
                        Ok(vy) => (Ok(arith(BinOp::Multiply, vx, vy)), s2),
                    }
                },
            }
        },
        SpecAst::Divide(x, y) => {
            let (rx, s1) = eval_spec(depth, st, *x);
            match rx {
                Err(e) => (Err(e), s1),
                Ok(vx) => {
                    let (ry, s2) = eval_spec(depth, s1, *y);
                    match ry {
                        Err(e) => (Err(e), s2),
                        Ok(vy) => (Ok(arith(BinOp::Divide, vx, vy)), s2),
                    }
                },
            }
        },
        SpecAst::Block(body) => eval_block_spec(depth, st, body),
        SpecAst::Func(body) => (Ok(SpecValue::Func(body)), st),
        SpecAst::Call(t) => {
            let (rt, s1) = eval_spec(depth, st, *t);
            match rt {
                Err(e) => (Err(e), s1),
                Ok(v) => match v {
                    SpecValue::Func(body) => if depth == 0 {
                        (Err(SpecError::CallDepthExceeded), s1)
                    } else {
                        eval_block_spec((depth - 1) as nat, s1, body)
                    },
                    SpecValue::BuiltinFunc(_, f) => native_spec(f, s1),
                    _ => (Err(SpecError::NotCallable(v)), s1),
                },
            }
        },
        SpecAst::Ident(name) => if st.env.contains_key(name) {
            (Ok(st.env[name]), st)
        } else {
            (Err(SpecError::VariableUndefined(name)), st)
        },
        SpecAst::Assign(name, x) => {
            let (rx, s1) = eval_spec(depth, st, *x);
            match rx {
                Err(e) => (Err(e), s1),
                Ok(v) => (Ok(SpecValue::Nil), SpecState { env: s1.env.insert(name, v), printed: s1.printed }),
            }
        },
    }
}

/// Evaluating the nodes of `body` in order: the value of the last one (`Nil` for
/// none), or the first error.
pub open spec fn eval_block_spec(depth: nat, st: SpecState, body: Seq<SpecAst>) -> (Result<SpecValue, SpecError>, SpecState)
    decreases depth, body,
{
    if body.len() == 0 {
        (Ok(SpecValue::Nil), st)
    } else {
        let (r, s1) = eval_block_spec(depth, st, body.drop_last());
        match r {
            Err(e) => (Err(e), s1),
            Ok(_) => eval_spec(depth, s1, body.last()),
        }
    }
}


/// Applies `op` to two values: a number when both are numbers, `Nil` otherwise.
pub fn apply(op: BinOp, a: Value, b: Value) -> (r: Value)
    ensures
        r@ == arith(op, a@, b@),
{
    match (a, b) {
        (Value::Number(x), Value::Number(y)) => Value::Number(Num::Binary(op, Box::new(x), Box::new(y))),
        _ => Value::Nil,
    }
}

/// The value of a literal.
pub fn literal_to_value(l: &Literal) -> (r: Value)
    ensures
        r@ == literal_value(l@),
{
    match l {
        Literal::Boolean(b) => Value::Boolean(*b),
        Literal::Number(n) => Value::Number(Num::Literal(n.copy())),
        Literal::Nil => Value::Nil,
    }
}

/// Evaluating the top-level forms `forms` in order, each with the full call depth:
/// the value of each, or the first error.
pub open spec fn run_spec(st: SpecState, forms: Seq<SpecAst>) -> (Result<Seq<SpecValue>, SpecError>, SpecState)
    decreases forms.len(),
{
    if forms.len() == 0 {
        (Ok(Seq::empty()), st)
    } else {
        let (r, s1) = run_spec(st, forms.drop_last());
        match r {
            Err(e) => (Err(e), s1),
            Ok(vs) => {
                let (r2, s2) = eval_spec(MAX_CALL_DEPTH as nat, s1, forms.last());
                match r2 {
                    Err(e) => (Err(e), s2),
                    Ok(v) => (Ok(vs.push(v)), s2),
                }
            },
        }
    }
}

pub open spec fn values_result_view(r: Result<Vec<Value>, Error>) -> Result<Seq<SpecValue>, SpecError> {
    match r {
        Ok(v) => Ok(values_view(v@)),
        Err(e) => Err(e@),
    }
}

/// Running a program whose UTF-8 bytes are `src` in state `st`: its parse error, or
/// the values of its top-level forms and the state after them.
pub open spec fn interpret_spec(st: SpecState, src: Seq<u8>) -> (Result<Seq<SpecValue>, SpecError>, SpecState) {
    match parse_program(src) {
        Err(e) => (Err(e), st),
        Ok(forms) => run_spec(st, forms),
    }
}

proof fn lemma_run_stops_at_error(st: SpecState, forms: Seq<SpecAst>, k: int)
    requires
        0 <= k <= forms.len(),
        run_spec(st, forms.subrange(0, k)).0 is Err,
    ensures
        run_spec(st, forms) == run_spec(st, forms.subrange(0, k)),
    decreases forms.len(),
{
    if k == forms.len() {
        assert(forms.subrange(0, k) =~= forms);
    } else {
        assert(forms.drop_last().subrange(0, k) =~= forms.subrange(0, k));
        lemma_run_stops_at_error(st, forms.drop_last(), k);
    }
}

/// Once a prefix of a block fails, the whole block fails the same way.
proof fn lemma_block_stops_at_error(depth: nat, st: SpecState, body: Seq<SpecAst>, k: int)
    requires
        0 <= k <= body.len(),
        eval_block_spec(depth, st, body.subrange(0, k)).0 is Err,
    ensures
        eval_block_spec(depth, st, body) == eval_block_spec(depth, st, body.subrange(0, k)),
    decreases body.len(),
{
    if k == body.len() {
        assert(body.subrange(0, k) =~= body);
    } else {
        assert(body.drop_last().subrange(0, k) =~= body.subrange(0, k));
        lemma_block_stops_at_error(depth, st, body.drop_last(), k);
    }
}

/// A Frothy interpreter: an environment with the builtins registered, and the
/// values that `print` has written. The environment is shared by every program
/// that [`Interpreter::interpret`] runs on it; [`crate::evaluate`] runs each program in
/// a new one.
pub struct Interpreter {
    ctx: Context,
    printed: Vec<Value>,
}

impl View for Interpreter {
    type V = SpecState;

    closed spec fn view(&self) -> SpecState {
        SpecState { env: self.ctx@, printed: values_view(self.printed@) }
    }
}

/// The state of a new interpreter: `print` and `PI` bound, nothing printed.
pub open spec fn initial_state() -> SpecState {
    SpecState {
        env: Map::<Seq<char>, SpecValue>::empty().insert(
            seq!['p', 'r', 'i', 'n', 't'],
            SpecValue::BuiltinFunc(seq!['p', 'r', 'i', 'n', 't'], Native::Print),
        ).insert(seq!['P', 'I'], SpecValue::Number(SpecNum::Pi)),
        printed: Seq::empty(),
    }
}

impl Interpreter {
    pub closed spec fn wf(&self) -> bool {
        self.ctx.wf()
    }

    /// A new interpreter with the builtin `print` and the constant `PI`.
    pub fn new() -> (r: Interpreter)
        ensures
            r.wf(),
            r@ == initial_state(),
    {
        let mut ctx = Context::new();
        let print_name = String::from_str("print");
        let pi_name = String::from_str("PI");
        proof {
            reveal_strlit("print");
            reveal_strlit("PI");
            assert(print_name@ =~= seq!['p', 'r', 'i', 'n', 't']);
            assert(pi_name@ =~= seq!['P', 'I']);
        }
        ctx.builtin_func(print_name, Native::Print);
        ctx.set(pi_name, Value::Number(Num::Pi));
        let r = Interpreter { ctx, printed: Vec::new() };
        assert(values_view(r.printed@) =~= Seq::<SpecValue>::empty());
        r
    }

    /// The values that `print` has written, in order.
    pub fn printed(&self) -> (r: &Vec<Value>)
        ensures
            values_view(r@) == self@.printed,
    {
        &self.printed
    }

    /// Parses `program` and evaluates its top-level forms in order, in this
    /// interpreter's environment. Returns the value of each form, or the first error
    /// met; on an error no values are returned.
    pub fn interpret(&mut self, program: &str) -> (r: Result<Vec<Value>, Error>)
        requires
            old(self).wf(),
        ensures
            final(self).wf(),
            (values_result_view(r), final(self)@) == interpret_spec(old(self)@, vstd::utf8::encode_utf8(program@)),
    {
        let forms = match Parser::new(program).parse() {
            Ok(forms) => forms,
            Err(e) => {
                return Err(e);
            },
        };
        let ghost s = asts_view(forms@);
        proof {
            lemma_asts_view(forms@);
        }
        let mut values: Vec<Value> = Vec::new();
        let mut i: usize = 0;
        proof {
            assert(values_view(values@) =~= Seq::<SpecValue>::empty());
            assert(s.subrange(0, 0) =~= Seq::<SpecAst>::empty());
        }
        while i < forms.len()
            invariant
                self.wf(),
                interpret_spec(old(self)@, vstd::utf8::encode_utf8(program@)) == run_spec(old(self)@, s),
                i <= forms@.len(),
                s == asts_view(forms@),
                s.len() == forms@.len(),
                forall|j: int| 0 <= j < forms@.len() ==> #[trigger] s[j] == forms@[j]@,
                run_spec(old(self)@, s.subrange(0, i as int)) == (
                Ok::<Seq<SpecValue>, SpecError>(values_view(values@)), self@),
            decreases forms@.len() - i,
        {
            proof {
                let t = s.subrange(0, i + 1);
                assert(t.drop_last() =~= s.subrange(0, i as int));
                assert(t.last() == s[i as int]);
            }
            match self.eval(&forms[i], MAX_CALL_DEPTH) {
                Ok(v) => {
                    proof {
                        assert(values_view(values@.push(v)) =~= values_view(values@).push(v@));
                    }
                    values.push(v);
                },
                Err(e) => {
                    proof {
                        lemma_run_stops_at_error(old(self)@, s, i + 1);
                    }
                    return Err(e);
                },
            }
            i = i + 1;
        }
        proof {
            assert(s.subrange(0, i as int) =~= s);
        }
        Ok(values)
    }

    /// Runs the native function `f`.
    fn run_native(&mut self, f: Native) -> (r: Result<Value, Error>)
        requires
            old(self).wf(),
        ensures
            final(self).wf(),
            (result_view(r), final(self)@) == native_spec(f, old(self)@),
    {
        match f {
            Native::Print => {
                let name = String::from_str("print_arg");
                proof {
                    reveal_strlit("print_arg");
                    assert(name@ =~= print_arg_name());
                }
                match self.ctx.lookup(&name) {
                    Ok(v) => {
                        proof {
                            assert(values_view(self.printed@.push(v)) =~= values_view(self.printed@).push(v@));
                        }
                        self.printed.push(v);
                        Ok(Value::Nil)
                    },
                    Err(e) => Err(e),
                }
            },
        }
    }

    /// Evaluates `ast` with `depth` more nested function calls allowed.
    fn eval(&mut self, ast: &Ast, depth: u64) -> (r: Result<Value, Error>)
        requires
            old(self).wf(),
        ensures
            final(self).wf(),
            (result_view(r), final(self)@) == eval_spec(depth as nat, old(self)@, ast@),
        decreases depth, ast,
    {
        match ast {
            Ast::Literal(l) => Ok(literal_to_value(l)),
            Ast::Add(a, b) => {
                let x = match self.eval(a, depth) {
                    Ok(x) => x,
                    Err(e) => {
                        return Err(e);
                    },
                };
                let y = match self.eval(b, depth) {
                    Ok(y) => y,
                    Err(e) => {
                        return Err(e);
                    },
                };
                Ok(apply(BinOp::Add, x, y))
            },
            Ast::Subtract(a, b) => {
                let x = match self.eval(a, depth) {
                    Ok(x) => x,
                    Err(e) => {
                        return Err(e);
                    },
                };
                let y = match self.eval(b, depth) {
                    Ok(y) => y,
                    Err(e) => {
                        return Err(e);
                    },
                };
                Ok(apply(BinOp::Subtract, x, y))
            },
            Ast::Multiply(a, b) => {
                let x = match self.eval(a, depth) {
                    Ok(x) => x,
                    Err(e) => {
                        return Err(e);
                    },
                };
                let y = match self.eval(b, depth) {
                    Ok(y) => y,
                    Err(e) => {
                        return Err(e);
                    },
                };
                Ok(apply(BinOp::Multiply, x, y))
            },
            Ast::Divide(a, b) => {
                let x = match self.eval(a, depth) {
                    Ok(x) => x,
                    Err(e) => {
                        return Err(e);
                    },
                };
                let y = match self.eval(b, depth) {
                    Ok(y) => y,
                    Err(e) => {
                        return Err(e);
                    },
                };
                Ok(apply(BinOp::Divide, x, y))
            },
            Ast::Assign(name, a) => {
                let v = match self.eval(a, depth) {
                    Ok(v) => v,
                    Err(e) => {
                        return Err(e);
                    },
                };
                self.ctx.set(name.clone(), v);
                Ok(Value::Nil)
            },
            Ast::Block(body) => self.eval_block(body, depth),
            Ast::Func(body) => Ok(Value::Func(copy_asts(body))),
            Ast::Call(target) => {
                let v = match self.eval(target, depth) {
                    Ok(v) => v,
                    Err(e) => {
                        return Err(e);
                    },
                };
                match v {
                    Value::Func(body) => {
                        if depth == 0 {
                            Err(Error::Interpreter(InterpreterError::CallDepthExceeded))
                        } else {
                            self.eval_block(&body, depth - 1)
                        }
                    },
                    Value::BuiltinFunc(_, f) => self.run_native(f),
                    other => Err(Error::Interpreter(InterpreterError::NotCallable(other))),
                }
            },
            Ast::Ident(name) => self.ctx.lookup(name),
        }
    }

    /// Evaluates the nodes of `body` in order and returns the value of the last
    /// (`Nil` for none).
    fn eval_block(&mut self, body: &Vec<Ast>, depth: u64) -> (r: Result<Value, Error>)
        requires
            old(self).wf(),
        ensures
            final(self).wf(),
            (result_view(r), final(self)@) == eval_block_spec(depth as nat, old(self)@, asts_view(body@)),
        decreases depth, body,
    {
        let ghost s = asts_view(body@);
        proof {
            lemma_asts_view(body@);
        }
        let mut value = Value::Nil;
        let mut i: usize = 0;
        while i < body.len()
            invariant
                self.wf(),
                i <= body@.len(),
                s == asts_view(body@),
                s.len() == body@.len(),
                forall|j: int| 0 <= j < body@.len() ==> #[trigger] s[j] == body@[j]@,
                eval_block_spec(depth as nat, old(self)@, s.subrange(0, i as int)) == (
                Ok::<SpecValue, SpecError>(value@), self@),
            decreases body@.len() - i,
        {
            proof {
                assert(decreases_to!(body => body@[i as int]));
                let t = s.subrange(0, i + 1);
                assert(t.drop_last() =~= s.subrange(0, i as int));
                assert(t.last() == s[i as int]);
            }
            value = match self.eval(&body[i], depth) {
                Ok(v) => v,
                Err(e) => {
                    proof {
                        lemma_block_stops_at_error(depth as nat, old(self)@, s, i + 1);
                    }
                    return Err(e);
                },
            };
            i = i + 1;
        }
        proof {
            assert(s.subrange(0, i as int) =~= s);
        }
        Ok(value)
    }
}

} // verus!
