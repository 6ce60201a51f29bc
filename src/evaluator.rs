use vstd::prelude::*;
use std::rc::Rc;
use crate::ast::{Expression, FnDef, Infix, List, Prefix, Program, Statement};
use crate::environment::{
    bind,
    enclose,
    lookup,
    new_enclosed_environment,
    state_wf,
    value_ok,
    lemma_value_ok_grows,
    lemma_lookup_unchanged,
    EnvState,
    Environment,
    GLOBAL,
};
use crate::object::{values_equal, EvalError, Object};

verus! {

/// The deepest nesting of function calls that evaluation allows. This is a
/// resource limit, as a native call stack has one: each nested call of the
/// evaluated program takes a few frames of the evaluator's own stack, and
/// recursion deeper than this fails with `CallDepthExceeded` instead of
/// exhausting it.
pub const MAX_CALL_DEPTH: usize = 2000;

/// The state after an evaluation step and what the step produced.
pub type Outcome<'a, T> = (EnvState<'a>, Result<T, EvalError<'a>>);

/// The value of a prefix operator applied to `v`.
pub open spec fn prefix_result<'a>(op: Prefix, v: Object<'a>) -> Result<Object<'a>, EvalError<'a>> {
    match op {
        Prefix::Not => match v {
            Object::Boolean(b) => Ok(Object::Boolean(!b)),
            _ => Err(EvalError::TypeMismatch),
        },
        Prefix::PrefixMinus => match v {
            Object::Integer(i) => if i == i64::MIN {
                Err(EvalError::IntegerOverflow)
            } else {
                Ok(Object::Integer((-i) as i64))
            },
            _ => Err(EvalError::TypeMismatch),
        },
    }
}

/// `x` as a value when it fits in `i64`.
pub open spec fn checked_integer<'a>(x: int) -> Result<Object<'a>, EvalError<'a>> {
    if i64::MIN <= x <= i64::MAX {
        Ok(Object::Integer(x as i64))
    } else {
        Err(EvalError::IntegerOverflow)
    }
}

/// An arithmetic or comparison operator on two integers; division truncates
/// toward zero.
pub open spec fn integer_result<'a>(op: Infix, x: i64, y: i64) -> Result<Object<'a>, EvalError<'a>> {
    match op {
        Infix::Plus => checked_integer(x + y),
        Infix::Minus => checked_integer(x - y),
        Infix::Multiply => checked_integer(x * y),
        Infix::Divide => if y == 0 {
            Err(EvalError::DivisionByZero)
        } else {
            match x.checked_div(y) {
                Some(q) => Ok(Object::Integer(q)),
                None => Err(EvalError::IntegerOverflow),
            }
        },
        Infix::LessThan => Ok(Object::Boolean(x < y)),
        Infix::GreaterThan => Ok(Object::Boolean(x > y)),
        Infix::Equal => Ok(Object::Boolean(x == y)),
        Infix::NotEqual => Ok(Object::Boolean(x != y)),
    }
}

/// The value of an infix operator on two values.
pub open spec fn infix_result<'a>(op: Infix, a: Object<'a>, b: Object<'a>) -> Result<
    Object<'a>,
    EvalError<'a>,
> {
    match op {
        Infix::Equal => Ok(Object::Boolean(values_equal(a, b))),
        Infix::NotEqual => Ok(Object::Boolean(!values_equal(a, b))),
        _ => match (a, b) {
            (Object::Integer(x), Object::Integer(y)) => integer_result(op, x, y),
            _ => Err(EvalError::TypeMismatch),
        },
    }
}

/// Strips the return marker at a function or program boundary.
pub open spec fn unwrap_return<'a>(r: Result<Object<'a>, EvalError<'a>>) -> Result<
    Object<'a>,
    EvalError<'a>,
> {
    match r {
        Ok(Object::Return(v)) => Ok(*v),
        _ => r,
    }
}

/// Parameters and arguments agree in number, absent lists included.
pub open spec fn arity_ok<'a>(params: Option<List<&'a [u8]>>, args: Option<Seq<Object<'a>>>) -> bool {
    match (params, args) {
        (Some(ps), Some(vs)) => ps.len() == vs.len(),
        (None, None) => true,
        _ => false,
    }
}

/// Binds the parameters `ps` to the arguments `vs[i..]` in frame `f`.
pub open spec fn bind_params<'a>(
    s: EnvState<'a>,
    f: usize,
    ps: List<&'a [u8]>,
    vs: Seq<Object<'a>>,
    i: int,
) -> EnvState<'a>
    decreases ps,
{
    match ps {
        List::Nil => s,
        List::Cons(name, rest) => bind_params(bind(s, f, *name, vs[i]), f, *rest, vs, i + 1),
    }
}

/// Evaluates `e` in frame `f`, allowing `depth` more nested calls.
pub open spec fn spec_eval_expression<'a>(
    s: EnvState<'a>,
    f: usize,
    depth: nat,
    e: Expression<'a>,
) -> Outcome<'a, Object<'a>>
    decreases depth, 1int, e,
{
    match e {
        Expression::Int(v) => if v <= i64::MAX as u64 {
            (s, Ok(Object::Integer(v as i64)))
        } else {
            (s, Err(EvalError::IntegerOverflow))
        },
        Expression::Bool(b) => (s, Ok(Object::Boolean(b))),
        Expression::Ident(n) => (
            s,
            match lookup(s, f, n@) {
                Some(v) => Ok(v),
                None => Err(EvalError::NotFound(n)),
            },
        ),
        Expression::PrefixExpression(op, r) => {
            let (s1, rv) = spec_eval_expression(s, f, depth, *r);
            (
                s1,
                match rv {
                    Ok(v) => prefix_result(op, v),
                    Err(x) => Err(x),
                },
            )
        },
        Expression::InfixExpression(l, op, r) => {
            let (s1, lv) = spec_eval_expression(s, f, depth, *l);
            match lv {
                Err(x) => (s1, Err(x)),
                Ok(a) => {
                    let (s2, rv) = spec_eval_expression(s1, f, depth, *r);
                    (
                        s2,
                        match rv {
                            Ok(b) => infix_result(op, a, b),
                            Err(x) => Err(x),
                        },
                    )
                },
            }
        },
        Expression::IfExpression(c, cons, alt) => {
            let (s1, cv) = spec_eval_expression(s, f, depth, *c);
            match cv {
                Err(x) => (s1, Err(x)),
                Ok(Object::Boolean(true)) => spec_eval_block(s1, f, depth, cons),
                Ok(Object::Boolean(false)) => match alt {
                    Some(a) => spec_eval_block(s1, f, depth, a),
                    None => (s1, Ok(Object::Null)),
                },
                Ok(_) => (s1, Err(EvalError::TypeMismatch)),
            }
        },
        Expression::FunctionLiteral(d) => (s, Ok(Object::Function(d, f))),
        Expression::CallExpression(callee, args) => {
            let (s1, cv) = spec_eval_expression(s, f, depth, *callee);
            match cv {
                Err(x) => (s1, Err(x)),
                Ok(fv) => match args {
                    None => spec_apply_function(s1, depth, fv, None),
                    Some(list) => {
                        let (s2, av) = spec_eval_expressions(s1, f, depth, list, seq![]);
                        match av {
                            Err(x) => (s2, Err(x)),
                            Ok(vs) => spec_apply_function(s2, depth, fv, Some(vs)),
                        }
                    },
                },
            }
        },
    }
}

/// Evaluates the expressions of `l` left to right after the values `acc`.
pub open spec fn spec_eval_expressions<'a>(
    s: EnvState<'a>,
    f: usize,
    depth: nat,
    l: List<Expression<'a>>,
    acc: Seq<Object<'a>>,
) -> Outcome<'a, Seq<Object<'a>>>
    decreases depth, 1int, l,
{
    match l {
        List::Nil => (s, Ok(acc)),
        List::Cons(e, rest) => {
            let (s1, ev) = spec_eval_expression(s, f, depth, *e);
            match ev {
                Err(x) => (s1, Err(x)),
                Ok(v) => spec_eval_expressions(s1, f, depth, *rest, acc.push(v)),
            }
        },
    }
}

/// Calls `fv` on `args`: a fresh frame enclosed by the captured one holds the
/// parameters, and the body's return marker stops here.
pub open spec fn spec_apply_function<'a>(
    s: EnvState<'a>,
    depth: nat,
    fv: Object<'a>,
    args: Option<Seq<Object<'a>>>,
) -> Outcome<'a, Object<'a>>
    decreases depth, 0int,
{
    match fv {
        Object::Function(d, captured) => if !arity_ok(d.params, args) {
            (s, Err(EvalError::ArityMismatch))
        } else if depth == 0 {
            (s, Err(EvalError::CallDepthExceeded))
        } else if s.outers.len() >= usize::MAX {
            (s, Err(EvalError::TooManyFrames))
        } else {
            let nf = s.outers.len() as usize;
            let s1 = enclose(s, captured);
            let s2 = match (d.params, args) {
                (Some(ps), Some(vs)) => bind_params(s1, nf, ps, vs, 0),
                _ => s1,
            };
            let (s3, r) = spec_eval_block(s2, nf, (depth - 1) as nat, d.body);
            (s3, unwrap_return(r))
        },
        _ => (s, Err(EvalError::NotAFunction)),
    }
}

/// Evaluates a block: the value of its last statement, or the first return
/// marker, which is passed on still wrapped.
pub open spec fn spec_eval_block<'a>(
    s: EnvState<'a>,
    f: usize,
    depth: nat,
    b: List<Statement<'a>>,
) -> Outcome<'a, Object<'a>>
    decreases depth, 1int, b,
{
    match b {
        List::Nil => (s, Ok(Object::Null)),
        List::Cons(st, rest) => {
            let (s1, r) = spec_eval_statement(s, f, depth, *st);
            match r {
                Err(x) => (s1, Err(x)),
                Ok(v) => if v is Return || *rest is Nil {
                    (s1, Ok(v))
                } else {
                    spec_eval_block(s1, f, depth, *rest)
                },
            }
        },
    }
}

pub open spec fn spec_eval_statement<'a>(
    s: EnvState<'a>,
    f: usize,
    depth: nat,
    st: Statement<'a>,
) -> Outcome<'a, Object<'a>>
    decreases depth, 1int, st,
{
    match st {
        Statement::LetStatement(name, e) => {
            let (s1, r) = spec_eval_expression(s, f, depth, *e);
            match r {
                Ok(v) => if v is Return {
                    (s1, Ok(v))
                } else {
                    (bind(s1, f, name, v), Ok(Object::Null))
                },
                Err(x) => (s1, Err(x)),
            }
        },
        Statement::ReturnStatement(e) => {
            let (s1, r) = spec_eval_expression(s, f, depth, *e);
            match r {
                Ok(v) => if v is Return {
                    (s1, Ok(v))
                } else {
                    (s1, Ok(Object::Return(Box::new(v))))
                },
                Err(x) => (s1, Err(x)),
            }
        },
        Statement::ExpressionStatement(e) => spec_eval_expression(s, f, depth, *e),
    }
}

/// Runs a program in the global frame: the value of its last statement, or
/// of the first `return` reached.
pub open spec fn spec_run_program<'a>(s: EnvState<'a>, p: Program<'a>, depth: nat) -> Outcome<
    'a,
    Object<'a>,
> {
    let (s1, r) = spec_eval_block(s, GLOBAL, depth, p.statements);
    (s1, unwrap_return(r))
}

/// Runs `program` in the global frame of `env`, whose bindings persist for
/// later programs; the result is the value of the last statement, or of the
/// first top-level `return`.
pub fn run_program<'a>(program: Program<'a>, env: &mut Environment<'a>) -> (r: Result<
    Object<'a>,
    EvalError<'a>,
>)
    requires
        state_wf(old(env)@),
    ensures
        (final(env)@, r) == spec_run_program(old(env)@, program, MAX_CALL_DEPTH as nat),
        state_wf(final(env)@),
        !(r matches Ok(Object::Return(_))),
{
    eval_statements_unwrap(env, GLOBAL, MAX_CALL_DEPTH, &program.statements)
}

/// Evaluates a function body or a program: a return marker stops here.
fn eval_statements_unwrap<'a>(
    env: &mut Environment<'a>,
    f: usize,
    depth: usize,
    b: &List<Statement<'a>>,
) -> (r: Result<Object<'a>, EvalError<'a>>)
    requires
        state_wf(old(env)@),
        f < old(env)@.outers.len(),
    ensures
        ({
            let (s1, r1) = spec_eval_block(old(env)@, f, depth as nat, *b);
            final(env)@ == s1 && r == unwrap_return(r1)
        }),
        !(r matches Ok(Object::Return(_))),
        state_wf(final(env)@),
        old(env)@.outers.len() <= final(env)@.outers.len(),
        r matches Ok(v) ==> value_ok(v, final(env)@.outers.len()),
{
    match eval_statements(env, f, depth, b) {
        Ok(Object::Return(v)) => Ok(*v),
        other => other,
    }
}

/// Evaluates a block; a return marker is passed on still wrapped.
fn eval_statements<'a>(
    env: &mut Environment<'a>,
    f: usize,
    depth: usize,
    b: &List<Statement<'a>>,
) -> (r: Result<Object<'a>, EvalError<'a>>)
    requires
        state_wf(old(env)@),
        f < old(env)@.outers.len(),
    ensures
        (final(env)@, r) == spec_eval_block(old(env)@, f, depth as nat, *b),
        state_wf(final(env)@),
        old(env)@.outers.len() <= final(env)@.outers.len(),
        r matches Ok(v) ==> value_ok(v, final(env)@.outers.len()),
    decreases depth, 1int, b,
{
    match b {
        List::Nil => Ok(Object::Null),
        List::Cons(st, rest) => {
            let v = match eval_statement(env, f, depth, st) {
                Ok(v) => v,
                Err(x) => {
                    return Err(x);
                },
            };
            if let Object::Return(_) = v {
                return Ok(v);
            }
            if let List::Nil = **rest {
                return Ok(v);
            }
            eval_statements(env, f, depth, rest)
        },
    }
}

fn eval_statement<'a>(
    env: &mut Environment<'a>,
    f: usize,
    depth: usize,
    st: &Statement<'a>,
) -> (r: Result<Object<'a>, EvalError<'a>>)
    requires
        state_wf(old(env)@),
        f < old(env)@.outers.len(),
    ensures
        (final(env)@, r) == spec_eval_statement(old(env)@, f, depth as nat, *st),
        state_wf(final(env)@),
        old(env)@.outers.len() <= final(env)@.outers.len(),
        r matches Ok(v) ==> value_ok(v, final(env)@.outers.len()),
    decreases depth, 1int, st,
{
    match st {
        Statement::LetStatement(name, e) => {
            let v = match eval_expression(env, f, depth, e) {
                Ok(v) => v,
                Err(x) => {
                    return Err(x);
                },
            };
            if let Object::Return(_) = v {
                return Ok(v);
            }
            env.set(f, *name, v);
            Ok(Object::Null)
        },
        Statement::ReturnStatement(e) => match eval_expression(env, f, depth, e) {
            Ok(v) => if let Object::Return(_) = v {
                Ok(v)
            } else {
                Ok(Object::Return(Box::new(v)))
            },
            Err(x) => Err(x),
        },
        Statement::ExpressionStatement(e) => eval_expression(env, f, depth, e),
    }
}

fn eval_expression<'a>(
    env: &mut Environment<'a>,
    f: usize,
    depth: usize,
    e: &Expression<'a>,
) -> (r: Result<Object<'a>, EvalError<'a>>)
    requires
        state_wf(old(env)@),
        f < old(env)@.outers.len(),
    ensures
        (final(env)@, r) == spec_eval_expression(old(env)@, f, depth as nat, *e),
        state_wf(final(env)@),
        old(env)@.outers.len() <= final(env)@.outers.len(),
        r matches Ok(v) ==> value_ok(v, final(env)@.outers.len()),
    decreases depth, 1int, e,
{
    match e {
        Expression::Int(v) => if *v <= i64::MAX as u64 {
            Ok(Object::Integer(*v as i64))
        } else {
            Err(EvalError::IntegerOverflow)
        },
        Expression::Bool(b) => Ok(Object::Boolean(*b)),
        Expression::Ident(n) => env.get(f, *n),
        Expression::PrefixExpression(op, r) => match eval_expression(env, f, depth, r) {
            Ok(v) => eval_prefix_expression(*op, v),
            Err(x) => Err(x),
        },
        Expression::InfixExpression(l, op, r) => {
            let a = match eval_expression(env, f, depth, l) {
                Ok(a) => a,
                Err(x) => {
                    return Err(x);
                },
            };
            match eval_expression(env, f, depth, r) {
                Ok(b) => eval_infix_expression(*op, &a, &b),
                Err(x) => Err(x),
            }
        },
        Expression::IfExpression(c, cons, alt) => {
            let cv = match eval_expression(env, f, depth, c) {
                Ok(v) => v,
                Err(x) => {
                    return Err(x);
                },
            };
            match cv {
                Object::Boolean(true) => eval_statements(env, f, depth, cons),
                Object::Boolean(false) => match alt {
                    Some(a) => eval_statements(env, f, depth, a),
                    None => Ok(Object::Null),
                },
                _ => Err(EvalError::TypeMismatch),
            }
        },
        Expression::FunctionLiteral(d) => Ok(Object::Function(Rc::clone(d), f)),
        Expression::CallExpression(callee, args) => {
            let fv = match eval_expression(env, f, depth, callee) {
                Ok(v) => v,
                Err(x) => {
                    return Err(x);
                },
            };
            match args {
                None => apply_function(env, depth, fv, None),
                Some(list) => {
                    let ghost n0 = env@.outers.len();
                    let vs = match eval_expressions(env, f, depth, list, Vec::new()) {
                        Ok(vs) => vs,
                        Err(x) => {
                            return Err(x);
                        },
                    };
                    proof {
                        lemma_value_ok_grows(fv, n0, env@.outers.len());
                    }
                    apply_function(env, depth, fv, Some(vs))
                },
            }
        },
    }
}

/// Evaluates the expressions of `l` left to right, after the values `acc`.
fn eval_expressions<'a>(
    env: &mut Environment<'a>,
    f: usize,
    depth: usize,
    l: &List<Expression<'a>>,
    acc: Vec<Object<'a>>,
) -> (r: Result<Vec<Object<'a>>, EvalError<'a>>)
    requires
        state_wf(old(env)@),
        f < old(env)@.outers.len(),
        forall|k: int| 0 <= k < acc@.len() ==> value_ok(#[trigger] acc@[k], old(env)@.outers.len()),
    ensures
        spec_eval_expressions(old(env)@, f, depth as nat, *l, acc@) == (
            final(env)@,
            match r {
                Ok(vs) => Ok::<Seq<Object<'a>>, EvalError<'a>>(vs@),
                Err(x) => Err(x),
            },
        ),
        state_wf(final(env)@),
        old(env)@.outers.len() <= final(env)@.outers.len(),
        r matches Ok(vs) ==> forall|k: int|
            0 <= k < vs@.len() ==> value_ok(#[trigger] vs@[k], final(env)@.outers.len()),
    decreases depth, 1int, l,
{
    match l {
        List::Nil => Ok(acc),
        List::Cons(e, rest) => {
            let ghost n0 = env@.outers.len();
            let v = match eval_expression(env, f, depth, e) {
                Ok(v) => v,
                Err(x) => {
                    return Err(x);
                },
            };
            let mut acc = acc;
            proof {
                assert forall|k: int| 0 <= k < acc@.len() implies value_ok(
                    #[trigger] acc@[k],
                    env@.outers.len(),
                ) by {
                    lemma_value_ok_grows(acc@[k], n0, env@.outers.len());
                }
            }
            acc.push(v);
            eval_expressions(env, f, depth, rest, acc)
        },
    }
}

/// Whether the list `ps` has exactly `n` items.
fn has_length<T>(ps: &List<T>, n: usize) -> (r: bool)
    ensures
        r == (ps.len() == n),
    decreases ps,
{
    match ps {
        List::Nil => n == 0,
        List::Cons(_, rest) => n > 0 && has_length(rest, n - 1),
    }
}

fn apply_function<'a>(
    env: &mut Environment<'a>,
    depth: usize,
    fv: Object<'a>,
    args: Option<Vec<Object<'a>>>,
) -> (r: Result<Object<'a>, EvalError<'a>>)
    requires
        state_wf(old(env)@),
        value_ok(fv, old(env)@.outers.len()),
        args matches Some(vs) ==> forall|k: int|
            0 <= k < vs@.len() ==> value_ok(#[trigger] vs@[k], old(env)@.outers.len()),
    ensures
        (final(env)@, r) == spec_apply_function(
            old(env)@,
            depth as nat,
            fv,
            match args {
                Some(vs) => Some(vs@),
                None => None,
            },
        ),
        state_wf(final(env)@),
        old(env)@.outers.len() <= final(env)@.outers.len(),
        r matches Ok(v) ==> value_ok(v, final(env)@.outers.len()),
        !(r matches Ok(Object::Return(_))),
    decreases depth, 0int,
{
    let (d, captured) = match fv {
        Object::Function(d, captured) => (d, captured),
        _ => {
            return Err(EvalError::NotAFunction);
        },
    };
    let arity = match (&d.params, &args) {
        (Some(ps), Some(vs)) => has_length(ps, vs.len()),
        (None, None) => true,
        _ => false,
    };
    if !arity {
        return Err(EvalError::ArityMismatch);
    }
    if depth == 0 {
        return Err(EvalError::CallDepthExceeded);
    }
    if env.frame_count() == usize::MAX {
        return Err(EvalError::TooManyFrames);
    }
    let ghost n0 = env@.outers.len();
    let nf = new_enclosed_environment(env, captured);
    if let (Some(ps), Some(vs)) = (&d.params, &args) {
        proof {
            assert forall|k: int| 0 <= k < vs@.len() implies value_ok(
                #[trigger] vs@[k],
                env@.outers.len(),
            ) by {
                lemma_value_ok_grows(vs@[k], n0, env@.outers.len());
            }
        }
        bind_arguments(env, nf, ps, vs, 0);
    }
    match eval_statements(env, nf, depth - 1, &d.body) {
        Ok(Object::Return(v)) => Ok(*v),
        other => other,
    }
}

fn bind_arguments<'a>(
    env: &mut Environment<'a>,
    f: usize,
    ps: &List<&'a [u8]>,
    vs: &Vec<Object<'a>>,
    i: usize,
)
    requires
        state_wf(old(env)@),
        f < old(env)@.outers.len(),
        i + ps.len() == vs@.len(),
        forall|k: int| 0 <= k < vs@.len() ==> value_ok(#[trigger] vs@[k], old(env)@.outers.len()),
    ensures
        final(env)@ == bind_params(old(env)@, f, *ps, vs@, i as int),
        state_wf(final(env)@),
        final(env)@.outers.len() == old(env)@.outers.len(),
    decreases ps,
{
    match ps {
        List::Nil => {},
        List::Cons(name, rest) => {
            assert(i < vs.len());
            env.set(f, **name, vs[i].duplicate());
            bind_arguments(env, f, rest, vs, i + 1);
        },
    }
}

fn eval_prefix_expression<'a>(op: Prefix, v: Object<'a>) -> (r: Result<Object<'a>, EvalError<'a>>)
    ensures
        r == prefix_result(op, v),
        r matches Ok(w) ==> value_ok(w, 0),
{
    match op {
        Prefix::Not => eval_not_prefix(v),
        Prefix::PrefixMinus => eval_minus_prefix(v),
    }
}

fn eval_not_prefix<'a>(v: Object<'a>) -> (r: Result<Object<'a>, EvalError<'a>>)
    ensures
        r == prefix_result(Prefix::Not, v),
{
    if let Object::Boolean(b) = v {
        Ok(Object::Boolean(!b))
    } else {
        Err(EvalError::TypeMismatch)
    }
}

fn eval_minus_prefix<'a>(v: Object<'a>) -> (r: Result<Object<'a>, EvalError<'a>>)
    ensures
        r == prefix_result(Prefix::PrefixMinus, v),
{
    if let Object::Integer(i) = v {
        if i == i64::MIN {
            Err(EvalError::IntegerOverflow)
        } else {
            Ok(Object::Integer(-i))
        }
    } else {
        Err(EvalError::TypeMismatch)
    }
}

fn eval_infix_expression<'a>(op: Infix, a: &Object<'a>, b: &Object<'a>) -> (r: Result<
    Object<'a>,
    EvalError<'a>,
>)
    ensures
        r == infix_result(op, *a, *b),
        r matches Ok(w) ==> value_ok(w, 0),
{
    match op {
        Infix::Equal => Ok(Object::Boolean(a.equals(b))),
        Infix::NotEqual => Ok(Object::Boolean(!a.equals(b))),
        _ => {
            let x = match is_integer(a) {
                Ok(x) => x,
                Err(e) => {
                    return Err(e);
                },
            };
            let y = match is_integer(b) {
                Ok(y) => y,
                Err(e) => {
                    return Err(e);
                },
            };
            eval_integer_infix(op, x, y)
        },
    }
}

fn eval_integer_infix<'a>(op: Infix, x: i64, y: i64) -> (r: Result<Object<'a>, EvalError<'a>>)
    ensures
        r == integer_result(op, x, y),
        r matches Ok(w) ==> value_ok(w, 0),
{
    let v = match op {
        Infix::Plus => x.checked_add(y),
        Infix::Minus => x.checked_sub(y),
        Infix::Multiply => x.checked_mul(y),
        Infix::Divide => {
            if y == 0 {
                return Err(EvalError::DivisionByZero);
            }
            x.checked_div(y)
        },
        Infix::LessThan => {
            return Ok(Object::Boolean(x < y));
        },
        Infix::GreaterThan => {
            return Ok(Object::Boolean(x > y));
        },
        Infix::Equal => {
            return Ok(Object::Boolean(x == y));
        },
        Infix::NotEqual => {
            return Ok(Object::Boolean(x != y));
        },
    };
    match v {
        Some(n) => Ok(Object::Integer(n)),
        None => Err(EvalError::IntegerOverflow),
    }
}

/// The integer inside `v`, or a type mismatch.
fn is_integer<'a>(v: &Object<'a>) -> (r: Result<i64, EvalError<'a>>)
    ensures
        match *v {
            Object::Integer(i) => r == Ok::<i64, EvalError<'a>>(i),
            _ => r == Err::<i64, EvalError<'a>>(EvalError::TypeMismatch),
        },
{
    if let Object::Integer(i) = v {
        Ok(*i)
    } else {
        Err(EvalError::TypeMismatch)
    }
}

/// `t` comes from `s` by adding frames and bindings only; every new binding
/// is in frame `f` or in a frame that `s` did not have.
pub open spec fn grows_from<'a>(s: EnvState<'a>, t: EnvState<'a>, f: usize) -> bool {
    &&& s.outers.len() <= t.outers.len()
    &&& s.bindings.len() <= t.bindings.len()
    &&& t.outers.subrange(0, s.outers.len() as int) == s.outers
    &&& t.bindings.subrange(0, s.bindings.len() as int) == s.bindings
    &&& forall|k: int|
        s.bindings.len() <= k < t.bindings.len() ==> (#[trigger] t.bindings[k]).0 == f
            || t.bindings[k].0 >= s.outers.len()
}

proof fn lemma_grows_refl<'a>(s: EnvState<'a>, f: usize)
    ensures
        grows_from(s, s, f),
{
    assert(s.outers.subrange(0, s.outers.len() as int) =~= s.outers);
    assert(s.bindings.subrange(0, s.bindings.len() as int) =~= s.bindings);
}

proof fn lemma_grows_trans<'a>(s: EnvState<'a>, t: EnvState<'a>, u: EnvState<'a>, f: usize)
    requires
        grows_from(s, t, f),
        grows_from(t, u, f),
    ensures
        grows_from(s, u, f),
{
    assert(u.outers.subrange(0, s.outers.len() as int) =~= u.outers.subrange(
        0,
        t.outers.len() as int,
    ).subrange(0, s.outers.len() as int));
    assert(u.bindings.subrange(0, s.bindings.len() as int) =~= u.bindings.subrange(
        0,
        t.bindings.len() as int,
    ).subrange(0, s.bindings.len() as int));
    assert forall|k: int| s.bindings.len() <= k < u.bindings.len() implies (#[trigger] u.bindings[k]).0
        == f || u.bindings[k].0 >= s.outers.len() by {
        if k < t.bindings.len() {
            assert(u.bindings.subrange(0, t.bindings.len() as int)[k] == u.bindings[k]);
            assert(t.bindings[k] == u.bindings[k]);
        }
    }
}

/// Growth into new frames only is growth for every frame.
proof fn lemma_grows_weaken<'a>(s: EnvState<'a>, t: EnvState<'a>, f: usize)
    requires
        s.outers.len() < usize::MAX,
        grows_from(s, t, s.outers.len() as usize),
    ensures
        grows_from(s, t, f),
{
}

proof fn lemma_bind_grows<'a>(s: EnvState<'a>, f: usize, name: &'a [u8], v: Object<'a>)
    ensures
        grows_from(s, bind(s, f, name, v), f),
{
    let t = bind(s, f, name, v);
    assert(t.bindings.subrange(0, s.bindings.len() as int) =~= s.bindings);
    assert(t.outers.subrange(0, s.outers.len() as int) =~= s.outers);
}

proof fn lemma_bind_params_grows<'a>(
    s: EnvState<'a>,
    f: usize,
    ps: List<&'a [u8]>,
    vs: Seq<Object<'a>>,
    i: int,
)
    ensures
        grows_from(s, bind_params(s, f, ps, vs, i), f),
    decreases ps,
{
    match ps {
        List::Nil => lemma_grows_refl(s, f),
        List::Cons(name, rest) => {
            let s1 = bind(s, f, *name, vs[i]);
            lemma_bind_grows(s, f, *name, vs[i]);
            lemma_bind_params_grows(s1, f, *rest, vs, i + 1);
            lemma_grows_trans(s, s1, bind_params(s1, f, *rest, vs, i + 1), f);
        },
    }
}

proof fn lemma_eval_expression_grows<'a>(s: EnvState<'a>, f: usize, depth: nat, e: Expression<'a>)
    ensures
        grows_from(s, spec_eval_expression(s, f, depth, e).0, f),
    decreases depth, 1int, e,
{
    match e {
        Expression::PrefixExpression(op, r) => {
            lemma_eval_expression_grows(s, f, depth, *r);
        },
        Expression::InfixExpression(l, op, r) => {
            lemma_eval_expression_grows(s, f, depth, *l);
            let (s1, lv) = spec_eval_expression(s, f, depth, *l);
            if lv is Ok {
                lemma_eval_expression_grows(s1, f, depth, *r);
                lemma_grows_trans(s, s1, spec_eval_expression(s1, f, depth, *r).0, f);
            }
        },
        Expression::IfExpression(c, cons, alt) => {
            lemma_eval_expression_grows(s, f, depth, *c);
            let (s1, cv) = spec_eval_expression(s, f, depth, *c);
            match cv {
                Ok(Object::Boolean(true)) => {
                    lemma_eval_block_grows(s1, f, depth, cons);
                    lemma_grows_trans(s, s1, spec_eval_block(s1, f, depth, cons).0, f);
                },
                Ok(Object::Boolean(false)) => match alt {
                    Some(a) => {
                        lemma_eval_block_grows(s1, f, depth, a);
                        lemma_grows_trans(s, s1, spec_eval_block(s1, f, depth, a).0, f);
                    },
                    None => {},
                },
                _ => {},
            }
        },
        Expression::CallExpression(callee, args) => {
            lemma_eval_expression_grows(s, f, depth, *callee);
            let (s1, cv) = spec_eval_expression(s, f, depth, *callee);
            match cv {
                Ok(fv) => match args {
                    None => {
                        lemma_apply_function_grows(s1, depth, fv, None);
                        let s3 = spec_apply_function(s1, depth, fv, None).0;
                        if s1.outers.len() < usize::MAX {
                            lemma_grows_weaken(s1, s3, f);
                        }
                        lemma_grows_trans(s, s1, s3, f);
                    },
                    Some(list) => {
                        lemma_eval_expressions_grows(s1, f, depth, list, seq![]);
                        let (s2, av) = spec_eval_expressions(s1, f, depth, list, seq![]);
                        lemma_grows_trans(s, s1, s2, f);
                        match av {
                            Ok(vs) => {
                                lemma_apply_function_grows(s2, depth, fv, Some(vs));
                                let s3 = spec_apply_function(s2, depth, fv, Some(vs)).0;
                                if s2.outers.len() < usize::MAX {
                                    lemma_grows_weaken(s2, s3, f);
                                }
                                lemma_grows_trans(s, s2, s3, f);
                            },
                            Err(_) => {},
                        }
                    },
                },
                Err(_) => {},
            }
        },
        _ => lemma_grows_refl(s, f),
    }
}

proof fn lemma_eval_expressions_grows<'a>(
    s: EnvState<'a>,
    f: usize,
    depth: nat,
    l: List<Expression<'a>>,
    acc: Seq<Object<'a>>,
)
    ensures
        grows_from(s, spec_eval_expressions(s, f, depth, l, acc).0, f),
    decreases depth, 1int, l,
{
    match l {
        List::Nil => lemma_grows_refl(s, f),
        List::Cons(e, rest) => {
            lemma_eval_expression_grows(s, f, depth, *e);
            let (s1, ev) = spec_eval_expression(s, f, depth, *e);
            match ev {
                Ok(v) => {
                    lemma_eval_expressions_grows(s1, f, depth, *rest, acc.push(v));
                    lemma_grows_trans(
                        s,
                        s1,
                        spec_eval_expressions(s1, f, depth, *rest, acc.push(v)).0,
                        f,
                    );
                },
                Err(_) => {},
            }
        },
    }
}

/// The parameters of a closure.
pub open spec fn fn_params<'a>(fv: Object<'a>) -> Option<List<&'a [u8]>> {
    fv->Function_0.params
}

/// The body of a closure.
pub open spec fn fn_body<'a>(fv: Object<'a>) -> List<Statement<'a>> {
    fv->Function_0.body
}

proof fn lemma_apply_function_grows<'a>(
    s: EnvState<'a>,
    depth: nat,
    fv: Object<'a>,
    args: Option<Seq<Object<'a>>>,
)
    ensures
        grows_from(s, spec_apply_function(s, depth, fv, args).0, s.outers.len() as usize),
    decreases depth, 0int,
{
    let nf = s.outers.len() as usize;
    if fv is Function && arity_ok(fn_params(fv), args) && depth > 0 && s.outers.len() < usize::MAX {
        let s1 = enclose(s, fv->Function_1);
        assert(s1.outers.subrange(0, s.outers.len() as int) =~= s.outers);
        assert(s1.bindings.subrange(0, s.bindings.len() as int) =~= s.bindings);
        let s2 = match (fn_params(fv), args) {
            (Some(ps), Some(vs)) => bind_params(s1, nf, ps, vs, 0),
            _ => s1,
        };
        if fn_params(fv) is Some && args is Some {
            lemma_bind_params_grows(s1, nf, fn_params(fv)->Some_0, args->Some_0, 0);
        } else {
            lemma_grows_refl(s1, nf);
        }
        lemma_grows_trans(s, s1, s2, nf);
        lemma_eval_block_grows(s2, nf, (depth - 1) as nat, fn_body(fv));
        lemma_grows_trans(s, s2, spec_eval_block(s2, nf, (depth - 1) as nat, fn_body(fv)).0, nf);
    } else {
        lemma_grows_refl(s, nf);
    }
}

proof fn lemma_eval_block_grows<'a>(s: EnvState<'a>, f: usize, depth: nat, b: List<Statement<'a>>)
    ensures
        grows_from(s, spec_eval_block(s, f, depth, b).0, f),
    decreases depth, 1int, b,
{
    match b {
        List::Nil => lemma_grows_refl(s, f),
        List::Cons(st, rest) => {
            lemma_eval_statement_grows(s, f, depth, *st);
            let (s1, r) = spec_eval_statement(s, f, depth, *st);
            match r {
                Ok(v) => if !(v is Return || *rest is Nil) {
                    lemma_eval_block_grows(s1, f, depth, *rest);
                    lemma_grows_trans(s, s1, spec_eval_block(s1, f, depth, *rest).0, f);
                },
                Err(_) => {},
            }
        },
    }
}

proof fn lemma_eval_statement_grows<'a>(s: EnvState<'a>, f: usize, depth: nat, st: Statement<'a>)
    ensures
        grows_from(s, spec_eval_statement(s, f, depth, st).0, f),
    decreases depth, 1int, st,
{
    match st {
        Statement::LetStatement(name, e) => {
            lemma_eval_expression_grows(s, f, depth, *e);
            let (s1, r) = spec_eval_expression(s, f, depth, *e);
            if r is Ok && !(r->Ok_0 is Return) {
                let v = r->Ok_0;
                lemma_bind_grows(s1, f, name, v);
                lemma_grows_trans(s, s1, bind(s1, f, name, v), f);
            }
        },
        Statement::ReturnStatement(e) => lemma_eval_expression_grows(s, f, depth, *e),
        Statement::ExpressionStatement(e) => lemma_eval_expression_grows(s, f, depth, *e),
    }
}

/// A call changes nothing that a frame older than the call can see: the
/// call's parameters and the `let` bindings of its body live in a new frame,
/// and are gone for the caller once the call returns.
pub proof fn lemma_call_scope_is_discarded<'a>(
    s: EnvState<'a>,
    depth: nat,
    fv: Object<'a>,
    args: Option<Seq<Object<'a>>>,
    g: usize,
    name: Seq<u8>,
)
    requires
        g < s.outers.len(),
    ensures
        lookup(spec_apply_function(s, depth, fv, args).0, g, name) == lookup(s, g, name),
{
    lemma_apply_function_grows(s, depth, fv, args);
    if s.outers.len() < usize::MAX {
        lemma_lookup_unchanged(s, spec_apply_function(s, depth, fv, args).0, g, name);
    }
}

/// Calling a function with a different number of arguments than it has
/// parameters is a runtime error, an absent list counting as zero.
pub proof fn lemma_arity_mismatch_fails<'a>(
    s: EnvState<'a>,
    depth: nat,
    fv: Object<'a>,
    args: Option<Seq<Object<'a>>>,
)
    requires
        fv is Function,
        match (fn_params(fv), args) {
            (Some(ps), Some(vs)) => ps.len() != vs.len(),
            (None, Some(vs)) => true,
            (Some(ps), None) => true,
            (None, None) => false,
        },
    ensures
        spec_apply_function(s, depth, fv, args) == (s, Err::<Object<'a>, EvalError<'a>>(
            EvalError::ArityMismatch,
        )),
{
}

/// The operators and conditions do not coerce: `!` takes only booleans, `-`
/// and the arithmetic operators only integers, and `if` only a boolean
/// condition.
pub proof fn lemma_type_discipline<'a>(
    op: Infix,
    i: i64,
    b: bool,
    s: EnvState<'a>,
    f: usize,
    depth: nat,
    c: Expression<'a>,
    cons: List<Statement<'a>>,
    alt: Option<List<Statement<'a>>>,
)
    requires
        op != Infix::Equal && op != Infix::NotEqual,
    ensures
        prefix_result(Prefix::Not, Object::<'a>::Integer(i)) == Err::<Object<'a>, EvalError<'a>>(
            EvalError::TypeMismatch,
        ),
        prefix_result(Prefix::PrefixMinus, Object::<'a>::Boolean(b)) == Err::<
            Object<'a>,
            EvalError<'a>,
        >(EvalError::TypeMismatch),
        infix_result(op, Object::<'a>::Integer(i), Object::Boolean(b)) == Err::<
            Object<'a>,
            EvalError<'a>,
        >(EvalError::TypeMismatch),
        infix_result(op, Object::<'a>::Boolean(b), Object::Integer(i)) == Err::<
            Object<'a>,
            EvalError<'a>,
        >(EvalError::TypeMismatch),
        spec_eval_expression(s, f, depth, c).1 matches Ok(v) && !(v is Boolean) ==> spec_eval_expression(
            s,
            f,
            depth,
            Expression::IfExpression(Box::new(c), cons, alt),
        ).1 == Err::<Object<'a>, EvalError<'a>>(EvalError::TypeMismatch),
{
}

} // verus!
