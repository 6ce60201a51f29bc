use interpreter::environment::{self, Environment};
use interpreter::evaluator::run_program;
use interpreter::lexer;
use interpreter::object::{EvalError, Object};
use interpreter::parser;

fn run_in<'a>(src: &'a str, env: &mut Environment<'a>) -> Result<Object<'a>, EvalError<'a>> {
    let toks = lexer::new(src).get_tokens();
    let program = parser::new(&toks).parse_program().expect("program parses");
    run_program(program, env)
}

fn run(src: &str) -> Result<Object<'_>, EvalError<'_>> {
    let mut env = environment::new();
    run_in(src, &mut env)
}

#[test]
fn eval_sum_and_product() {
    assert_eq!(run("5 + 5 * 2;"), Ok(Object::Integer(15)));
}

#[test]
fn eval_let_and_comparison() {
    assert_eq!(run("let a = 5; let b = a > 3; b == true;"), Ok(Object::Boolean(true)));
}

#[test]
fn eval_recursive_factorial() {
    assert_eq!(
        run("let fact = fn(n) { if (n < 2) { return 1; } return n * fact(n - 1); }; fact(5);"),
        Ok(Object::Integer(120))
    );
}

#[test]
fn eval_counter_observes_captured_state() {
    assert_eq!(
        run("let makeCounter = fn() { let c = 0; fn() { c } }; let k = makeCounter(); k();"),
        Ok(Object::Integer(0))
    );
}

#[test]
fn eval_grouped_comparison() {
    assert_eq!(run("(1 < 2) == true;"), Ok(Object::Boolean(true)));
}

#[test]
fn eval_immediate_call() {
    assert_eq!(run("fn(x, y) { x + y }(3, 4);"), Ok(Object::Integer(7)));
}

#[test]
fn eval_closure_capture() {
    assert_eq!(
        run("let newAdder = fn(x) { fn(y) { x + y } }; let addTwo = newAdder(2); addTwo(3)"),
        Ok(Object::Integer(5))
    );
}

#[test]
fn eval_return_unwinds_nested_blocks() {
    assert_eq!(
        run("let f = fn() { if (true) { if (true) { return 10; } return 1; } }; f();"),
        Ok(Object::Integer(10))
    );
}

#[test]
fn eval_top_level_return() {
    assert_eq!(run("return 10;"), Ok(Object::Integer(10)));
    assert_eq!(run("if (true) { if (true) { return 10; } return 1; }"), Ok(Object::Integer(10)));
    assert_eq!(run("return 10; 9;"), Ok(Object::Integer(10)));
}

#[test]
fn eval_function_scope_is_discarded() {
    assert_eq!(
        run("let f = fn() { let inner = 1; inner }; f(); inner;"),
        Err(EvalError::NotFound(b"inner"))
    );
}

#[test]
fn eval_parameters_do_not_leak() {
    assert_eq!(
        run("let x = 1; let f = fn(x) { x }; f(2); x;"),
        Ok(Object::Integer(1))
    );
}

#[test]
fn eval_arity_errors() {
    assert_eq!(run("let f = fn() { 1 }; f(1);"), Err(EvalError::ArityMismatch));
    assert_eq!(run("let g = fn(a, b) { a }; g(1);"), Err(EvalError::ArityMismatch));
    assert_eq!(run("let h = fn(a) { a }; h();"), Err(EvalError::ArityMismatch));
}

#[test]
fn eval_type_errors() {
    assert_eq!(run("!5"), Err(EvalError::TypeMismatch));
    assert_eq!(run("-true"), Err(EvalError::TypeMismatch));
    assert_eq!(run("1 + true"), Err(EvalError::TypeMismatch));
    assert_eq!(run("if (1) { 0 }"), Err(EvalError::TypeMismatch));
}

#[test]
fn eval_unknown_identifier() {
    assert_eq!(run("y;"), Err(EvalError::NotFound(b"y")));
}

#[test]
fn eval_not_a_function() {
    assert_eq!(run("5(1);"), Err(EvalError::NotAFunction));
}

#[test]
fn eval_division() {
    assert_eq!(run("7 / 2"), Ok(Object::Integer(3)));
    assert_eq!(run("-7 / 2"), Ok(Object::Integer(-3)));
    assert_eq!(run("1 / 0"), Err(EvalError::DivisionByZero));
}

#[test]
fn eval_integer_overflow() {
    assert_eq!(run("9223372036854775807 + 1"), Err(EvalError::IntegerOverflow));
    assert_eq!(run("9223372036854775808"), Err(EvalError::IntegerOverflow));
    assert_eq!(run("-9223372036854775807 - 2"), Err(EvalError::IntegerOverflow));
    assert_eq!(run("9223372036854775807 * 2"), Err(EvalError::IntegerOverflow));
    assert_eq!(run("-9223372036854775807 - 1"), Ok(Object::Integer(i64::MIN)));
}

#[test]
fn eval_arithmetic_and_comparisons() {
    assert_eq!(run("10 - 4 - 3"), Ok(Object::Integer(3)));
    assert_eq!(run("2 * (3 + 4)"), Ok(Object::Integer(14)));
    assert_eq!(run("3 > 2"), Ok(Object::Boolean(true)));
    assert_eq!(run("3 < 2"), Ok(Object::Boolean(false)));
    assert_eq!(run("3 != 2"), Ok(Object::Boolean(true)));
    assert_eq!(run("!true"), Ok(Object::Boolean(false)));
    assert_eq!(run("-5"), Ok(Object::Integer(-5)));
}

#[test]
fn eval_equality_across_kinds() {
    assert_eq!(run("1 == true"), Ok(Object::Boolean(false)));
    assert_eq!(run("1 != true"), Ok(Object::Boolean(true)));
    assert_eq!(run("true == true"), Ok(Object::Boolean(true)));
}

#[test]
fn eval_function_equality() {
    assert_eq!(run("let f = fn(x) { x }; f == f"), Ok(Object::Boolean(true)));
    assert_eq!(
        run("let f = fn(x) { x }; let g = fn(x) { x }; f == g"),
        Ok(Object::Boolean(true))
    );
    assert_eq!(
        run("let f = fn(x) { x }; let g = fn(y) { 0 }; f == g"),
        Ok(Object::Boolean(false))
    );
    assert_eq!(
        run("let f = fn(x) { x }; let g = fn(x) { x + 1 }; f != g"),
        Ok(Object::Boolean(true))
    );
}

#[test]
fn eval_closures_of_different_frames_differ() {
    assert_eq!(
        run("let mk = fn() { fn() { 1 } }; mk() == mk()"),
        Ok(Object::Boolean(false))
    );
}

#[test]
fn eval_function_equality_across_programs() {
    let first = String::from("let f = fn(x) { x };");
    let second = String::from("let g = fn(y) { 0 };");
    let third = String::from("f == g");
    let mut env = environment::new();
    assert_eq!(run_in(&first, &mut env), Ok(Object::Null));
    assert_eq!(run_in(&second, &mut env), Ok(Object::Null));
    assert_eq!(run_in(&third, &mut env), Ok(Object::Boolean(false)));
}

#[test]
fn eval_return_marker_does_not_escape_program() {
    assert_eq!(run("return if (true) { return 1; };"), Ok(Object::Integer(1)));
}

#[test]
fn eval_return_marker_does_not_escape_call() {
    assert_eq!(
        run("let f = fn() { return if (true) { return 1; }; }; f() + 1"),
        Ok(Object::Integer(2))
    );
    assert_eq!(
        run("let f = fn() { let x = if (true) { return 3; }; 4 }; f()"),
        Ok(Object::Integer(3))
    );
}

#[test]
fn eval_deep_recursion_within_limit() {
    assert_eq!(
        run("let down = fn(n) { if (n < 1) { 0 } else { down(n - 1) } }; down(1500)"),
        Ok(Object::Integer(0))
    );
}

#[test]
fn eval_if_without_else() {
    assert_eq!(run("if (false) { 1 }"), Ok(Object::Null));
    assert_eq!(run("if (false) { 1 } else { 2 }"), Ok(Object::Integer(2)));
}

#[test]
fn eval_empty_program_and_let() {
    assert_eq!(run(""), Ok(Object::Null));
    assert_eq!(run("let a = 1;"), Ok(Object::Null));
}

#[test]
fn eval_unbounded_recursion_stops() {
    assert_eq!(run("let f = fn() { f() }; f();"), Err(EvalError::CallDepthExceeded));
}

#[test]
fn eval_environment_persists_between_programs() {
    let first = String::from("let a = 41;");
    let second = String::from("a + 1");
    let mut env = environment::new();
    assert_eq!(run_in(&first, &mut env), Ok(Object::Null));
    assert_eq!(run_in(&second, &mut env), Ok(Object::Integer(42)));
}

#[test]
fn eval_environment_get_and_set() {
    let mut env = environment::new();
    assert_eq!(env.get(environment::GLOBAL, b"v"), Err(EvalError::NotFound(b"v")));
    env.set(environment::GLOBAL, b"v", Object::Integer(3));
    assert_eq!(env.get(environment::GLOBAL, b"v"), Ok(Object::Integer(3)));
    let inner = environment::new_enclosed_environment(&mut env, environment::GLOBAL);
    assert_eq!(env.get(inner, b"v"), Ok(Object::Integer(3)));
    env.set(inner, b"v", Object::Boolean(true));
    assert_eq!(env.get(inner, b"v"), Ok(Object::Boolean(true)));
    assert_eq!(env.get(environment::GLOBAL, b"v"), Ok(Object::Integer(3)));
}
