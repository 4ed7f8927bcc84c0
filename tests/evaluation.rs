use rscheme::environment::Environment;
use rscheme::eval::eval;
use rscheme::types::{EvalError, Value};

fn run(env: &mut Environment, exp: &str) -> Result<Value, EvalError> {
    eval(exp, env)
}

fn integer(r: Result<Value, EvalError>) -> i64 {
    match r {
        Ok(Value::Integer(n)) => n,
        other => panic!("expected an integer, got {:?}", other),
    }
}

#[test]
fn addition_of_integers() {
    let mut env = Environment::new();
    assert_eq!(integer(run(&mut env, "(+ 1 2)")), 3);
}

#[test]
fn division_by_zero_is_an_error() {
    let mut env = Environment::new();
    assert!(matches!(run(&mut env, "(/ 4 0)"), Err(EvalError::DivisionByZero)));
    assert!(matches!(run(&mut env, "(% 4 0)"), Err(EvalError::DivisionByZero)));
}

#[test]
fn define_then_lookup() {
    let mut env = Environment::new();
    assert_eq!(integer(run(&mut env, "(define x 5)")), 5);
    assert_eq!(integer(run(&mut env, "x")), 5);
}

#[test]
fn define_procedure_shorthand() {
    let mut env = Environment::new();
    assert!(matches!(run(&mut env, "(define (square n) (* n n))"), Ok(Value::Procedure(_, _, _))));
    assert_eq!(integer(run(&mut env, "(square 5)")), 25);
}

#[test]
fn let_binds_locally() {
    let mut env = Environment::new();
    assert_eq!(integer(run(&mut env, "(let ((a 1) (b 2)) (+ a b))")), 3);
    assert!(matches!(run(&mut env, "a"), Err(EvalError::UnboundVariable)));
    assert!(matches!(run(&mut env, "b"), Err(EvalError::UnboundVariable)));
}

#[test]
fn if_needs_a_boolean() {
    let mut env = Environment::new();
    assert_eq!(integer(run(&mut env, "(if (> 3 2) 1 2)")), 1);
    assert_eq!(integer(run(&mut env, "(if (< 3 2) 1 2)")), 2);
    assert!(matches!(run(&mut env, "(if (+ 1 2) 1 2)"), Err(EvalError::NotABoolean)));
    assert!(matches!(run(&mut env, "(if #f 1)"), Ok(Value::Null)));
}

#[test]
fn car_of_cons() {
    let mut env = Environment::new();
    assert_eq!(integer(run(&mut env, "(car (cons 1 2))")), 1);
    assert_eq!(integer(run(&mut env, "(cdr (cons 1 2))")), 2);
    assert!(matches!(run(&mut env, "(car 5)"), Err(EvalError::WrongType)));
}

#[test]
fn parameter_shadows_outer_binding() {
    let mut env = Environment::new();
    run(&mut env, "(define x 1)").unwrap();
    run(&mut env, "(define (f x) (+ x 1))").unwrap();
    assert_eq!(integer(run(&mut env, "(f 10)")), 11);
    assert_eq!(integer(run(&mut env, "x")), 1);
}

#[test]
fn cond_picks_first_true_clause() {
    let mut env = Environment::new();
    assert_eq!(integer(run(&mut env, "(cond (#f 1) ((= 1 1) 2) (#t 3))")), 2);
    assert!(matches!(run(&mut env, "(cond (#f 1))"), Ok(Value::Null)));
    assert!(matches!(run(&mut env, "(cond (1 1))"), Err(EvalError::NotABoolean)));
}

#[test]
fn literals_evaluate_to_themselves() {
    let mut env = Environment::new();
    assert_eq!(integer(run(&mut env, "-42")), -42);
    assert!(matches!(run(&mut env, "#t"), Ok(Value::Boolean(true))));
    assert!(matches!(run(&mut env, ""), Ok(Value::Null)));
    match run(&mut env, "'hello") {
        Ok(Value::String(s)) => assert_eq!(s, "hello"),
        other => panic!("unexpected {:?}", other),
    }
}

#[test]
fn errors_are_reported() {
    let mut env = Environment::new();
    assert!(matches!(run(&mut env, "(+ 1 2"), Err(EvalError::ParseError)));
    assert!(matches!(run(&mut env, "y"), Err(EvalError::UnboundVariable)));
    assert!(matches!(run(&mut env, "(5 1)"), Err(EvalError::NotAProcedure)));
    assert!(matches!(run(&mut env, "(+ 1 #t)"), Err(EvalError::WrongType)));
    assert!(matches!(run(&mut env, "(+ 9223372036854775807 1)"), Err(EvalError::Overflow)));
    run(&mut env, "(define (g a b) a)").unwrap();
    assert_eq!(run(&mut env, "(g 1)").unwrap_err(), EvalError::ProcedureArity("g".to_string()));
}

#[test]
fn recursion_through_define() {
    let mut env = Environment::new();
    run(&mut env, "(define (fact n) (if (= n 0) 1 (* n (fact (- n 1)))))").unwrap();
    assert_eq!(integer(run(&mut env, "(fact 10)")), 3628800);
}

#[test]
fn endless_recursion_stops() {
    let mut env = Environment::new();
    run(&mut env, "(define (loop n) (loop n))").unwrap();
    assert!(matches!(run(&mut env, "(loop 1)"), Err(EvalError::DepthExceeded)));
}

#[test]
fn recursion_a_few_hundred_deep() {
    let mut env = Environment::new();
    run(&mut env, "(define (count n) (if (= n 0) 0 (+ 1 (count (- n 1)))))").unwrap();
    assert_eq!(integer(run(&mut env, "(count 200)")), 200);
}

#[test]
fn closures_keep_their_defining_frames() {
    let mut env = Environment::new();
    run(&mut env, "(define (make-adder y) (lambda (x) (+ x y)))").unwrap();
    run(&mut env, "(define add3 (make-adder 3))").unwrap();
    assert_eq!(integer(run(&mut env, "(add3 4)")), 7);
    assert_eq!(integer(run(&mut env, "((make-adder 10) 5)")), 15);
    assert!(matches!(run(&mut env, "y"), Err(EvalError::UnboundVariable)));
}

#[test]
fn callee_does_not_see_caller_locals() {
    let mut env = Environment::new();
    run(&mut env, "(define (peek) z)").unwrap();
    run(&mut env, "(define (outer z) (peek))").unwrap();
    assert!(matches!(run(&mut env, "(outer 1)"), Err(EvalError::UnboundVariable)));
    run(&mut env, "(define z 2)").unwrap();
    assert_eq!(integer(run(&mut env, "(outer 1)")), 2);
}

#[test]
fn local_recursive_helper() {
    let mut env = Environment::new();
    run(&mut env, "(define (outer n) (define (loop i) (if (= i 0) 0 (loop (- i 1)))) (loop n))").unwrap();
    assert_eq!(integer(run(&mut env, "(outer 3)")), 0);
}

#[test]
fn closure_sees_later_bindings_of_its_frame() {
    let mut env = Environment::new();
    run(&mut env, "(define (f) (g))").unwrap();
    run(&mut env, "(define (g) 7)").unwrap();
    assert_eq!(integer(run(&mut env, "(f)")), 7);
    run(&mut env, "(define (counter-like n) (define k (lambda () (+ n m))) (define m 5) (k))").unwrap();
    assert_eq!(integer(run(&mut env, "(counter-like 1)")), 6);
}

#[test]
fn call_frames_are_released() {
    let mut env = Environment::new();
    run(&mut env, "(define (count n) (if (= n 0) 0 (+ 1 (count (- n 1)))))").unwrap();
    assert_eq!(integer(run(&mut env, "(count 50)")), 50);
    assert_eq!(env.frame_count(), 1);
    run(&mut env, "(define (make-adder y) (lambda (x) (+ x y)))").unwrap();
    run(&mut env, "(define add1 (make-adder 1))").unwrap();
    assert_eq!(env.frame_count(), 2);
    assert_eq!(integer(run(&mut env, "(add1 1)")), 2);
}
