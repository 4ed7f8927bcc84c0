use rscheme::environment::Environment;
use rscheme::eval::{choose_branch, eval, eval_all};
use rscheme::parser::{chars_of, get_exp_inside_paren};
use rscheme::primitive_procedures::{
    car, cdr, check_primitive_procedures, cons, div, equal, greater_or_equal_than, greater_than,
    less_or_equal_than, less_than, list, modulo, mul, subtract, sum,
};
use rscheme::read_from_file::split_expressions;
use rscheme::types::{check_for_floats, EvalError, Value};

fn tokens(s: &str) -> Result<Vec<String>, EvalError> {
    get_exp_inside_paren(&chars_of(s)).map(|v| v.iter().map(|t| t.iter().collect::<String>()).collect())
}

fn ints(ns: &[i64]) -> Vec<Value> {
    ns.iter().map(|n| Value::Integer(*n)).collect()
}

fn as_int(r: Result<Value, EvalError>) -> i64 {
    match r {
        Ok(Value::Integer(n)) => n,
        other => panic!("expected an integer, got {:?}", other),
    }
}

fn as_bool(r: Result<Value, EvalError>) -> bool {
    match r {
        Ok(Value::Boolean(b)) => b,
        other => panic!("expected a boolean, got {:?}", other),
    }
}

#[test]
fn parser_splits_top_level_groups() {
    assert_eq!(tokens("(+ 1 2)").unwrap(), vec!["+", "1", "2"]);
    assert_eq!(tokens("(define (f x) (+ x 1))").unwrap(), vec!["define", "(f x)", "(+ x 1)"]);
    assert_eq!(tokens("(a   b)").unwrap(), vec!["a", "b"]);
    assert_eq!(tokens("()").unwrap(), Vec::<String>::new());
    assert_eq!(tokens("abc").unwrap(), vec!["abc"]);
}

#[test]
fn parser_rejects_unmatched_parentheses() {
    assert_eq!(tokens("(+ 1 (2)"), Err(EvalError::ParseError));
    assert_eq!(tokens("(+ 1 2))"), Err(EvalError::ParseError));
    assert_eq!(tokens("(a) b)"), Err(EvalError::ParseError));
    assert_eq!(tokens("x)"), Err(EvalError::ParseError));
}

#[test]
fn parser_rejoined_atoms_round_trip() {
    let parts = vec!["foo", "12", "-3", "#t"];
    let text = format!("({})", parts.join(" "));
    assert_eq!(tokens(&text).unwrap(), parts);
}

#[test]
fn arithmetic_primitives() {
    assert_eq!(as_int(sum(&ints(&[1, 2, 3]))), 6);
    assert_eq!(as_int(sum(&ints(&[]))), 0);
    assert_eq!(as_int(subtract(&ints(&[10, 1, 2]))), 7);
    assert_eq!(as_int(subtract(&ints(&[5]))), 5);
    assert_eq!(as_int(mul(&ints(&[2, 3, 4]))), 24);
    assert_eq!(as_int(mul(&ints(&[]))), 1);
    assert_eq!(as_int(div(&ints(&[7, 2]))), 3);
    assert_eq!(as_int(div(&ints(&[-7, 2]))), -3);
    assert_eq!(as_int(modulo(&ints(&[-7, 2]))), -1);
    assert_eq!(as_int(modulo(&ints(&[7, -2]))), 1);
}

#[test]
fn arithmetic_errors() {
    assert_eq!(sum(&vec![Value::Integer(1), Value::Boolean(true)]).unwrap_err(), EvalError::WrongType);
    assert_eq!(div(&ints(&[1])).unwrap_err(), EvalError::WrongArity);
    assert_eq!(div(&ints(&[1, 0])).unwrap_err(), EvalError::DivisionByZero);
    assert_eq!(modulo(&ints(&[1, 0])).unwrap_err(), EvalError::DivisionByZero);
    assert_eq!(div(&ints(&[i64::MIN, -1])).unwrap_err(), EvalError::Overflow);
    assert_eq!(modulo(&ints(&[i64::MIN, -1])).unwrap_err(), EvalError::Overflow);
    assert_eq!(mul(&ints(&[i64::MAX, 2])).unwrap_err(), EvalError::Overflow);
    assert_eq!(subtract(&ints(&[i64::MIN, 1])).unwrap_err(), EvalError::Overflow);
    assert_eq!(as_int(sum(&ints(&[i64::MAX, -1, 1]))), i64::MAX);
}

#[test]
fn comparison_primitives() {
    assert!(as_bool(less_than(&ints(&[1, 2]))));
    assert!(!as_bool(greater_than(&ints(&[1, 2]))));
    assert!(as_bool(less_or_equal_than(&ints(&[2, 2]))));
    assert!(as_bool(greater_or_equal_than(&ints(&[3, 2]))));
    assert!(as_bool(equal(&ints(&[4, 4]))));
    assert!(!as_bool(equal(&vec![Value::Integer(1), Value::Null])));
    assert!(as_bool(equal(&vec![Value::Null, Value::Null])));
    assert_eq!(less_than(&vec![Value::Null, Value::Integer(1)]).unwrap_err(), EvalError::WrongType);
    assert_eq!(greater_than(&ints(&[1])).unwrap_err(), EvalError::WrongArity);
}

#[test]
fn pair_primitives() {
    let p = cons(&ints(&[1, 2])).unwrap();
    assert_eq!(p.to_text(), "(1 . 2)");
    assert_eq!(as_int(car(&vec![p.copy()])), 1);
    assert_eq!(as_int(cdr(&vec![p])), 2);
    assert_eq!(car(&ints(&[5])).unwrap_err(), EvalError::WrongType);
    assert_eq!(cdr(&vec![Value::Null]).unwrap_err(), EvalError::WrongType);
    assert_eq!(list(&ints(&[1, 2, 3])).to_text(), "(1 2 3)");
    assert!(matches!(list(&ints(&[])), Value::Null));
}

#[test]
fn primitive_table_by_name() {
    let r = check_primitive_procedures(&chars_of("+"), &ints(&[1, 2])).unwrap();
    assert_eq!(as_int(r), 3);
    let r = check_primitive_procedures(&chars_of("null?"), &vec![Value::Null]).unwrap();
    assert!(as_bool(r));
    let r = check_primitive_procedures(&chars_of("pair?"), &ints(&[1])).unwrap();
    assert!(!as_bool(r));
    let r = check_primitive_procedures(&chars_of("and"), &vec![Value::Boolean(true), Value::Boolean(false)]);
    assert!(!as_bool(r.unwrap()));
    assert!(check_primitive_procedures(&chars_of("frobnicate"), &ints(&[])).is_none());
}

#[test]
fn check_for_floats_on_numbers() {
    assert_eq!(check_for_floats(&ints(&[1, 2])), Ok(false));
    assert_eq!(check_for_floats(&vec![Value::Boolean(true)]), Err(()));
}

#[test]
fn printed_forms() {
    let mut env = Environment::new();
    assert_eq!(eval("(list 1 (list 2 3) 4)", &mut env).unwrap().to_text(), "(1 (2 3) 4)");
    assert_eq!(eval("(cons 1 (cons 2 3))", &mut env).unwrap().to_text(), "(1 2 . 3)");
    assert_eq!(eval("(cons 1 ())", &mut env).unwrap().to_text(), "(1)");
    assert_eq!(eval("-120", &mut env).unwrap().to_text(), "-120");
    assert_eq!(eval("#f", &mut env).unwrap().to_text(), "#f");
    assert_eq!(eval("()", &mut env).unwrap().to_text(), "()");
    assert_eq!(Value::Integer(i64::MIN).to_text(), "-9223372036854775808");
}

#[test]
fn printed_integer_reads_back() {
    let mut env = Environment::new();
    for n in [0i64, 7, -7, 1234567, i64::MAX, i64::MIN] {
        let text = Value::Integer(n).to_text();
        assert_eq!(as_int(eval(&text, &mut env)), n);
    }
}

#[test]
fn environment_shadowing_and_frames() {
    let mut env = Environment::new();
    env.add_value("x", Value::Integer(1));
    env.push_child(0);
    assert_eq!(env.frame_count(), 2);
    assert_eq!(env.current(), 1);
    env.add_value("x", Value::Integer(2));
    assert!(matches!(env.get_value(&"x".to_string()), Some(Value::Integer(2))));
    env.set_current(0);
    assert!(matches!(env.get_value(&"x".to_string()), Some(Value::Integer(1))));
    env.add_value("x", Value::Integer(3));
    assert!(matches!(env.get_value(&"x".to_string()), Some(Value::Integer(3))));
    assert!(env.get_value(&"y".to_string()).is_none());
    env.release_from(1);
    assert_eq!(env.frame_count(), 1);
    let inner = Environment::new_with_enclosing(env);
    assert_eq!(inner.frame_count(), 2);
    assert!(matches!(inner.get_value(&"x".to_string()), Some(Value::Integer(3))));
}

#[test]
fn lambda_makes_a_procedure() {
    let mut env = Environment::new();
    match eval("(lambda (a b) (+ a b))", &mut env) {
        Ok(Value::Procedure(params, body, _)) => {
            assert_eq!(params, vec!["a", "b"]);
            assert_eq!(body, vec!["(+ a b)"]);
        }
        other => panic!("unexpected {:?}", other),
    }
    assert!(matches!(eval("(lambda x)", &mut env), Err(EvalError::WrongArity)));
    assert!(matches!(eval("(lambda x 1)", &mut env), Err(EvalError::WrongType)));
    assert!(matches!(eval("(lambda ((a) b) 1)", &mut env), Err(EvalError::WrongType)));
    assert_eq!(as_int(eval("((lambda (a b) (define c 3) (+ a b c)) 1 2)", &mut env)), 6);
    assert!(matches!(eval("c", &mut env), Err(EvalError::UnboundVariable)));
}

#[test]
fn file_lines_split_into_expressions() {
    let lines: Vec<String> = vec!["(define (f x)", "  (* x 2))", "", "(f 4)"]
        .into_iter()
        .map(String::from)
        .collect();
    let exprs = split_expressions(&lines).unwrap();
    assert_eq!(exprs, vec!["(define (f x) (* x 2))", "(f 4)"]);
    let mut env = Environment::new();
    assert_eq!(as_int(eval_all(&exprs, &mut env)), 8);
    assert!(matches!(eval_all(&Vec::new(), &mut env), Ok(Value::Null)));
    let bad: Vec<String> = vec!["(define x".to_string()];
    assert_eq!(split_expressions(&bad), Err(EvalError::LoadError));
}

#[test]
fn load_evaluates_a_read_file_in_place() {
    let mut env = Environment::new();
    assert!(matches!(eval("(define z (load lib))", &mut env), Err(EvalError::LoadError)));
    assert_eq!(env.missing_source(), Some("lib".to_string()));
    assert!(env.get_value(&"z".to_string()).is_none());
    env.add_source("lib", vec!["(define (twice n) (* 2 n))".to_string(), "(twice 21)".to_string()]);
    assert_eq!(as_int(eval("(+ 0 (load lib))", &mut env)), 42);
    assert_eq!(as_int(eval("(twice 4)", &mut env)), 8);
    assert!(matches!(eval("(load)", &mut env), Err(EvalError::WrongArity)));
    let mut copy = env.snapshot();
    assert_eq!(copy.missing_source(), None);
    assert_eq!(as_int(eval("(twice 5)", &mut copy)), 10);
    assert_eq!(env.find_source(&"lib".to_string()).unwrap().len(), 2);
}

#[test]
fn let_errors() {
    let mut env = Environment::new();
    assert!(matches!(eval("(let ((a)) a)", &mut env), Err(EvalError::WrongType)));
    assert!(matches!(eval("(let ((a 1)))", &mut env), Err(EvalError::WrongArity)));
    assert_eq!(as_int(eval("(let ((a 1)) (let ((a 2)) a))", &mut env)), 2);
}

#[test]
fn value_ordering() {
    let (a, b) = (Value::Integer(1), Value::Integer(2));
    assert!(a.lt(&b) && a.le(&b) && !a.gt(&b) && !a.ge(&b));
    assert!(a.le(&a) && a.ge(&a) && !a.lt(&a));
    assert!(a.eq(&Value::Integer(1)) && a.ne(&b));
    assert_eq!(a.partial_cmp(&b), Some(-1));
    assert_eq!(a.partial_cmp(&Value::Null), None);
    assert!(!a.lt(&Value::Boolean(true)) && !a.ge(&Value::Boolean(true)));
    assert!(Value::String("x".to_string()).eq(&Value::String("x".to_string())));
}

#[test]
fn branch_choice_needs_a_boolean() {
    assert_eq!(choose_branch(&Value::Boolean(true), false), Ok(Some(true)));
    assert_eq!(choose_branch(&Value::Boolean(false), true), Ok(Some(false)));
    assert_eq!(choose_branch(&Value::Boolean(false), false), Ok(None));
    assert_eq!(choose_branch(&Value::Integer(3), true), Err(EvalError::NotABoolean));
    assert_eq!(choose_branch(&Value::Null, true), Err(EvalError::NotABoolean));
}

#[test]
fn exact_totals_do_not_overflow_early() {
    assert_eq!(as_int(sum(&ints(&[i64::MAX, 1, -1]))), i64::MAX);
    assert_eq!(as_int(mul(&ints(&[i64::MAX, 2, 0]))), 0);
    assert_eq!(as_int(subtract(&ints(&[5, i64::MAX, 1, -i64::MAX]))), 4);
    assert_eq!(as_int(mul(&ints(&[i64::MIN, 1]))), i64::MIN);
    assert_eq!(mul(&ints(&[i64::MIN, -1])).unwrap_err(), EvalError::Overflow);
    assert_eq!(sum(&ints(&[i64::MAX, i64::MAX])).unwrap_err(), EvalError::Overflow);
}

#[test]
fn closing_before_opening_is_a_load_error() {
    let lines: Vec<String> = vec![")(".to_string()];
    assert_eq!(split_expressions(&lines), Err(EvalError::LoadError));
    let lines: Vec<String> = vec!["(a))".to_string(), "((b)".to_string()];
    assert_eq!(split_expressions(&lines), Err(EvalError::LoadError));
}

#[test]
fn failed_define_binds_nothing() {
    let mut env = Environment::new();
    assert!(matches!(eval("(define y (car 5))", &mut env), Err(EvalError::WrongType)));
    assert!(env.get_value(&"y".to_string()).is_none());
    assert!(matches!(eval("(+ 1 (car 5))", &mut env), Err(EvalError::WrongType)));
}
