use sexp_interp::built_in::default_env;
use sexp_interp::env::Env;
use sexp_interp::parser::parse;
use sexp_interp::rat::Rat;
use sexp_interp::sexp::Sexp;

const FUEL: u64 = 1000;

fn n(i: i64) -> Sexp {
    Sexp::Number(Rat { num: i, den: 1 })
}

fn run(env: &mut Env, line: &str) -> Result<Sexp, String> {
    let (ast, _) = parse(line.as_bytes()).expect("parse failure");
    ast.eval(env, 0, FUEL)
}

#[test]
fn test_defun_then_call() {
    let mut env = default_env();
    run(&mut env, "(defun sq (n) (* n n))").unwrap();
    assert_eq!(run(&mut env, "(sq 5)"), Ok(n(25)));
}

#[test]
fn test_defparameter_then_if() {
    let mut env = default_env();
    run(&mut env, "(defparameter x 5)").unwrap();
    assert_eq!(run(&mut env, "(if x 1 2)"), Ok(n(1)));
}

#[test]
fn test_unbound_symbol_and_illegal_call() {
    let mut env = default_env();
    assert_eq!(
        run(&mut env, "foo"),
        Err("The variable foo is unbound".to_string())
    );
    assert_eq!(
        run(&mut env, "(1 2 3)"),
        Err("Illegal function call".to_string())
    );
}

#[test]
fn test_round_trip_asymmetry() {
    let mut env = default_env();
    let shown = run(&mut env, "\"abc\"").unwrap().to_display();
    assert_eq!(shown, "\"ABC\"");

    let reparsed = run(&mut env, &shown);
    assert_eq!(reparsed, Ok(Sexp::Text("ABC".to_string())));
    assert_ne!(reparsed, Ok(Sexp::Text("abc".to_string())));
}

#[test]
fn test_sum_of_numbers() {
    let mut env = default_env();
    assert_eq!(run(&mut env, "(+)"), Ok(n(0)));
    assert_eq!(run(&mut env, "(+ 7)"), Ok(n(7)));
    assert_eq!(run(&mut env, "(+ 1 2 3 4)"), Ok(n(10)));
    assert_eq!(
        run(&mut env, "(+ 1.5 2.5)"),
        Ok(Sexp::Number(Rat { num: 4, den: 1 }))
    );
}

#[test]
fn test_subtract_forms() {
    let mut env = default_env();
    assert_eq!(run(&mut env, "(- 7)"), Ok(n(-7)));
    assert_eq!(run(&mut env, "(- 10 2 3)"), Ok(n(5)));
}

#[test]
fn test_divide_zero_anywhere() {
    let mut env = default_env();
    assert_eq!(
        run(&mut env, "(/ 8 0 2)"),
        Err("Division by zero".to_string())
    );
    assert_eq!(
        run(&mut env, "(/ 8 2 0)"),
        Err("Division by zero".to_string())
    );
    assert_eq!(
        run(&mut env, "(/ 8 2 2)"),
        Ok(Sexp::Number(Rat { num: 2, den: 1 }))
    );
}

#[test]
fn test_order_chains() {
    let mut env = default_env();
    assert_eq!(run(&mut env, "(< 1 2 3)"), Ok(Sexp::True));
    assert_eq!(run(&mut env, "(< 1 3 2)"), Ok(Sexp::Nil));
    assert_eq!(run(&mut env, "(<= 2 2 3)"), Ok(Sexp::True));
    assert_eq!(run(&mut env, "(<= 3 2)"), Ok(Sexp::Nil));
    assert_eq!(
        run(&mut env, "(<)"),
        Err("Invalid number of arguments: 0".to_string())
    );
    assert_eq!(
        run(&mut env, "(<=)"),
        Err("Invalid number of arguments: 0".to_string())
    );
}

#[test]
fn test_t_is_bound_and_truthy() {
    let mut env = default_env();
    assert_eq!(run(&mut env, "t"), Ok(Sexp::True));
    assert_eq!(run(&mut env, "(numberp 5)"), Ok(Sexp::True));
    assert_eq!(run(&mut env, "(numberp t)"), Ok(Sexp::Nil));
}

#[test]
fn test_quote_returns_operand_unevaluated() {
    let mut env = default_env();
    assert_eq!(
        run(&mut env, "(quote (/ 1 0))"),
        Ok(Sexp::List(vec![
            Sexp::Symbol("/".to_string()),
            n(1),
            n(0),
        ]))
    );
}

#[test]
fn test_closure_captures_definition_scope() {
    let mut env = default_env();
    run(&mut env, "(defparameter base 10)").unwrap();
    run(&mut env, "(defun addbase (n) (+ n base))").unwrap();
    assert_eq!(run(&mut env, "(addbase 5)"), Ok(n(15)));
    run(&mut env, "(defparameter base 20)").unwrap();
    assert_eq!(run(&mut env, "(addbase 5)"), Ok(n(25)));
}

#[test]
fn test_defun_rejects_bad_shapes() {
    let mut env = default_env();
    assert_eq!(
        run(&mut env, "(defun 5 (a) a)"),
        Err("Argument error: 5".to_string())
    );
    assert_eq!(
        run(&mut env, "(defun f (a 5) a)"),
        Err("Argument error: 5".to_string())
    );
    assert_eq!(
        run(&mut env, "(defun f 5 a)"),
        Err("Argument error: 5".to_string())
    );
}

#[test]
fn test_error_in_argument_aborts_application() {
    let mut env = default_env();
    assert_eq!(
        run(&mut env, "(+ 1 (/ 1 0) 2)"),
        Err("Division by zero".to_string())
    );
}
