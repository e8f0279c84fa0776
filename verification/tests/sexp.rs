use sexp_interp::built_in::default_env;
use sexp_interp::env::{env_get, env_new, env_set, Env};
use sexp_interp::rat::Rat;
use sexp_interp::sexp::{BuiltIn, FuncData, Sexp};

const FUEL: u64 = 1000;

fn n(i: i64) -> Sexp {
    Sexp::Number(Rat { num: i, den: 1 })
}

fn sym(s: &str) -> Sexp {
    Sexp::Symbol(s.to_string())
}

fn fresh() -> (Env, usize) {
    let mut env = Env { scopes: Vec::new() };
    let root = env_new(&mut env, None);
    (env, root)
}

#[test]
fn test_eval_with_self_evaluating_sexps() {
    let (mut env, root) = fresh();

    assert_eq!(n(5).eval(&mut env, root, FUEL), Ok(n(5)));
    assert_eq!(
        Sexp::Text("str".to_string()).eval(&mut env, root, FUEL),
        Ok(Sexp::Text("str".to_string()))
    );
    assert_eq!(Sexp::Nil.eval(&mut env, root, FUEL), Ok(Sexp::Nil));
    assert_eq!(Sexp::True.eval(&mut env, root, FUEL), Ok(Sexp::True));
}

#[test]
fn test_eval_with_symbol() {
    let (mut env, root) = fresh();

    assert_eq!(
        sym("sym").eval(&mut env, root, FUEL),
        Err("The variable sym is unbound".to_string())
    );

    env_set(&mut env, root, "sym".to_string(), n(5));
    assert_eq!(sym("sym").eval(&mut env, root, FUEL), Ok(n(5)));
}

#[test]
fn test_eval_with_empty_list() {
    let (mut env, root) = fresh();

    assert_eq!(Sexp::List(vec![]).eval(&mut env, root, FUEL), Ok(Sexp::Nil));
}

#[test]
fn test_eval_with_list_with_func_in_front() {
    let (mut env, root) = fresh();
    env_set(
        &mut env,
        root,
        "func".to_string(),
        Sexp::BuiltInFunc(BuiltIn::Numberp),
    );

    assert_eq!(
        Sexp::List(vec![sym("func"), Sexp::True]).eval(&mut env, root, FUEL),
        Ok(Sexp::Nil)
    );
}

#[test]
fn test_eval_with_list_with_func_in_front_that_errors() {
    let (mut env, root) = fresh();
    env_set(
        &mut env,
        root,
        "func".to_string(),
        Sexp::BuiltInFunc(BuiltIn::Divide),
    );

    assert_eq!(
        Sexp::List(vec![sym("func"), n(1), n(0)]).eval(&mut env, root, FUEL),
        Err("Division by zero".to_string())
    );
}

#[test]
fn test_eval_with_user_func_in_front() {
    let (mut env, root) = fresh();
    let func_data = FuncData::new(vec!["n".to_string()], sym("n"), root);
    env_set(&mut env, root, "func".to_string(), Sexp::UserFunc(func_data));

    assert_eq!(
        Sexp::List(vec![sym("func"), n(5)]).eval(&mut env, root, FUEL),
        Ok(n(5))
    );
}

#[test]
fn test_eval_with_list_non_func() {
    let (mut env, root) = fresh();

    assert_eq!(
        Sexp::List(vec![n(5)]).eval(&mut env, root, FUEL),
        Err("Illegal function call".to_string())
    );
}

#[test]
fn test_eval_with_defparameter() {
    let (mut env, root) = fresh();

    assert_eq!(
        Sexp::List(vec![sym("defparameter"), sym("a"), n(5)]).eval(&mut env, root, FUEL),
        Ok(sym("a"))
    );
    assert_eq!(env_get(&env, root, &"a".to_string()), Some(n(5)));

    assert_eq!(
        Sexp::List(vec![sym("defparameter"), n(5), n(5)]).eval(&mut env, root, FUEL),
        Err("5 is not a legal info name".to_string())
    );
}

#[test]
fn test_eval_with_if() {
    let (mut env, root) = fresh();

    assert_eq!(
        Sexp::List(vec![sym("if"), Sexp::True, n(1), n(2)]).eval(&mut env, root, FUEL),
        Ok(n(1))
    );
    assert_eq!(
        Sexp::List(vec![sym("if"), Sexp::True, n(1), n(2)]).eval(&mut env, root, FUEL),
        Ok(n(1))
    );

    assert_eq!(
        Sexp::List(vec![sym("if"), Sexp::Nil, n(1), n(2)]).eval(&mut env, root, FUEL),
        Ok(n(2))
    );
}

#[test]
fn test_eval_with_quote() {
    let (mut env, root) = fresh();

    assert_eq!(
        Sexp::List(vec![sym("quote"), Sexp::List(vec![n(5)])]).eval(&mut env, root, FUEL),
        Ok(Sexp::List(vec![n(5)]))
    );
}

#[test]
fn test_eval_with_defun() {
    let (mut env, root) = fresh();

    assert_eq!(
        Sexp::List(vec![
            sym("defun"),
            sym("identity"),
            Sexp::List(vec![sym("n")]),
            sym("n"),
        ])
        .eval(&mut env, root, FUEL),
        Ok(sym("identity"))
    );
}

#[test]
fn test_if_laziness() {
    let mut env = default_env();
    let root = 0;

    let erroring = Sexp::List(vec![sym("/"), n(1), n(0)]);
    assert_eq!(
        Sexp::List(vec![sym("if"), Sexp::True, n(1), erroring.duplicate()])
            .eval(&mut env, root, FUEL),
        Ok(n(1))
    );
    assert_eq!(
        Sexp::List(vec![sym("if"), Sexp::Nil, erroring, n(2)]).eval(&mut env, root, FUEL),
        Ok(n(2))
    );
}

#[test]
fn test_partial_application_leaves_names_unbound() {
    let (mut env, root) = fresh();

    Sexp::List(vec![
        sym("defun"),
        sym("second"),
        Sexp::List(vec![sym("a"), sym("b")]),
        sym("b"),
    ])
    .eval(&mut env, root, FUEL)
    .unwrap();

    assert_eq!(
        Sexp::List(vec![sym("second"), n(1)]).eval(&mut env, root, FUEL),
        Err("The variable b is unbound".to_string())
    );
    assert_eq!(
        Sexp::List(vec![sym("second"), n(1), n(2), n(3)]).eval(&mut env, root, FUEL),
        Ok(n(2))
    );
}

#[test]
fn test_display_forms() {
    assert_eq!(n(25).to_display(), "25");
    assert_eq!(n(-3).to_display(), "-3");
    assert_eq!(Sexp::Number(Rat { num: 1, den: 6 }).to_display(), "1/6");
    assert_eq!(Sexp::Nil.to_display(), "NIL");
    assert_eq!(Sexp::True.to_display(), "T");
    assert_eq!(Sexp::List(vec![]).to_display(), "()");
    assert_eq!(
        Sexp::List(vec![sym("a"), n(1), Sexp::List(vec![])]).to_display(),
        "(a 1 ())"
    );
    assert_eq!(Sexp::BuiltInFunc(BuiltIn::Add).to_display(), "<fn>");
    assert_eq!(Sexp::Text("abc".to_string()).to_display(), "\"ABC\"");
}

#[test]
fn test_depth_exhaustion_is_an_error() {
    let (mut env, root) = fresh();

    Sexp::List(vec![
        sym("defun"),
        sym("spin"),
        Sexp::List(vec![sym("n")]),
        Sexp::List(vec![sym("spin"), sym("n")]),
    ])
    .eval(&mut env, root, FUEL)
    .unwrap();

    assert_eq!(
        Sexp::List(vec![sym("spin"), n(1)]).eval(&mut env, root, 50),
        Err("Evaluation depth exceeded".to_string())
    );
}
