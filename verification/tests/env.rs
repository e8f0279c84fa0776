use sexp_interp::env::{env_get, env_new, env_set, Env};
use sexp_interp::rat::Rat;
use sexp_interp::sexp::Sexp;

fn n(i: i64) -> Sexp {
    Sexp::Number(Rat { num: i, den: 1 })
}

#[test]
fn test_get_and_set_with_no_enclosing_env() {
    let mut env = Env { scopes: Vec::new() };
    let root = env_new(&mut env, None);

    assert_eq!(env_get(&env, root, &"k".to_string()), None);

    env_set(&mut env, root, "k".to_string(), n(5));
    assert_eq!(env_get(&env, root, &"k".to_string()), Some(n(5)));
}

#[test]
fn test_get_and_set_with_enclosing_env() {
    let mut env = Env { scopes: Vec::new() };
    let enclosing = env_new(&mut env, None);
    let child = env_new(&mut env, Some(enclosing));

    assert_eq!(env_get(&env, child, &"k".to_string()), None);

    env_set(&mut env, enclosing, "k".to_string(), n(5));
    assert_eq!(env_get(&env, child, &"k".to_string()), Some(n(5)));
}

#[test]
fn test_shadowing_keeps_parent_binding() {
    let mut env = Env { scopes: Vec::new() };
    let parent = env_new(&mut env, None);
    let child = env_new(&mut env, Some(parent));

    env_set(&mut env, parent, "k".to_string(), n(1));
    env_set(&mut env, child, "k".to_string(), n(2));

    assert_eq!(env_get(&env, child, &"k".to_string()), Some(n(2)));
    assert_eq!(env_get(&env, parent, &"k".to_string()), Some(n(1)));
}

#[test]
fn test_last_write_wins() {
    let mut env = Env { scopes: Vec::new() };
    let root = env_new(&mut env, None);

    env_set(&mut env, root, "k".to_string(), n(1));
    env_set(&mut env, root, "k".to_string(), n(2));
    assert_eq!(env_get(&env, root, &"k".to_string()), Some(n(2)));
}
