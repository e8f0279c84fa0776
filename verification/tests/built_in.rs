use sexp_interp::built_in::{add, divide, lt, lte, multiply, numberp, subtract};
use sexp_interp::rat::Rat;
use sexp_interp::sexp::Sexp;

fn n(i: i64) -> Sexp {
    Sexp::Number(Rat { num: i, den: 1 })
}

fn q(num: i64, den: i64) -> Sexp {
    Sexp::Number(Rat { num, den })
}

#[test]
fn test_add() {
    assert_eq!(add(vec![n(1)]), Ok(n(1)));
    assert_eq!(add(vec![n(1), n(2), n(3)]), Ok(n(6)));
    assert_eq!(
        add(vec![Sexp::Text("3".to_string())]),
        Err("Argument error: \"3\"".to_string())
    );
}

#[test]
fn test_subtract() {
    assert_eq!(subtract(vec![n(1)]), Ok(n(-1)));
    assert_eq!(subtract(vec![n(1), n(2), n(3)]), Ok(n(-4)));
    assert_eq!(
        subtract(vec![Sexp::Text("3".to_string())]),
        Err("Argument error: \"3\"".to_string())
    );
    assert_eq!(
        subtract(vec![]),
        Err("Invalid number of arguments: 0".to_string())
    );
}

#[test]
fn test_multiply() {
    assert_eq!(multiply(vec![n(1)]), Ok(n(1)));
    assert_eq!(multiply(vec![n(1), n(2), n(3)]), Ok(n(6)));
    assert_eq!(
        multiply(vec![Sexp::Text("3".to_string())]),
        Err("Argument error: \"3\"".to_string())
    );
}

#[test]
fn test_divide() {
    assert_eq!(divide(vec![n(1)]), Ok(n(1)));
    assert_eq!(divide(vec![n(1), n(2), n(3)]), Ok(q(1, 6)));
    assert_eq!(
        divide(vec![]),
        Err("Invalid number of arguments: 0".to_string())
    );
    assert_eq!(
        divide(vec![Sexp::Text("3".to_string())]),
        Err("Argument error: \"3\"".to_string())
    );
    assert_eq!(
        divide(vec![n(1), n(0)]),
        Err("Division by zero".to_string())
    );
}

#[test]
fn test_numberp() {
    assert_eq!(numberp(vec![n(1)]), Ok(Sexp::True));
    assert_eq!(numberp(vec![Sexp::True]), Ok(Sexp::Nil));
    assert_eq!(
        numberp(vec![]),
        Err("Invalid number of arguments: 0".to_string())
    );
    assert_eq!(
        numberp(vec![Sexp::True, Sexp::True]),
        Err("Invalid number of arguments: 2".to_string())
    );
}

#[test]
fn test_lt() {
    assert_eq!(lt(vec![n(1)]), Ok(Sexp::True));
    assert_eq!(lt(vec![n(1), n(2)]), Ok(Sexp::True));
    assert_eq!(lt(vec![n(1), n(2), n(3)]), Ok(Sexp::True));

    assert_eq!(lt(vec![n(2), n(1)]), Ok(Sexp::Nil));
    assert_eq!(lt(vec![n(2), n(2)]), Ok(Sexp::Nil));
    assert_eq!(lt(vec![n(1), n(3), n(2)]), Ok(Sexp::Nil));

    assert_eq!(lt(vec![]), Err("Invalid number of arguments: 0".to_string()));
}

#[test]
fn test_lte() {
    assert_eq!(lte(vec![n(1)]), Ok(Sexp::True));
    assert_eq!(lte(vec![n(1), n(2)]), Ok(Sexp::True));
    assert_eq!(lte(vec![n(2), n(2)]), Ok(Sexp::True));
    assert_eq!(lte(vec![n(1), n(2), n(3)]), Ok(Sexp::True));

    assert_eq!(lte(vec![n(2), n(1)]), Ok(Sexp::Nil));
    assert_eq!(lte(vec![n(1), n(3), n(2)]), Ok(Sexp::Nil));

    assert_eq!(lte(vec![]), Err("Invalid number of arguments: 0".to_string()));
}

#[test]
fn test_add_zero_arity_is_zero() {
    assert_eq!(add(vec![]), Ok(n(0)));
}

#[test]
fn test_add_exact_fractions() {
    assert_eq!(add(vec![q(1, 2), q(1, 3)]), Ok(q(5, 6)));
    assert_eq!(add(vec![q(1, 2), q(1, 2)]), Ok(n(1)));
}

#[test]
fn test_divide_by_zero_any_position() {
    assert_eq!(
        divide(vec![n(8), n(0), n(2)]),
        Err("Division by zero".to_string())
    );
    assert_eq!(
        divide(vec![n(8), n(2), n(0)]),
        Err("Division by zero".to_string())
    );
    assert_eq!(divide(vec![n(0), n(2)]), Ok(n(0)));
}

#[test]
fn test_multiply_overflow_reported() {
    assert_eq!(
        multiply(vec![n(99999999999999999), n(99999999999999999)]),
        Err("Arithmetic overflow".to_string())
    );
}

#[test]
fn test_compare_fractions() {
    assert_eq!(lt(vec![q(1, 3), q(1, 2)]), Ok(Sexp::True));
    assert_eq!(lte(vec![q(2, 4), q(1, 2)]), Ok(Sexp::True));
    assert_eq!(lt(vec![q(1, 2), q(1, 3)]), Ok(Sexp::Nil));
}
