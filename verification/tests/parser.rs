use sexp_interp::parser::{parse, parse_list, parse_number, parse_string, parse_symbol};
use sexp_interp::rat::Rat;
use sexp_interp::sexp::Sexp;

fn n(i: i64) -> Sexp {
    Sexp::Number(Rat { num: i, den: 1 })
}

fn q(num: i64, den: i64) -> Sexp {
    Sexp::Number(Rat { num, den })
}

fn sym(s: &str) -> Sexp {
    Sexp::Symbol(s.to_string())
}

#[test]
fn test_number() {
    assert_eq!(parse_number(b"12"), Some((n(12), 2)));
    assert_eq!(parse_number(b"+12"), Some((n(12), 3)));
    assert_eq!(parse_number(b"-12"), Some((n(-12), 3)));
    assert_eq!(parse_number(b"12."), Some((n(12), 3)));
    assert_eq!(parse_number(b"12.34"), Some((q(617, 50), 5)));
    assert_eq!(parse_number(b"-12.34"), Some((q(-617, 50), 6)));
    assert_eq!(parse_number(b".34"), Some((q(17, 50), 3)));
    assert_eq!(parse_number(b"-.34"), Some((q(-17, 50), 4)));
}

#[test]
fn test_string() {
    assert_eq!(
        parse_string(b"\"\""),
        Some((Sexp::Text("".to_string()), 2))
    );
    assert_eq!(
        parse_string(b"\"string\""),
        Some((Sexp::Text("string".to_string()), 8))
    );
    assert_eq!(
        parse_string(b"\"str\\\"ing\""),
        Some((Sexp::Text("str\\\"ing".to_string()), 10))
    );
}

#[test]
fn test_symbol() {
    assert_eq!(parse_symbol(b"sym"), Some((sym("sym"), 3)));
    assert_eq!(parse_symbol(b"sym12"), Some((sym("sym12"), 5)));
    assert_eq!(parse_symbol(b"12sym"), Some((sym("12sym"), 5)));
    assert_eq!(parse_symbol(b"sym!"), Some((sym("sym!"), 4)));
    assert_eq!(parse_symbol(b"!sym"), Some((sym("!sym"), 4)));
}

#[test]
fn test_list() {
    assert_eq!(parse_list(b"()"), Some((Sexp::List(vec![]), 2)));
    assert_eq!(
        parse_list(b"(())"),
        Some((Sexp::List(vec![Sexp::List(vec![])]), 4))
    );
    assert_eq!(parse_list(b"(a)"), Some((Sexp::List(vec![sym("a")]), 3)));
    assert_eq!(
        parse_list(b"(\ta\t)"),
        Some((Sexp::List(vec![sym("a")]), 5))
    );
    assert_eq!(
        parse_list(b"(a b)"),
        Some((Sexp::List(vec![sym("a"), sym("b")]), 5))
    );
    assert_eq!(
        parse_list(b"(a\t\tb)"),
        Some((Sexp::List(vec![sym("a"), sym("b")]), 6))
    );
}

#[test]
fn test_sexp() {
    assert_eq!(parse(b"12"), Some((n(12), 2)));
    assert_eq!(parse(b"\"\""), Some((Sexp::Text("".to_string()), 2)));
    assert_eq!(parse(b"sym"), Some((sym("sym"), 3)));
    assert_eq!(parse(b"()"), Some((Sexp::List(vec![]), 2)));
}

#[test]
fn test_trailing_input_is_kept() {
    assert_eq!(parse(b"12 34"), Some((n(12), 2)));
    assert_eq!(parse(b"(a) b"), Some((Sexp::List(vec![sym("a")]), 3)));
}

#[test]
fn test_parse_failures() {
    assert_eq!(parse(b""), None);
    assert_eq!(parse(b"(a"), None);
    assert_eq!(parse(b"\"unclosed"), None);
    assert_eq!(parse(b")"), None);
    assert_eq!(parse(b"(a\"b\")"), None);
}

#[test]
fn test_number_overflow_is_a_parse_failure() {
    assert_eq!(parse(b"99999999999999999999"), None);
}

#[test]
fn test_nested_list() {
    assert_eq!(
        parse(b"(+ 1 (* 2 3))"),
        Some((
            Sexp::List(vec![
                sym("+"),
                n(1),
                Sexp::List(vec![sym("*"), n(2), n(3)]),
            ]),
            13
        ))
    );
}
