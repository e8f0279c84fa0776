use crate::built_in::{
    all_numbers, args_wf, arity_error_msg, chain_holds, div_zero_msg, fold_op, lemma_nums_of,
    nums_of, spec_add, spec_compare, spec_divide, spec_subtract,
};
use crate::env::{lookup, ScopeV};
use crate::eval::{env_after_set, spec_eval, spec_if};
use crate::rat::{
    frac_add, frac_div, frac_mul, frac_of, frac_sub, lemma_norm_value, rat_is_frac, rat_le,
    rat_lt, rat_wf, signed, Rat,
};
use crate::sexp::SexpV;
use vstd::math::abs;
use vstd::prelude::*;

verus! {

/// One exact fraction step of the given arithmetic operation.
pub open spec fn frac_op(op: crate::sexp::BuiltIn, a: (int, int), b: (int, int)) -> (int, int) {
    match op {
        crate::sexp::BuiltIn::Add => frac_add(a, b),
        crate::sexp::BuiltIn::Subtract => frac_sub(a, b),
        crate::sexp::BuiltIn::Multiply => frac_mul(a, b),
        _ => frac_div(a, b),
    }
}

/// A left fold of exact fraction arithmetic over rationals.
pub open spec fn frac_fold(op: crate::sexp::BuiltIn, acc: (int, int), rest: Seq<Rat>) -> (
    int,
    int,
)
    decreases rest.len(),
{
    if rest.len() == 0 {
        acc
    } else {
        frac_fold(op, frac_op(op, acc, frac_of(rest[0])), rest.drop_first())
    }
}

/// The exact sum of a sequence of rationals, starting from zero.
pub open spec fn frac_sum(ns: Seq<Rat>) -> (int, int) {
    frac_fold(crate::sexp::BuiltIn::Add, (0, 1), ns)
}

/// Every rational of the sequence is well formed.
pub open spec fn rats_wf(ns: Seq<Rat>) -> bool {
    forall|i: int| 0 <= i < ns.len() ==> rat_wf(#[trigger] ns[i])
}

/// The operation is one of the four arithmetic folds.
pub open spec fn is_arith(op: crate::sexp::BuiltIn) -> bool {
    op is Add || op is Subtract || op is Multiply || op is Divide
}

/// No divisor of the sequence is zero (only division cares).
pub open spec fn divisors_ok(op: crate::sexp::BuiltIn, ns: Seq<Rat>) -> bool {
    op is Divide ==> forall|i: int| 0 <= i < ns.len() ==> (#[trigger] ns[i]).num != 0
}

/// One reduced arithmetic step denotes exactly the fraction-level step.
proof fn lemma_step_exact(op: crate::sexp::BuiltIn, a: Rat, b: Rat)
    requires
        is_arith(op),
        rat_wf(a),
        rat_wf(b),
        op is Divide ==> b.num != 0,
        crate::built_in::spec_rat_op(op, a, b) is Some,
    ensures
        ({
            let x = crate::built_in::spec_rat_op(op, a, b).unwrap();
            let f = frac_op(op, frac_of(a), frac_of(b));
            rat_wf(x) && f.1 != 0 && x.num * f.1 == f.0 * x.den
        }),
{
    let x = crate::built_in::spec_rat_op(op, a, b).unwrap();
    let f = frac_op(op, frac_of(a), frac_of(b));
    if op is Divide {
        let n = a.num * b.den;
        let d = a.den * b.num;
        assert(d != 0) by (nonlinear_arith)
            requires
                a.den >= 1,
                b.num != 0,
                d == a.den * b.num,
        ;
        lemma_norm_value((n < 0) != (d < 0), abs(n as int), abs(d as int));
        assert(x.num * abs(d as int) == signed((n < 0) != (d < 0), abs(n as int)) * x.den);
        assert(x.num * d == n * x.den) by (nonlinear_arith)
            requires
                d != 0,
                x.num * abs(d as int) == signed((n < 0) != (d < 0), abs(n as int)) * x.den,
                abs(d as int) == if d < 0 {
                    -d
                } else {
                    d as int
                },
                abs(n as int) == if n < 0 {
                    -n
                } else {
                    n as int
                },
                signed((n < 0) != (d < 0), abs(n as int)) == (if (n < 0) != (d < 0) {
                    -(abs(n as int) as int)
                } else {
                    abs(n as int) as int
                }),
        ;
    } else {
        let n: int = if op is Add {
            a.num * b.den + b.num * a.den
        } else if op is Subtract {
            a.num * b.den - b.num * a.den
        } else {
            a.num * b.num
        };
        let d: int = if op is Multiply {
            a.den * b.den
        } else {
            a.den * b.den
        };
        assert(d >= 1) by (nonlinear_arith)
            requires
                a.den >= 1,
                b.den >= 1,
                d == a.den * b.den,
        ;
        lemma_norm_value(n < 0, abs(n), d as nat);
        assert(signed(n < 0, abs(n)) == n);
        assert(x.num * d == n * x.den);
    }
}

/// Folds over fraction-equal seeds stay fraction-equal.
#[verifier::rlimit(100)]
proof fn lemma_frac_fold_eq(
    op: crate::sexp::BuiltIn,
    f1: (int, int),
    f2: (int, int),
    rest: Seq<Rat>,
)
    requires
        is_arith(op),
        rats_wf(rest),
        divisors_ok(op, rest),
        f1.1 != 0,
        f2.1 != 0,
        f1.0 * f2.1 == f2.0 * f1.1,
    ensures
        ({
            let g1 = frac_fold(op, f1, rest);
            let g2 = frac_fold(op, f2, rest);
            g1.1 != 0 && g2.1 != 0 && g1.0 * g2.1 == g2.0 * g1.1
        }),
    decreases rest.len(),
{
    if rest.len() == 0 {
    } else {
        let b = rest[0];
        let h1 = frac_op(op, f1, frac_of(b));
        let h2 = frac_op(op, f2, frac_of(b));
        let bn = b.num as int;
        let bd = b.den as int;
        if op is Add {
            assert(h1.1 != 0 && h2.1 != 0 && h1.0 * h2.1 == h2.0 * h1.1) by (nonlinear_arith)
                requires
                    f1.1 != 0,
                    f2.1 != 0,
                    bd >= 1,
                    f1.0 * f2.1 == f2.0 * f1.1,
                    h1 == (f1.0 * bd + bn * f1.1, f1.1 * bd),
                    h2 == (f2.0 * bd + bn * f2.1, f2.1 * bd),
            ;
        } else if op is Subtract {
            assert(h1.1 != 0 && h2.1 != 0 && h1.0 * h2.1 == h2.0 * h1.1) by (nonlinear_arith)
                requires
                    f1.1 != 0,
                    f2.1 != 0,
                    bd >= 1,
                    f1.0 * f2.1 == f2.0 * f1.1,
                    h1 == (f1.0 * bd - bn * f1.1, f1.1 * bd),
                    h2 == (f2.0 * bd - bn * f2.1, f2.1 * bd),
            ;
        } else if op is Multiply {
            assert(h1.1 != 0 && h2.1 != 0 && h1.0 * h2.1 == h2.0 * h1.1) by (nonlinear_arith)
                requires
                    f1.1 != 0,
                    f2.1 != 0,
                    bd >= 1,
                    f1.0 * f2.1 == f2.0 * f1.1,
                    h1 == (f1.0 * bn, f1.1 * bd),
                    h2 == (f2.0 * bn, f2.1 * bd),
            ;
        } else {
            assert(bn != 0);
            assert(h1.1 != 0 && h2.1 != 0 && h1.0 * h2.1 == h2.0 * h1.1) by (nonlinear_arith)
                requires
                    f1.1 != 0,
                    f2.1 != 0,
                    bd >= 1,
                    bn != 0,
                    f1.0 * f2.1 == f2.0 * f1.1,
                    h1 == (f1.0 * bd, f1.1 * bn),
                    h2 == (f2.0 * bd, f2.1 * bn),
            ;
        }
        assert(rats_wf(rest.drop_first()) && divisors_ok(op, rest.drop_first())) by {
            assert forall|i: int| 0 <= i < rest.drop_first().len() implies rat_wf(
                #[trigger] rest.drop_first()[i],
            ) && (op is Divide ==> rest.drop_first()[i].num != 0) by {
                assert(rest.drop_first()[i] == rest[i + 1]);
            }
        }
        lemma_frac_fold_eq(op, h1, h2, rest.drop_first());
    }
}

/// A successful arithmetic fold denotes exactly the fraction-level fold.
proof fn lemma_fold_exact(op: crate::sexp::BuiltIn, acc: Rat, rest: Seq<Rat>)
    requires
        is_arith(op),
        rat_wf(acc),
        rats_wf(rest),
        divisors_ok(op, rest),
        fold_op(op, acc, rest) is Some,
    ensures
        ({
            let r = fold_op(op, acc, rest).unwrap();
            let g = frac_fold(op, frac_of(acc), rest);
            rat_wf(r) && g.1 != 0 && rat_is_frac(r, g)
        }),
    decreases rest.len(),
{
    if rest.len() == 0 {
        assert(rat_wf(acc));
    } else {
        let b = rest[0];
        let x = crate::built_in::spec_rat_op(op, acc, b).unwrap();
        lemma_step_exact(op, acc, b);
        assert(rats_wf(rest.drop_first()) && divisors_ok(op, rest.drop_first())) by {
            assert forall|i: int| 0 <= i < rest.drop_first().len() implies rat_wf(
                #[trigger] rest.drop_first()[i],
            ) && (op is Divide ==> rest.drop_first()[i].num != 0) by {
                assert(rest.drop_first()[i] == rest[i + 1]);
            }
        }
        lemma_fold_exact(op, x, rest.drop_first());
        let r = fold_op(op, acc, rest).unwrap();
        let g1 = frac_fold(op, frac_of(x), rest.drop_first());
        let f = frac_op(op, frac_of(acc), frac_of(b));
        lemma_frac_fold_eq(op, frac_of(x), f, rest.drop_first());
        let g2 = frac_fold(op, f, rest.drop_first());
        assert(rat_is_frac(r, g2)) by (nonlinear_arith)
            requires
                g1.1 != 0,
                g2.1 != 0,
                r.num * g1.1 == g1.0 * r.den,
                g1.0 * g2.1 == g2.0 * g1.1,
        ;
        assert(g2 == frac_fold(op, frac_of(acc), rest));
    }
}

/// Well-formed `Number` arguments carry well-formed rationals.
proof fn lemma_args_rats_wf(args: Seq<SexpV>)
    requires
        args_wf(args),
        all_numbers(args),
    ensures
        rats_wf(nums_of(args)),
{
    lemma_nums_of(args);
    assert forall|i: int| 0 <= i < nums_of(args).len() implies rat_wf(
        #[trigger] nums_of(args)[i],
    ) by {
        assert(crate::sexp::sexp_wf(args[i]));
    }
}

/// Addition law: `(+)` is exactly zero, and a successful `(+ n1 ... nk)` is
/// exactly the rational sum of its arguments.
pub proof fn law_add_is_sum(args: Seq<SexpV>)
    requires
        args_wf(args),
        all_numbers(args),
    ensures
        spec_add(Seq::empty()) == Ok::<SexpV, Seq<char>>(
            SexpV::Number(Rat { num: 0, den: 1 }),
        ),
        spec_add(args) matches Ok(v) ==> v matches SexpV::Number(r) && rat_wf(r) && frac_sum(
            nums_of(args),
        ).1 != 0 && rat_is_frac(r, frac_sum(nums_of(args))),
{
    let empty = Seq::<SexpV>::empty();
    assert(all_numbers(empty));
    assert(nums_of(empty) =~= Seq::<Rat>::empty());
    if spec_add(args) is Ok {
        lemma_args_rats_wf(args);
        lemma_fold_exact(crate::sexp::BuiltIn::Add, Rat { num: 0, den: 1 }, nums_of(args));
    }
}

/// Subtraction law: `(- n)` is exactly `-n`, and a successful longer fold is
/// exactly the left-nested differences `((n1 - n2) - n3) ...`.
pub proof fn law_subtract_fold(args: Seq<SexpV>)
    requires
        args_wf(args),
        all_numbers(args),
        args.len() >= 1,
    ensures
        (args.len() == 1 && spec_subtract(args) matches Ok(v)) ==> (spec_subtract(args)
            matches Ok(v) && v matches SexpV::Number(r) && r.num * (args[0]->Number_0).den == -(
        args[0]->Number_0).num * r.den),
        (args.len() >= 2 && spec_subtract(args) matches Ok(v)) ==> (spec_subtract(args)
            matches Ok(v) && v matches SexpV::Number(r) && ({
            let g = frac_fold(
                crate::sexp::BuiltIn::Subtract,
                frac_of(args[0]->Number_0),
                nums_of(args.drop_first()),
            );
            g.1 != 0 && rat_is_frac(r, g)
        })),
{
    let first = args[0]->Number_0;
    assert(crate::sexp::sexp_wf(args[0]));
    lemma_nums_of(args.drop_first());
    assert forall|i: int| 0 <= i < args.drop_first().len() implies (
    #[trigger] args.drop_first()[i]) is Number && crate::sexp::sexp_wf(args.drop_first()[i]) by {
        assert(args.drop_first()[i] == args[i + 1]);
    }
    if args.len() == 1 && spec_subtract(args) is Ok {
        assert(nums_of(args.drop_first()) =~= Seq::<Rat>::empty());
        let zero = Rat { num: 0, den: 1 };
        let n = zero.num * first.den - first.num * zero.den;
        let d = zero.den * first.den;
        assert(d >= 1 && n == -first.num && d == first.den) by (nonlinear_arith)
            requires
                first.den >= 1,
                n == zero.num * first.den - first.num * zero.den,
                d == zero.den * first.den,
                zero.num == 0,
                zero.den == 1,
        ;
        lemma_norm_value(n < 0, abs(n), d as nat);
        let r = (match spec_subtract(args) {
            Ok(v) => v,
            Err(_) => SexpV::Nil,
        })->Number_0;
        assert(r.num * d == signed(n < 0, abs(n)) * r.den);
        assert(signed(n < 0, abs(n)) == n);
        assert(r.num * first.den == -first.num * r.den);
    }
    if args.len() >= 2 && spec_subtract(args) is Ok {
        lemma_args_rats_wf(args);
        assert(rats_wf(nums_of(args.drop_first()))) by {
            assert forall|i: int| 0 <= i < nums_of(args.drop_first()).len() implies rat_wf(
                #[trigger] nums_of(args.drop_first())[i],
            ) by {
                assert(args.drop_first()[i] == args[i + 1]);
                assert(crate::sexp::sexp_wf(args[i + 1]));
                assert(nums_of(args.drop_first())[i] == args.drop_first()[i]->Number_0);
            }
        }
        assert(rat_wf(first));
        lemma_fold_exact(crate::sexp::BuiltIn::Subtract, first, nums_of(args.drop_first()));
    }
}

/// Division law: a zero anywhere among the divisors fails with the
/// division-by-zero error, whatever the other operands are.
pub proof fn law_divide_by_zero(args: Seq<SexpV>, i: int)
    requires
        args_wf(args),
        all_numbers(args),
        args.len() >= 2,
        1 <= i < args.len(),
        (args[i]->Number_0).num == 0,
    ensures
        spec_divide(args) == Err::<SexpV, Seq<char>>(div_zero_msg()),
{
    lemma_nums_of(args.drop_first());
    assert(args.drop_first()[i - 1] == args[i]);
    assert(nums_of(args.drop_first())[i - 1].num == 0);
    assert forall|j: int| 0 <= j < args.drop_first().len() implies (
    #[trigger] args.drop_first()[j]) is Number by {
        assert(args.drop_first()[j] == args[j + 1]);
    }
    assert(0 <= i - 1 < args.drop_first().len() && nums_of(args.drop_first())[i - 1].num == 0);
}

/// Strict order is carried across adjacent pairs to all pairs.
proof fn lemma_chain_all_pairs(ns: Seq<Rat>, strict: bool, i: int, j: int)
    requires
        rats_wf(ns),
        chain_holds(ns, strict),
        0 <= i < j < ns.len(),
    ensures
        strict ==> rat_lt(ns[i], ns[j]),
        !strict ==> rat_le(ns[i], ns[j]),
    decreases j - i,
{
    if j == i + 1 {
    } else {
        lemma_chain_all_pairs(ns, strict, i, j - 1);
        let a = ns[i];
        let b = ns[j - 1];
        let c = ns[j];
        if strict {
            assert(rat_lt(a, c)) by (nonlinear_arith)
                requires
                    a.den >= 1,
                    b.den >= 1,
                    c.den >= 1,
                    a.num * b.den < b.num * a.den,
                    b.num * c.den < c.num * b.den,
            ;
        } else {
            assert(rat_le(a, c)) by (nonlinear_arith)
                requires
                    a.den >= 1,
                    b.den >= 1,
                    c.den >= 1,
                    a.num * b.den <= b.num * a.den,
                    b.num * c.den <= c.num * b.den,
            ;
        }
    }
}

/// Comparison law: `(< ...)` returns `True` exactly when the numbers rise
/// strictly over every pair, `(<= ...)` exactly when they never fall; no
/// arguments is an arity error.
pub proof fn law_compare_chain(args: Seq<SexpV>, strict: bool)
    requires
        args_wf(args),
        all_numbers(args),
    ensures
        args.len() == 0 ==> spec_compare(args, strict) == Err::<SexpV, Seq<char>>(
            arity_error_msg(0),
        ),
        args.len() >= 1 ==> spec_compare(args, strict) == Ok::<SexpV, Seq<char>>(
            if chain_holds(nums_of(args), strict) {
                SexpV::True
            } else {
                SexpV::Nil
            },
        ),
        args.len() >= 1 && chain_holds(nums_of(args), strict) ==> (forall|i: int, j: int|
            0 <= i < j < nums_of(args).len() ==> (if strict {
                rat_lt(#[trigger] nums_of(args)[i], #[trigger] nums_of(args)[j])
            } else {
                rat_le(nums_of(args)[i], nums_of(args)[j])
            })),
{
    if args.len() >= 1 && chain_holds(nums_of(args), strict) {
        lemma_args_rats_wf(args);
        assert forall|i: int, j: int| 0 <= i < j < nums_of(args).len() implies (if strict {
            rat_lt(#[trigger] nums_of(args)[i], #[trigger] nums_of(args)[j])
        } else {
            rat_le(nums_of(args)[i], nums_of(args)[j])
        }) by {
            lemma_chain_all_pairs(nums_of(args), strict, i, j);
        }
    }
}

/// Shadowing law: binding a name in a child scope makes reading it back in
/// that child yield the new value, while reading through any scope below the
/// child still yields whatever it did before; the scopes below are untouched.
pub proof fn law_shadowing(
    em: Seq<ScopeV>,
    parent: int,
    child: int,
    name: Seq<char>,
    vnew: SexpV,
)
    requires
        0 <= parent < child < em.len(),
    ensures
        lookup(env_after_set(em, child, name, vnew), child, name) == Some(vnew),
        lookup(env_after_set(em, child, name, vnew), parent, name) == lookup(em, parent, name),
        env_after_set(em, child, name, vnew)[parent] == em[parent],
{
    let em2 = env_after_set(em, child, name, vnew);
    assert(em2[child].data.dom().contains(name));
    assert(em2[child].data[name] == vnew);
    crate::env::lemma_lookup_prefix(em, em2, parent, name);
}

/// Laziness law, taken branch: when the condition comes out non-`Nil`, the
/// whole `if` ignores the else operand entirely: two forms that differ only
/// there evaluate alike, effects on the chain included.
pub proof fn law_if_lazy_true(
    em: Seq<ScopeV>,
    scope: int,
    items1: Seq<SexpV>,
    items2: Seq<SexpV>,
    fuel: nat,
)
    requires
        fuel >= 1,
        items1.len() == 4,
        items2.len() == 4,
        items1[0] == items2[0],
        items1[1] == items2[1],
        items1[2] == items2[2],
        spec_eval(em, scope, items1[1], (fuel - 1) as nat).1 matches Ok(cv) && !(cv is Nil),
    ensures
        spec_if(em, scope, items1, fuel) == spec_if(em, scope, items2, fuel),
{
}

/// Laziness law, skipped branch: when the condition comes out exactly `Nil`,
/// the then operand is never evaluated: two forms that differ only there
/// evaluate alike, effects on the chain included.
pub proof fn law_if_lazy_false(
    em: Seq<ScopeV>,
    scope: int,
    items1: Seq<SexpV>,
    items2: Seq<SexpV>,
    fuel: nat,
)
    requires
        fuel >= 1,
        items1.len() == 4,
        items2.len() == 4,
        items1[0] == items2[0],
        items1[1] == items2[1],
        items1[3] == items2[3],
        spec_eval(em, scope, items1[1], (fuel - 1) as nat).1 matches Ok(cv) && cv is Nil,
    ensures
        spec_if(em, scope, items1, fuel) == spec_if(em, scope, items2, fuel),
{
}

} // verus!
