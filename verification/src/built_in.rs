use crate::env::{env_new, env_set, env_wf, Env, ScopeV};
use crate::rat::{
    rat_add, rat_div, rat_is_le, rat_is_lt, rat_le, rat_lt, rat_mul, rat_sub, rat_wf,
    spec_rat_add, spec_rat_div, spec_rat_mul, spec_rat_sub, Rat,
};
use crate::sexp::{display_of, dec_digits, sexp_wf, views, lemma_views, BuiltIn, Sexp, SexpV};
use vstd::prelude::*;
use vstd::string::StringExecFns;

verus! {

/// The result of evaluation or of a native function: a value or a message.
pub type SexpResult = Result<Sexp, String>;

/// The shape of a result: the value's shape or the message's characters.
pub open spec fn res_view(r: SexpResult) -> Result<SexpV, Seq<char>> {
    match r {
        Ok(v) => Ok(v@),
        Err(e) => Err(e@),
    }
}

/// The message given when a value of the wrong variant is handed to a native
/// function.
pub open spec fn arg_error_msg(v: SexpV) -> Seq<char> {
    "Argument error: "@ + display_of(v)
}

/// The message given when a native function is handed too few or too many
/// arguments.
pub open spec fn arity_error_msg(n: nat) -> Seq<char> {
    "Invalid number of arguments: "@ + dec_digits(n)
}

/// The message given when a reduced rational result does not fit in 64 bits.
pub open spec fn overflow_msg() -> Seq<char> {
    "Arithmetic overflow"@
}

/// The message given when a divisor is zero.
pub open spec fn div_zero_msg() -> Seq<char> {
    "Division by zero"@
}

/// Every value of the sequence is well formed.
pub open spec fn args_wf(s: Seq<SexpV>) -> bool {
    forall|i: int| 0 <= i < s.len() ==> sexp_wf(#[trigger] s[i])
}

/// Every value of the sequence is a `Number`.
pub open spec fn all_numbers(s: Seq<SexpV>) -> bool {
    forall|i: int| 0 <= i < s.len() ==> (#[trigger] s[i]) is Number
}

/// The index of the first value that is not a `Number`.
pub open spec fn first_non_number(s: Seq<SexpV>) -> int
    decreases s.len(),
{
    if s.len() == 0 {
        0
    } else if !(s[0] is Number) {
        0
    } else {
        1 + first_non_number(s.drop_first())
    }
}

/// A prefix of numbers followed by a non-number pins the first offender down.
pub proof fn lemma_first_non_number(s: Seq<SexpV>, i: int)
    requires
        0 <= i < s.len(),
        forall|j: int| 0 <= j < i ==> (#[trigger] s[j]) is Number,
        !(s[i] is Number),
    ensures
        first_non_number(s) == i,
    decreases i,
{
    if i > 0 {
        lemma_first_non_number(s.drop_first(), i - 1);
    }
}

/// The rationals inside a sequence of `Number`s.
pub open spec fn nums_of(s: Seq<SexpV>) -> Seq<Rat>
    decreases s.len(),
{
    if s.len() == 0 {
        Seq::empty()
    } else {
        nums_of(s.drop_last()).push(s.last()->Number_0)
    }
}

/// Pointwise description of `nums_of`.
pub proof fn lemma_nums_of(s: Seq<SexpV>)
    ensures
        nums_of(s).len() == s.len(),
        forall|i: int| 0 <= i < s.len() ==> nums_of(s)[i] == (#[trigger] s[i])->Number_0,
    decreases s.len(),
{
    if s.len() > 0 {
        lemma_nums_of(s.drop_last());
        assert forall|i: int| 0 <= i < s.len() implies nums_of(s)[i] == (#[trigger] s[i])->Number_0 by {
            if i < s.len() - 1 {
                assert(s.drop_last()[i] == s[i]);
                assert(nums_of(s)[i] == nums_of(s.drop_last())[i]);
            }
        }
    }
}

/// One step of arithmetic, by operation.
pub open spec fn spec_rat_op(op: BuiltIn, a: Rat, b: Rat) -> Option<Rat> {
    match op {
        BuiltIn::Add => spec_rat_add(a, b),
        BuiltIn::Subtract => spec_rat_sub(a, b),
        BuiltIn::Multiply => spec_rat_mul(a, b),
        _ => spec_rat_div(a, b),
    }
}

/// A left fold of one arithmetic operation over a sequence of rationals,
/// `None` as soon as a step does not fit.
pub open spec fn fold_op(op: BuiltIn, acc: Rat, rest: Seq<Rat>) -> Option<Rat>
    decreases rest.len(),
{
    if rest.len() == 0 {
        Some(acc)
    } else {
        match spec_rat_op(op, acc, rest[0]) {
            Some(x) => fold_op(op, x, rest.drop_first()),
            None => None,
        }
    }
}

/// Every adjacent pair of the sequence satisfies the relation: `<` when
/// `strict`, else `<=`.
pub open spec fn chain_holds(ns: Seq<Rat>, strict: bool) -> bool {
    forall|i: int|
        0 <= i < ns.len() - 1 ==> (if strict {
            rat_lt(#[trigger] ns[i], ns[i + 1])
        } else {
            rat_le(ns[i], ns[i + 1])
        })
}

/// What `+` returns: the sum of the numbers (zero arguments give `0`), or an
/// argument-type error naming the first non-number.
pub open spec fn spec_add(args: Seq<SexpV>) -> Result<SexpV, Seq<char>> {
    if !all_numbers(args) {
        Err(arg_error_msg(args[first_non_number(args)]))
    } else {
        match fold_op(BuiltIn::Add, Rat { num: 0, den: 1 }, nums_of(args)) {
            Some(r) => Ok(SexpV::Number(r)),
            None => Err(overflow_msg()),
        }
    }
}

/// What `-` returns: the negation of a single argument, else the first
/// argument with each later one subtracted, left to right.
pub open spec fn spec_subtract(args: Seq<SexpV>) -> Result<SexpV, Seq<char>> {
    if args.len() == 0 {
        Err(arity_error_msg(0))
    } else if !(args[0] is Number) {
        Err(arg_error_msg(args[0]))
    } else if !all_numbers(args.drop_first()) {
        Err(arg_error_msg(args.drop_first()[first_non_number(args.drop_first())]))
    } else {
        let first = args[0]->Number_0;
        let rest = nums_of(args.drop_first());
        if rest.len() == 0 {
            match spec_rat_sub(Rat { num: 0, den: 1 }, first) {
                Some(r) => Ok(SexpV::Number(r)),
                None => Err(overflow_msg()),
            }
        } else {
            match fold_op(BuiltIn::Subtract, first, rest) {
                Some(r) => Ok(SexpV::Number(r)),
                None => Err(overflow_msg()),
            }
        }
    }
}

/// What `*` returns: the first argument seeding a left fold of multiplication.
pub open spec fn spec_multiply(args: Seq<SexpV>) -> Result<SexpV, Seq<char>> {
    if args.len() == 0 {
        Err(arity_error_msg(0))
    } else if !(args[0] is Number) {
        Err(arg_error_msg(args[0]))
    } else if !all_numbers(args.drop_first()) {
        Err(arg_error_msg(args.drop_first()[first_non_number(args.drop_first())]))
    } else {
        match fold_op(BuiltIn::Multiply, args[0]->Number_0, nums_of(args.drop_first())) {
            Some(r) => Ok(SexpV::Number(r)),
            None => Err(overflow_msg()),
        }
    }
}

/// What `/` returns: a left fold of division; a zero anywhere among the
/// divisors fails before any division is taken.
pub open spec fn spec_divide(args: Seq<SexpV>) -> Result<SexpV, Seq<char>> {
    if args.len() == 0 {
        Err(arity_error_msg(0))
    } else if !(args[0] is Number) {
        Err(arg_error_msg(args[0]))
    } else if !all_numbers(args.drop_first()) {
        Err(arg_error_msg(args.drop_first()[first_non_number(args.drop_first())]))
    } else if exists|i: int|
        0 <= i < args.drop_first().len() && (#[trigger] nums_of(args.drop_first())[i]).num == 0 {
        Err(div_zero_msg())
    } else {
        match fold_op(BuiltIn::Divide, args[0]->Number_0, nums_of(args.drop_first())) {
            Some(r) => Ok(SexpV::Number(r)),
            None => Err(overflow_msg()),
        }
    }
}

/// What `numberp` returns: `True` for a single `Number`, `Nil` for any other
/// single value, an arity error otherwise.
pub open spec fn spec_numberp(args: Seq<SexpV>) -> Result<SexpV, Seq<char>> {
    if args.len() != 1 {
        Err(arity_error_msg(args.len()))
    } else if args[0] is Number {
        Ok(SexpV::True)
    } else {
        Ok(SexpV::Nil)
    }
}

/// What `<` or `<=` returns: `True` when every adjacent pair satisfies the
/// relation, `Nil` otherwise; no arguments is an arity error.
pub open spec fn spec_compare(args: Seq<SexpV>, strict: bool) -> Result<SexpV, Seq<char>> {
    if args.len() == 0 {
        Err(arity_error_msg(0))
    } else if !all_numbers(args) {
        Err(arg_error_msg(args[first_non_number(args)]))
    } else if chain_holds(nums_of(args), strict) {
        Ok(SexpV::True)
    } else {
        Ok(SexpV::Nil)
    }
}

/// What a native function returns for the given evaluated arguments.
pub open spec fn spec_builtin(b: BuiltIn, args: Seq<SexpV>) -> Result<SexpV, Seq<char>> {
    match b {
        BuiltIn::Add => spec_add(args),
        BuiltIn::Subtract => spec_subtract(args),
        BuiltIn::Multiply => spec_multiply(args),
        BuiltIn::Divide => spec_divide(args),
        BuiltIn::Numberp => spec_numberp(args),
        BuiltIn::Lt => spec_compare(args, true),
        BuiltIn::Lte => spec_compare(args, false),
    }
}

pub(crate) fn arg_error(v: &Sexp) -> (r: String)
    requires
        sexp_wf(v@),
    ensures
        r@ == arg_error_msg(v@),
{
    let r = "Argument error: ".to_owned().concat(v.to_display().as_str());
    proof {
        reveal_strlit("Argument error: ");
        assert(r@ =~= arg_error_msg(v@));
    }
    r
}

pub(crate) fn arity_error(n: usize) -> (r: String)
    ensures
        r@ == arity_error_msg(n as nat),
{
    let r = "Invalid number of arguments: ".to_owned().concat(
        crate::sexp::u64_to_string(n as u64).as_str(),
    );
    proof {
        reveal_strlit("Invalid number of arguments: ");
        assert(r@ =~= arity_error_msg(n as nat));
    }
    r
}

fn overflow_error() -> (r: String)
    ensures
        r@ == overflow_msg(),
{
    let r = "Arithmetic overflow".to_owned();
    proof {
        reveal_strlit("Arithmetic overflow");
    }
    r
}

/// Reads the numbers from index `start` on; the first value of another
/// variant is an argument-type error.
fn unpack_from(args: &Vec<Sexp>, start: usize) -> (r: Result<Vec<Rat>, String>)
    requires
        args_wf(views(args@)),
        start <= args@.len(),
    ensures
        match r {
            Ok(ns) => {
                &&& all_numbers(views(args@).subrange(start as int, args@.len() as int))
                &&& ns@ == nums_of(views(args@).subrange(start as int, args@.len() as int))
                &&& forall|k: int| 0 <= k < ns@.len() ==> rat_wf(#[trigger] ns@[k])
            },
            Err(e) => {
                &&& !all_numbers(views(args@).subrange(start as int, args@.len() as int))
                &&& e@ == arg_error_msg(
                    views(args@).subrange(start as int, args@.len() as int)[first_non_number(
                        views(args@).subrange(start as int, args@.len() as int),
                    )],
                )
            },
        },
{
    let ghost sub = views(args@).subrange(start as int, args@.len() as int);
    proof {
        lemma_views(args@);
    }
    let mut ns: Vec<Rat> = Vec::new();
    let mut i: usize = start;
    while i < args.len()
        invariant
            start <= i <= args@.len(),
            args_wf(views(args@)),
            sub == views(args@).subrange(start as int, args@.len() as int),
            forall|j: int| 0 <= j < i - start ==> (#[trigger] sub[j]) is Number,
            ns@ == nums_of(sub.subrange(0, i - start)),
            forall|k: int| 0 <= k < ns@.len() ==> rat_wf(#[trigger] ns@[k]),
        decreases args@.len() - i,
    {
        proof {
            lemma_views(args@);
            assert(sub[i - start] == views(args@)[i as int]);
        }
        match &args[i] {
            Sexp::Number(q) => {
                ns.push(*q);
                proof {
                    let w = sub.subrange(0, i + 1 - start);
                    assert(w.drop_last() =~= sub.subrange(0, i - start));
                    assert(w.last() == sub[i - start]);
                    assert(sexp_wf(views(args@)[i as int]));
                }
            }
            _ => {
                proof {
                    lemma_first_non_number(sub, i - start);
                    assert(sexp_wf(views(args@)[i as int]));
                }
                return Err(arg_error(&args[i]));
            }
        }
        i += 1;
    }
    proof {
        assert(sub.subrange(0, args@.len() - start) =~= sub);
    }
    Ok(ns)
}

/// Folds one arithmetic operation over the numbers, left to right.
fn fold_exec(op: BuiltIn, acc0: Rat, ns: &Vec<Rat>, start: usize) -> (r: Result<Rat, String>)
    requires
        op is Add || op is Subtract || op is Multiply || op is Divide,
        rat_wf(acc0),
        start <= ns@.len(),
        forall|k: int| 0 <= k < ns@.len() ==> rat_wf(#[trigger] ns@[k]),
        op is Divide ==> forall|k: int| start <= k < ns@.len() ==> (#[trigger] ns@[k]).num != 0,
    ensures
        match r {
            Ok(x) => Some(x) == fold_op(op, acc0, ns@.subrange(start as int, ns@.len() as int))
                && rat_wf(x),
            Err(e) => fold_op(op, acc0, ns@.subrange(start as int, ns@.len() as int)) is None
                && e@ == overflow_msg(),
        },
{
    let ghost whole = ns@.subrange(start as int, ns@.len() as int);
    let mut acc = acc0;
    let mut i: usize = start;
    while i < ns.len()
        invariant
            op is Add || op is Subtract || op is Multiply || op is Divide,
            start <= i <= ns@.len(),
            rat_wf(acc),
            whole == ns@.subrange(start as int, ns@.len() as int),
            forall|k: int| 0 <= k < ns@.len() ==> rat_wf(#[trigger] ns@[k]),
            op is Divide ==> forall|k: int| start <= k < ns@.len() ==> (#[trigger] ns@[k]).num
                != 0,
            fold_op(op, acc0, whole) == fold_op(
                op,
                acc,
                ns@.subrange(i as int, ns@.len() as int),
            ),
        decreases ns@.len() - i,
    {
        let b = ns[i];
        let step: Option<Rat> = match op {
            BuiltIn::Add => rat_add(acc, b),
            BuiltIn::Subtract => rat_sub(acc, b),
            BuiltIn::Multiply => rat_mul(acc, b),
            _ => rat_div(acc, b),
        };
        proof {
            let cur = ns@.subrange(i as int, ns@.len() as int);
            assert(cur[0] == ns@[i as int]);
            assert(cur.drop_first() =~= ns@.subrange(i + 1, ns@.len() as int));
        }
        match step {
            Some(x) => {
                proof {
                    assert(rat_wf(x));
                }
                acc = x;
            }
            None => {
                return Err(overflow_error());
            }
        }
        i += 1;
    }
    proof {
        assert(ns@.subrange(i as int, ns@.len() as int) =~= Seq::<Rat>::empty());
    }
    Ok(acc)
}

/// Variadic addition over numbers; no arguments give `0`.
pub fn add(args: Vec<Sexp>) -> (r: SexpResult)
    requires
        args_wf(views(args@)),
    ensures
        res_view(r) == spec_add(views(args@)),
        r is Ok ==> sexp_wf(r.unwrap()@),
{
    proof {
        lemma_views(args@);
        assert(views(args@).subrange(0, args@.len() as int) =~= views(args@));
    }
    let ns = match unpack_from(&args, 0) {
        Ok(ns) => ns,
        Err(e) => {
            return Err(e);
        }
    };
    proof {
        assert(ns@.subrange(0, ns@.len() as int) =~= ns@);
    }
    match fold_exec(BuiltIn::Add, Rat::from_int(0), &ns, 0) {
        Ok(x) => Ok(Sexp::Number(x)),
        Err(e) => Err(e),
    }
}

/// Subtraction: one argument is negated; more fold left to right.
pub fn subtract(args: Vec<Sexp>) -> (r: SexpResult)
    requires
        args_wf(views(args@)),
    ensures
        res_view(r) == spec_subtract(views(args@)),
        r is Ok ==> sexp_wf(r.unwrap()@),
{
    proof {
        lemma_views(args@);
    }
    if args.len() == 0 {
        return Err(arity_error(0));
    }
    let first: Rat = match &args[0] {
        Sexp::Number(q) => *q,
        _ => {
            return Err(arg_error(&args[0]));
        }
    };
    let ns = match unpack_from(&args, 1) {
        Ok(ns) => ns,
        Err(e) => {
            proof {
                assert(views(args@).subrange(1, args@.len() as int) =~= views(args@).drop_first());
            }
            return Err(e);
        }
    };
    proof {
        assert(views(args@).subrange(1, args@.len() as int) =~= views(args@).drop_first());
        assert(ns@.subrange(0, ns@.len() as int) =~= ns@);
        assert(sexp_wf(views(args@)[0]));
    }
    if ns.len() == 0 {
        match crate::rat::rat_sub(Rat::from_int(0), first) {
            Some(x) => Ok(Sexp::Number(x)),
            None => Err(overflow_error()),
        }
    } else {
        match fold_exec(BuiltIn::Subtract, first, &ns, 0) {
            Ok(x) => Ok(Sexp::Number(x)),
            Err(e) => Err(e),
        }
    }
}

/// Multiplication: the first argument seeds a left fold.
pub fn multiply(args: Vec<Sexp>) -> (r: SexpResult)
    requires
        args_wf(views(args@)),
    ensures
        res_view(r) == spec_multiply(views(args@)),
        r is Ok ==> sexp_wf(r.unwrap()@),
{
    proof {
        lemma_views(args@);
    }
    if args.len() == 0 {
        return Err(arity_error(0));
    }
    let first: Rat = match &args[0] {
        Sexp::Number(q) => *q,
        _ => {
            return Err(arg_error(&args[0]));
        }
    };
    let ns = match unpack_from(&args, 1) {
        Ok(ns) => ns,
        Err(e) => {
            proof {
                assert(views(args@).subrange(1, args@.len() as int) =~= views(args@).drop_first());
            }
            return Err(e);
        }
    };
    proof {
        assert(views(args@).subrange(1, args@.len() as int) =~= views(args@).drop_first());
        assert(ns@.subrange(0, ns@.len() as int) =~= ns@);
        assert(sexp_wf(views(args@)[0]));
    }
    match fold_exec(BuiltIn::Multiply, first, &ns, 0) {
        Ok(x) => Ok(Sexp::Number(x)),
        Err(e) => Err(e),
    }
}

/// Division: a zero among the divisors fails before any step is taken.
pub fn divide(args: Vec<Sexp>) -> (r: SexpResult)
    requires
        args_wf(views(args@)),
    ensures
        res_view(r) == spec_divide(views(args@)),
        r is Ok ==> sexp_wf(r.unwrap()@),
{
    proof {
        lemma_views(args@);
    }
    if args.len() == 0 {
        return Err(arity_error(0));
    }
    let first: Rat = match &args[0] {
        Sexp::Number(q) => *q,
        _ => {
            return Err(arg_error(&args[0]));
        }
    };
    let ns = match unpack_from(&args, 1) {
        Ok(ns) => ns,
        Err(e) => {
            proof {
                assert(views(args@).subrange(1, args@.len() as int) =~= views(args@).drop_first());
            }
            return Err(e);
        }
    };
    proof {
        assert(views(args@).subrange(1, args@.len() as int) =~= views(args@).drop_first());
        assert(ns@.subrange(0, ns@.len() as int) =~= ns@);
        assert(sexp_wf(views(args@)[0]));
    }
    let ghost rest = views(args@).drop_first();
    let mut i: usize = 0;
    while i < ns.len()
        invariant
            i <= ns@.len(),
            rest == views(args@).drop_first(),
            ns@ == nums_of(rest),
            args@.len() >= 1,
            views(args@)[0] is Number,
            first == views(args@)[0]->Number_0,
            all_numbers(rest),
            forall|k: int| 0 <= k < ns@.len() ==> rat_wf(#[trigger] ns@[k]),
            forall|k: int| 0 <= k < i ==> (#[trigger] ns@[k]).num != 0,
        decreases ns@.len() - i,
    {
        if ns[i].is_zero() {
            let r = "Division by zero".to_owned();
            proof {
                reveal_strlit("Division by zero");
                lemma_nums_of(rest);
                assert(0 <= i < views(args@).drop_first().len() && nums_of(
                    views(args@).drop_first(),
                )[i as int].num == 0);
                lemma_views(args@);
            }
            return Err(r);
        }
        i += 1;
    }
    proof {
        lemma_nums_of(rest);
        assert(ns@.subrange(0, ns@.len() as int) =~= ns@);
        lemma_views(args@);
    }
    match fold_exec(BuiltIn::Divide, first, &ns, 0) {
        Ok(x) => Ok(Sexp::Number(x)),
        Err(e) => Err(e),
    }
}

/// The number predicate: exactly one argument; `True` iff it is a `Number`.
pub fn numberp(args: Vec<Sexp>) -> (r: SexpResult)
    requires
        args_wf(views(args@)),
    ensures
        res_view(r) == spec_numberp(views(args@)),
        r is Ok ==> sexp_wf(r.unwrap()@),
{
    proof {
        lemma_views(args@);
    }
    if args.len() != 1 {
        return Err(arity_error(args.len()));
    }
    match &args[0] {
        Sexp::Number(_) => Ok(Sexp::True),
        _ => Ok(Sexp::Nil),
    }
}

fn compare(args: Vec<Sexp>, strict: bool) -> (r: SexpResult)
    requires
        args_wf(views(args@)),
    ensures
        res_view(r) == spec_compare(views(args@), strict),
        r is Ok ==> sexp_wf(r.unwrap()@),
{
    proof {
        lemma_views(args@);
        assert(views(args@).subrange(0, args@.len() as int) =~= views(args@));
    }
    if args.len() == 0 {
        return Err(arity_error(0));
    }
    let ns = match unpack_from(&args, 0) {
        Ok(ns) => ns,
        Err(e) => {
            return Err(e);
        }
    };
    proof {
        lemma_nums_of(views(args@));
    }
    let mut i: usize = 0;
    while i < ns.len() - 1
        invariant
            ns@.len() == args@.len(),
            args@.len() >= 1,
            i <= ns@.len() - 1,
            ns@ == nums_of(views(args@)),
            all_numbers(views(args@)),
            forall|k: int| 0 <= k < ns@.len() ==> rat_wf(#[trigger] ns@[k]),
            forall|k: int|
                0 <= k < i ==> (if strict {
                    rat_lt(#[trigger] ns@[k], ns@[k + 1])
                } else {
                    rat_le(ns@[k], ns@[k + 1])
                }),
        decreases ns@.len() - i,
    {
        let holds = if strict {
            rat_is_lt(ns[i], ns[i + 1])
        } else {
            rat_is_le(ns[i], ns[i + 1])
        };
        if !holds {
            proof {
                assert(!chain_holds(nums_of(views(args@)), strict)) by {
                    if strict {
                        assert(!rat_lt(ns@[i as int], ns@[i as int + 1]));
                    } else {
                        assert(!rat_le(ns@[i as int], ns@[i as int + 1]));
                    }
                }
            }
            return Ok(Sexp::Nil);
        }
        i += 1;
    }
    proof {
        assert(chain_holds(nums_of(views(args@)), strict));
    }
    Ok(Sexp::True)
}

/// Strict increase over every adjacent pair.
pub fn lt(args: Vec<Sexp>) -> (r: SexpResult)
    requires
        args_wf(views(args@)),
    ensures
        res_view(r) == spec_compare(views(args@), true),
        r is Ok ==> sexp_wf(r.unwrap()@),
{
    compare(args, true)
}

/// Non-decrease over every adjacent pair.
pub fn lte(args: Vec<Sexp>) -> (r: SexpResult)
    requires
        args_wf(views(args@)),
    ensures
        res_view(r) == spec_compare(views(args@), false),
        r is Ok ==> sexp_wf(r.unwrap()@),
{
    compare(args, false)
}

/// Dispatch of a native function over its evaluated arguments.
pub fn apply_builtin(b: BuiltIn, args: Vec<Sexp>) -> (r: SexpResult)
    requires
        args_wf(views(args@)),
    ensures
        res_view(r) == spec_builtin(b, views(args@)),
        r is Ok ==> sexp_wf(r.unwrap()@),
{
    match b {
        BuiltIn::Add => crate::built_in::add(args),
        BuiltIn::Subtract => subtract(args),
        BuiltIn::Multiply => multiply(args),
        BuiltIn::Divide => divide(args),
        BuiltIn::Numberp => numberp(args),
        BuiltIn::Lt => lt(args),
        BuiltIn::Lte => lte(args),
    }
}

/// A native function only ever returns a number or one of the two sentinels.
pub proof fn lemma_builtin_shape(b: BuiltIn, args: Seq<SexpV>)
    ensures
        spec_builtin(b, args) matches Ok(v) ==> (v is Number || v is True || v is Nil),
{
}

/// The bindings a fresh root scope holds.
pub open spec fn default_bindings() -> Map<Seq<char>, SexpV> {
    Map::empty().insert("t"@, SexpV::True).insert("+"@, SexpV::BuiltInFunc(BuiltIn::Add)).insert(
        "-"@,
        SexpV::BuiltInFunc(BuiltIn::Subtract),
    ).insert("*"@, SexpV::BuiltInFunc(BuiltIn::Multiply)).insert(
        "/"@,
        SexpV::BuiltInFunc(BuiltIn::Divide),
    ).insert("numberp"@, SexpV::BuiltInFunc(BuiltIn::Numberp)).insert(
        "<"@,
        SexpV::BuiltInFunc(BuiltIn::Lt),
    ).insert("<="@, SexpV::BuiltInFunc(BuiltIn::Lte))
}

/// A fresh root environment seeded with the native library: one scope, no
/// parent, holding `t` and the seven native functions.
pub fn default_env() -> (r: Env)
    ensures
        r@.len() == 1,
        env_wf(r@),
        r@[0] == (ScopeV { data: default_bindings(), enclosing: None::<int> }),
{
    let mut env = Env { scopes: Vec::new() };
    proof {
        assert(env@ =~= Seq::<ScopeV>::empty());
    }
    let root = env_new(&mut env, None);
    env_set(&mut env, root, "t".to_owned(), Sexp::True);
    env_set(&mut env, root, "+".to_owned(), Sexp::BuiltInFunc(BuiltIn::Add));
    env_set(&mut env, root, "-".to_owned(), Sexp::BuiltInFunc(BuiltIn::Subtract));
    env_set(&mut env, root, "*".to_owned(), Sexp::BuiltInFunc(BuiltIn::Multiply));
    env_set(&mut env, root, "/".to_owned(), Sexp::BuiltInFunc(BuiltIn::Divide));
    env_set(&mut env, root, "numberp".to_owned(), Sexp::BuiltInFunc(BuiltIn::Numberp));
    env_set(&mut env, root, "<".to_owned(), Sexp::BuiltInFunc(BuiltIn::Lt));
    env_set(&mut env, root, "<=".to_owned(), Sexp::BuiltInFunc(BuiltIn::Lte));
    proof {
        assert(env@[0].data =~= default_bindings());
    }
    env
}

} // verus!
