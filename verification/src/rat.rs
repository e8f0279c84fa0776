use vstd::arithmetic::div_mod::lemma_fundamental_div_mod;
use vstd::math::abs;
use vstd::prelude::*;

verus! {

/// An exact rational number `num / den`. Every value the library produces is
/// well formed (`den >= 1`) and reduced by the greatest common divisor of its
/// parts, so equal rationals compare equal field by field.
#[derive(Clone, Copy, PartialEq, Eq, Structural, Debug)]
pub struct Rat {
    pub num: i64,
    pub den: i64,
}

/// Well-formedness: the denominator is positive.
pub open spec fn rat_wf(r: Rat) -> bool {
    r.den >= 1
}

/// a/b < c/d, valid when both denominators are positive.
pub open spec fn rat_lt(a: Rat, b: Rat) -> bool {
    a.num * b.den < b.num * a.den
}

/// a/b <= c/d, valid when both denominators are positive.
pub open spec fn rat_le(a: Rat, b: Rat) -> bool {
    a.num * b.den <= b.num * a.den
}

/// Euclid's greatest common divisor.
pub open spec fn spec_gcd(a: nat, b: nat) -> nat
    decreases b,
{
    if b == 0 {
        a
    } else {
        spec_gcd(b, a % b)
    }
}

/// The reduced rational with the given sign and absolute numerator `nu` and
/// denominator `d`, or `None` when the reduced parts do not fit in `i64`.
pub open spec fn spec_norm(neg: bool, nu: nat, d: nat) -> Option<Rat> {
    let g = spec_gcd(nu, d);
    if g < 1 {
        None
    } else if nu % g == 0 && d % g == 0 {
        let qn = nu / g;
        let qd = d / g;
        if 1 <= qd <= 0x7fff_ffff_ffff_ffff {
            if neg {
                if qn <= 0x8000_0000_0000_0000 {
                    Some(Rat { num: (-(qn as int)) as i64, den: qd as i64 })
                } else {
                    None
                }
            } else {
                if qn <= 0x7fff_ffff_ffff_ffff {
                    Some(Rat { num: qn as i64, den: qd as i64 })
                } else {
                    None
                }
            }
        } else {
            None
        }
    } else {
        None
    }
}

/// The signed value that `spec_norm(neg, nu, d)` is asked to represent.
pub open spec fn signed(neg: bool, nu: nat) -> int {
    if neg {
        -(nu as int)
    } else {
        nu as int
    }
}

/// Normalisation keeps the represented value: the result equals `signed(neg, nu) / d`.
pub proof fn lemma_norm_value(neg: bool, nu: nat, d: nat)
    requires
        d >= 1,
        spec_norm(neg, nu, d) is Some,
    ensures
        rat_wf(spec_norm(neg, nu, d).unwrap()),
        spec_norm(neg, nu, d).unwrap().num * d == signed(neg, nu) * spec_norm(
            neg,
            nu,
            d,
        ).unwrap().den,
{
    let g = spec_gcd(nu, d);
    let qn = nu / g;
    let qd = d / g;
    lemma_fundamental_div_mod(nu as int, g as int);
    lemma_fundamental_div_mod(d as int, g as int);
    assert(nu == g * qn);
    assert(d == g * qd);
    let r = spec_norm(neg, nu, d).unwrap();
    assert(r.den == qd as i64);
    assert(r.num == signed(neg, qn));
    assert(signed(neg, qn) * (g * qd) == signed(neg, g * qn) * qd) by (nonlinear_arith);
    assert(r.num * d == signed(neg, nu) * r.den);
}

/// The exact sum, as a (numerator, denominator) pair over unbounded integers.
pub open spec fn frac_add(a: (int, int), b: (int, int)) -> (int, int) {
    (a.0 * b.1 + b.0 * a.1, a.1 * b.1)
}

/// The exact difference, as a (numerator, denominator) pair.
pub open spec fn frac_sub(a: (int, int), b: (int, int)) -> (int, int) {
    (a.0 * b.1 - b.0 * a.1, a.1 * b.1)
}

/// The exact product, as a (numerator, denominator) pair.
pub open spec fn frac_mul(a: (int, int), b: (int, int)) -> (int, int) {
    (a.0 * b.0, a.1 * b.1)
}

/// The exact quotient, as a (numerator, denominator) pair; the second
/// component is negative when `b` is negative.
pub open spec fn frac_div(a: (int, int), b: (int, int)) -> (int, int) {
    (a.0 * b.1, a.1 * b.0)
}

/// The fraction a rational denotes.
pub open spec fn frac_of(r: Rat) -> (int, int) {
    (r.num as int, r.den as int)
}

/// A rational equals a fraction (denominators nonzero assumed by callers).
pub open spec fn rat_is_frac(r: Rat, f: (int, int)) -> bool {
    r.num * f.1 == f.0 * r.den
}

/// The reduced sum of two rationals, or `None` when it does not fit.
pub open spec fn spec_rat_add(a: Rat, b: Rat) -> Option<Rat> {
    let n = a.num * b.den + b.num * a.den;
    let d = a.den * b.den;
    spec_norm(n < 0, abs(n as int), d as nat)
}

/// The reduced difference of two rationals, or `None` when it does not fit.
pub open spec fn spec_rat_sub(a: Rat, b: Rat) -> Option<Rat> {
    let n = a.num * b.den - b.num * a.den;
    let d = a.den * b.den;
    spec_norm(n < 0, abs(n as int), d as nat)
}

/// The reduced product of two rationals, or `None` when it does not fit.
pub open spec fn spec_rat_mul(a: Rat, b: Rat) -> Option<Rat> {
    let n = a.num * b.num;
    let d = a.den * b.den;
    spec_norm(n < 0, abs(n as int), d as nat)
}

/// The reduced quotient of two rationals (the divisor must not be zero),
/// or `None` when it does not fit.
pub open spec fn spec_rat_div(a: Rat, b: Rat) -> Option<Rat> {
    let n = a.num * b.den;
    let d = a.den * b.num;
    spec_norm((n < 0) != (d < 0), abs(n as int), abs(d as int))
}

impl Rat {
    /// The rational denoting the integer `n`.
    pub fn from_int(n: i64) -> (r: Rat)
        ensures
            r == (Rat { num: n, den: 1i64 }),
    {
        Rat { num: n, den: 1 }
    }

    /// Whether this rational is exactly zero.
    pub fn is_zero(&self) -> (r: bool)
        ensures
            r == (self.num == 0),
    {
        self.num == 0
    }
}

/// Bound on a product of two values in `i64` range: it fits well inside `i128`.
proof fn lemma_mul_i64_bounds(x: int, y: int)
    requires
        -0x8000_0000_0000_0000 <= x <= 0x7fff_ffff_ffff_ffff,
        -0x8000_0000_0000_0000 <= y <= 0x7fff_ffff_ffff_ffff,
    ensures
        -0x4000_0000_0000_0000_0000_0000_0000_0000 <= x * y
            <= 0x4000_0000_0000_0000_0000_0000_0000_0000,
{
    assert(-0x4000_0000_0000_0000_0000_0000_0000_0000 <= x * y
        <= 0x4000_0000_0000_0000_0000_0000_0000_0000) by (nonlinear_arith)
        requires
            -0x8000_0000_0000_0000 <= x <= 0x7fff_ffff_ffff_ffff,
            -0x8000_0000_0000_0000 <= y <= 0x7fff_ffff_ffff_ffff,
    ;
}

/// Bound on a numerator times a positive denominator: strictly inside 2^126.
proof fn lemma_mul_num_den_bounds(x: int, y: int)
    requires
        -0x8000_0000_0000_0000 <= x <= 0x7fff_ffff_ffff_ffff,
        1 <= y <= 0x7fff_ffff_ffff_ffff,
    ensures
        -0x3fff_ffff_ffff_ffff_8000_0000_0000_0000 <= x * y
            <= 0x3fff_ffff_ffff_ffff_8000_0000_0000_0000,
{
    assert(-0x3fff_ffff_ffff_ffff_8000_0000_0000_0000 <= x * y
        <= 0x3fff_ffff_ffff_ffff_8000_0000_0000_0000) by (nonlinear_arith)
        requires
            -0x8000_0000_0000_0000 <= x <= 0x7fff_ffff_ffff_ffff,
            1 <= y <= 0x7fff_ffff_ffff_ffff,
    ;
}

/// A product of two positive values is positive.
proof fn lemma_mul_pos(x: int, y: int)
    requires
        x >= 1,
        y >= 1,
    ensures
        x * y >= 1,
{
    assert(x * y >= 1) by (nonlinear_arith)
        requires
            x >= 1,
            y >= 1,
    ;
}

fn gcd128(a: u128, b: u128) -> (g: u128)
    ensures
        g == spec_gcd(a as nat, b as nat),
        b >= 1 ==> g >= 1,
{
    let mut x = a;
    let mut y = b;
    while y != 0
        invariant
            spec_gcd(x as nat, y as nat) == spec_gcd(a as nat, b as nat),
            b >= 1 ==> (x >= 1 || y >= 1),
        decreases y,
    {
        let r = x % y;
        x = y;
        y = r;
    }
    x
}

/// Builds the reduced rational with the given sign, absolute numerator and
/// denominator, exactly as `spec_norm` describes.
pub(crate) fn norm_parts(neg: bool, nu: u128, d: u128) -> (r: Option<Rat>)
    requires
        d >= 1,
    ensures
        r == spec_norm(neg, nu as nat, d as nat),
{
    let g = gcd128(nu, d);
    if g < 1 {
        None
    } else if nu % g == 0 && d % g == 0 {
        let qn = nu / g;
        let qd = d / g;
        if 1 <= qd && qd <= 0x7fff_ffff_ffff_ffff {
            if neg {
                if qn <= 0x8000_0000_0000_0000 {
                    let num: i64 = if qn == 0x8000_0000_0000_0000 {
                        i64::MIN
                    } else {
                        -(qn as i64)
                    };
                    assert(num == (-(qn as int)) as i64);
                    Some(Rat { num, den: qd as i64 })
                } else {
                    None
                }
            } else {
                if qn <= 0x7fff_ffff_ffff_ffff {
                    Some(Rat { num: qn as i64, den: qd as i64 })
                } else {
                    None
                }
            }
        } else {
            None
        }
    } else {
        None
    }
}

/// Splits a signed 128-bit value into its sign and absolute value.
fn sign_abs(n: i128) -> (r: (bool, u128))
    ensures
        r.0 == (n < 0),
        r.1 == abs(n as int),
{
    if n < 0 {
        if n == i128::MIN {
            (true, 0x8000_0000_0000_0000_0000_0000_0000_0000u128)
        } else {
            (true, (-n) as u128)
        }
    } else {
        (false, n as u128)
    }
}

/// The reduced sum of two rationals; `None` when the reduced parts do not fit.
pub fn rat_add(a: Rat, b: Rat) -> (r: Option<Rat>)
    requires
        rat_wf(a),
        rat_wf(b),
    ensures
        r == spec_rat_add(a, b),
{
    proof {
        lemma_mul_num_den_bounds(a.num as int, b.den as int);
        lemma_mul_num_den_bounds(b.num as int, a.den as int);
        lemma_mul_num_den_bounds(a.den as int, b.den as int);
        lemma_mul_pos(a.den as int, b.den as int);
    }
    let n: i128 = (a.num as i128) * (b.den as i128) + (b.num as i128) * (a.den as i128);
    let d: i128 = (a.den as i128) * (b.den as i128);
    let (neg, nu) = sign_abs(n);
    norm_parts(neg, nu, d as u128)
}

/// The reduced difference of two rationals; `None` when it does not fit.
pub fn rat_sub(a: Rat, b: Rat) -> (r: Option<Rat>)
    requires
        rat_wf(a),
        rat_wf(b),
    ensures
        r == spec_rat_sub(a, b),
{
    proof {
        lemma_mul_num_den_bounds(a.num as int, b.den as int);
        lemma_mul_num_den_bounds(b.num as int, a.den as int);
        lemma_mul_num_den_bounds(a.den as int, b.den as int);
        lemma_mul_pos(a.den as int, b.den as int);
    }
    let n: i128 = (a.num as i128) * (b.den as i128) - (b.num as i128) * (a.den as i128);
    let d: i128 = (a.den as i128) * (b.den as i128);
    let (neg, nu) = sign_abs(n);
    norm_parts(neg, nu, d as u128)
}

/// The reduced product of two rationals; `None` when it does not fit.
pub fn rat_mul(a: Rat, b: Rat) -> (r: Option<Rat>)
    requires
        rat_wf(a),
        rat_wf(b),
    ensures
        r == spec_rat_mul(a, b),
{
    proof {
        lemma_mul_i64_bounds(a.num as int, b.num as int);
        lemma_mul_num_den_bounds(a.den as int, b.den as int);
        lemma_mul_pos(a.den as int, b.den as int);
    }
    let n: i128 = (a.num as i128) * (b.num as i128);
    let d: i128 = (a.den as i128) * (b.den as i128);
    let (neg, nu) = sign_abs(n);
    norm_parts(neg, nu, d as u128)
}

/// The reduced quotient of two rationals; the divisor must not be zero.
pub fn rat_div(a: Rat, b: Rat) -> (r: Option<Rat>)
    requires
        rat_wf(a),
        rat_wf(b),
        b.num != 0,
    ensures
        r == spec_rat_div(a, b),
{
    proof {
        lemma_mul_num_den_bounds(a.num as int, b.den as int);
        lemma_mul_i64_bounds(a.den as int, b.num as int);
    }
    let n: i128 = (a.num as i128) * (b.den as i128);
    let d: i128 = (a.den as i128) * (b.num as i128);
    let (neg_n, nu) = sign_abs(n);
    let (neg_d, du) = sign_abs(d);
    assert(du >= 1) by {
        assert(d != 0) by (nonlinear_arith)
            requires
                a.den >= 1,
                b.num != 0,
                d == (a.den as i128) * (b.num as i128),
        ;
    }
    norm_parts(neg_n != neg_d, nu, du)
}

/// Compares two rationals: strictly less.
pub fn rat_is_lt(a: Rat, b: Rat) -> (r: bool)
    requires
        rat_wf(a),
        rat_wf(b),
    ensures
        r == rat_lt(a, b),
{
    proof {
        lemma_mul_num_den_bounds(a.num as int, b.den as int);
        lemma_mul_num_den_bounds(b.num as int, a.den as int);
    }
    (a.num as i128) * (b.den as i128) < (b.num as i128) * (a.den as i128)
}

/// Compares two rationals: less or equal.
pub fn rat_is_le(a: Rat, b: Rat) -> (r: bool)
    requires
        rat_wf(a),
        rat_wf(b),
    ensures
        r == rat_le(a, b),
{
    proof {
        lemma_mul_num_den_bounds(a.num as int, b.den as int);
        lemma_mul_num_den_bounds(b.num as int, a.den as int);
    }
    (a.num as i128) * (b.den as i128) <= (b.num as i128) * (a.den as i128)
}

/// Builds the reduced rational `num / den`; `None` when `den < 1`.
pub fn rat_new(num: i64, den: i64) -> (r: Option<Rat>)
    ensures
        r == spec_rat_new(num, den),
{
    if den < 1 {
        None
    } else {
        let n: i128 = num as i128;
        let (neg, nu) = sign_abs(n);
        norm_parts(neg, nu, den as u128)
    }
}

/// The reduced rational `num / den`, or `None` when `den < 1` or the reduced
/// parts do not fit.
pub open spec fn spec_rat_new(num: i64, den: i64) -> Option<Rat> {
    if den < 1 {
        None
    } else {
        spec_norm(num < 0, abs(num as int), den as nat)
    }
}

} // verus!
