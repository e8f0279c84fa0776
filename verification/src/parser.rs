use crate::rat::{spec_norm, Rat};
use crate::sexp::{views, lemma_views, Sexp, SexpV};
use vstd::prelude::*;

verus! {

/// Whitespace between list elements: space, tab, newline.
pub open spec fn is_ws(b: u8) -> bool {
    b == 32 || b == 9 || b == 10
}

/// An ASCII letter or digit.
pub open spec fn is_alnum(b: u8) -> bool {
    (48 <= b <= 57) || (65 <= b <= 90) || (97 <= b <= 122)
}

/// A byte that may appear in a symbol.
pub open spec fn is_sym_byte(b: u8) -> bool {
    is_alnum(b) || crate::is_extended_char(b)
}

/// An ASCII digit.
pub open spec fn is_digit_byte(b: u8) -> bool {
    48 <= b <= 57
}

/// The first position at or after `i` that does not hold whitespace.
pub open spec fn ws_end(input: Seq<u8>, i: int) -> int
    decreases input.len() - i,
{
    if 0 <= i < input.len() && is_ws(input[i]) {
        ws_end(input, i + 1)
    } else {
        i
    }
}

/// The first position at or after `i` that does not hold a symbol byte.
pub open spec fn run_end(input: Seq<u8>, i: int) -> int
    decreases input.len() - i,
{
    if 0 <= i < input.len() && is_sym_byte(input[i]) {
        run_end(input, i + 1)
    } else {
        i
    }
}

/// The position of the quote closing a text literal whose body starts at `j`:
/// a backslash-quote pair does not close it, any other byte is content.
pub open spec fn string_end(input: Seq<u8>, j: int) -> Option<int>
    decreases input.len() - j,
{
    if j < 0 || j >= input.len() {
        None
    } else if input[j] == 34 {
        Some(j)
    } else if input[j] == 92 && j + 1 < input.len() && input[j + 1] == 34 {
        string_end(input, j + 2)
    } else {
        string_end(input, j + 1)
    }
}

/// Every byte of the sequence is a digit.
pub open spec fn all_digits(s: Seq<u8>) -> bool {
    forall|i: int| 0 <= i < s.len() ==> is_digit_byte(#[trigger] s[i])
}

/// The position of the first `.` in the token, or its length.
pub open spec fn dot_pos(s: Seq<u8>) -> int
    decreases s.len(),
{
    if s.len() == 0 {
        0
    } else if s[0] == 46 {
        0
    } else {
        1 + dot_pos(s.drop_first())
    }
}

/// The token without its optional leading sign.
pub open spec fn strip_sign(s: Seq<u8>) -> Seq<u8> {
    if s.len() > 0 && (s[0] == 43 || s[0] == 45) {
        s.drop_first()
    } else {
        s
    }
}

/// Whether a token is negative: it starts with a minus sign.
pub open spec fn token_neg(s: Seq<u8>) -> bool {
    s.len() > 0 && s[0] == 45
}

/// The shape of a numeric token after the sign: digits, a dot and optional
/// digits; a dot and digits; or bare digits.
pub open spec fn is_number_body(t: Seq<u8>) -> bool {
    let d = dot_pos(t);
    if t.len() == 0 {
        false
    } else if d == t.len() {
        all_digits(t)
    } else if d == 0 {
        t.len() >= 2 && all_digits(t.skip(1))
    } else {
        all_digits(t.take(d)) && all_digits(t.skip(d + 1))
    }
}

/// The shape of a numeric token: an optional sign, then a numeric body.
pub open spec fn is_number_token(s: Seq<u8>) -> bool {
    is_number_body(strip_sign(s))
}

/// The value of a digit string, saturating: once past the 64-bit signed
/// maximum it stays there, so overflow is still visible.
pub open spec fn dv(s: Seq<u8>) -> int
    decreases s.len(),
{
    if s.len() == 0 {
        0
    } else {
        let p = dv(s.drop_last());
        if p > 0x7fff_ffff_ffff_ffff {
            p
        } else {
            p * 10 + (s.last() as int - 48)
        }
    }
}

/// A power of ten, saturating in the same way.
pub open spec fn pw(k: int) -> int
    decreases k,
{
    if k <= 0 {
        1
    } else {
        let p = pw(k - 1);
        if p > 0x7fff_ffff_ffff_ffff {
            p
        } else {
            p * 10
        }
    }
}

/// The reduced rational a numeric token denotes: integer part, fractional
/// digits over the matching power of ten; `None` when the parts do not fit in
/// 64 bits.
pub open spec fn spec_number_val(s: Seq<u8>) -> Option<Rat> {
    let t = strip_sign(s);
    let d = dot_pos(t);
    let ip = t.take(d);
    let fp = if d >= t.len() {
        Seq::<u8>::empty()
    } else {
        t.skip(d + 1)
    };
    let iv = dv(ip);
    let p10 = pw(fp.len() as int);
    if iv > 0x7fff_ffff_ffff_ffff || p10 > 0x7fff_ffff_ffff_ffff {
        None
    } else {
        let n = iv * p10 + dv(fp);
        if n > 0x7fff_ffff_ffff_ffff {
            None
        } else {
            spec_norm(token_neg(s), n as nat, p10 as nat)
        }
    }
}

/// The characters of an ASCII byte sequence.
pub open spec fn ascii_chars(s: Seq<u8>) -> Seq<char> {
    Seq::new(s.len(), |i: int| s[i] as char)
}

/// What `String::from_utf8` returns for the given bytes, a function of the
/// bytes alone; `None` stands for bytes that are not UTF-8.
pub uninterp spec fn utf8_of(b: Seq<u8>) -> Option<Seq<char>>;

/// Relies on String::from_utf8: decodes UTF-8 bytes, refuses others, and maps
/// ASCII bytes to their own characters.
#[verifier::external_body]
fn bytes_to_string(v: Vec<u8>) -> (r: Option<String>)
    ensures
        match r {
            Some(s) => utf8_of(v@) == Some(s@) && ((forall|i: int|
                0 <= i < v@.len() ==> v@[i] < 128) ==> s@ == ascii_chars(v@)),
            None => utf8_of(v@) is None && !(forall|i: int|
                0 <= i < v@.len() ==> v@[i] < 128),
        },
{
    match String::from_utf8(v) {
        Ok(s) => Some(s),
        Err(_) => None,
    }
}

/// The result of reading one atom (a number or a symbol) whose token spans
/// `[i, e)`.
pub open spec fn spec_parse_atom(input: Seq<u8>, i: int) -> Option<(SexpV, int)> {
    let e = run_end(input, i);
    if e <= i {
        None
    } else {
        let tok = input.subrange(i, e);
        if is_number_token(tok) {
            match spec_number_val(tok) {
                Some(q) => Some((SexpV::Number(q), e)),
                None => None,
            }
        } else {
            Some((SexpV::Symbol(ascii_chars(tok)), e))
        }
    }
}

/// The result of reading one text literal starting at the opening quote `i`.
pub open spec fn spec_parse_string(input: Seq<u8>, i: int) -> Option<(SexpV, int)> {
    match string_end(input, i + 1) {
        None => None,
        Some(e) => match utf8_of(input.subrange(i + 1, e)) {
            Some(cs) => Some((SexpV::Text(cs), e + 1)),
            None => None,
        },
    }
}

/// The result of reading one expression starting exactly at `i`: a quote opens
/// a text literal, a parenthesis opens a list, a symbol byte opens an atom,
/// and anything else is a parse failure.
pub open spec fn spec_parse(input: Seq<u8>, i: int) -> Option<(SexpV, int)>
    decreases input.len() - i, 0int,
{
    if i < 0 || i >= input.len() {
        None
    } else if input[i] == 34 {
        spec_parse_string(input, i)
    } else if input[i] == 40 {
        let j = ws_end(input, i + 1);
        if j <= i || j > input.len() {
            None
        } else {
            match spec_parse_list(input, j) {
                Some((items, end)) => Some((SexpV::List(items), end)),
                None => None,
            }
        }
    } else {
        spec_parse_atom(input, i)
    }
}

/// The elements of a list body from `i` (placed on a non-whitespace byte) to
/// the closing parenthesis: elements are separated by whitespace, which is
/// optional before the closing parenthesis. The guards on returned positions
/// never fire on what the grammar itself produced; they keep the recursion
/// well founded.
pub open spec fn spec_parse_list(input: Seq<u8>, i: int) -> Option<(Seq<SexpV>, int)>
    decreases input.len() - i, 1int,
{
    if i < 0 || i >= input.len() {
        None
    } else if input[i] == 41 {
        Some((Seq::empty(), i + 1))
    } else {
        match spec_parse(input, i) {
            None => None,
            Some((v, e)) => {
                if e <= i || e > input.len() {
                    None
                } else {
                    let w = ws_end(input, e);
                    if w < e || w > input.len() {
                        None
                    } else if w >= input.len() {
                        None
                    } else if input[w] == 41 {
                        Some((seq![v], w + 1))
                    } else if w == e {
                        None
                    } else {
                        match spec_parse_list(input, w) {
                            None => None,
                            Some((vs, end)) => Some((seq![v] + vs, end)),
                        }
                    }
                }
            },
        }
    }
}

fn skip_ws(input: &[u8], i: usize) -> (j: usize)
    requires
        i <= input@.len(),
    ensures
        j == ws_end(input@, i as int),
        i <= j <= input@.len(),
{
    let mut j = i;
    while j < input.len() && is_ws_exec(input[j])
        invariant
            i <= j <= input@.len(),
            ws_end(input@, i as int) == ws_end(input@, j as int),
        decreases input@.len() - j,
    {
        j += 1;
    }
    j
}

fn is_ws_exec(b: u8) -> (r: bool)
    ensures
        r == is_ws(b),
{
    b == 32 || b == 9 || b == 10
}

/// Tests whether a byte is an ASCII letter, a digit, or extended symbol
/// punctuation.
fn is_extended_alphanumeric(b: u8) -> (r: bool)
    ensures
        r == is_sym_byte(b),
{
    (48 <= b && b <= 57) || (65 <= b && b <= 90) || (97 <= b && b <= 122)
        || crate::is_extended(b)
}

fn find_run_end(input: &[u8], i: usize) -> (e: usize)
    requires
        i <= input@.len(),
    ensures
        e == run_end(input@, i as int),
        i <= e <= input@.len(),
{
    let mut j = i;
    while j < input.len() && is_extended_alphanumeric(input[j])
        invariant
            i <= j <= input@.len(),
            run_end(input@, i as int) == run_end(input@, j as int),
        decreases input@.len() - j,
    {
        j += 1;
    }
    j
}

fn find_string_end(input: &[u8], i: usize) -> (r: Option<usize>)
    requires
        i <= input@.len(),
    ensures
        match r {
            Some(e) => string_end(input@, i as int) == Some(e as int) && i <= e
                < input@.len(),
            None => string_end(input@, i as int) is None,
        },
{
    let mut j = i;
    loop
        invariant
            i <= j <= input@.len(),
            string_end(input@, i as int) == string_end(input@, j as int),
        decreases input@.len() - j,
    {
        if j >= input.len() {
            return None;
        }
        if input[j] == 34 {
            return Some(j);
        }
        if input[j] == 92 && j + 1 < input.len() && input[j + 1] == 34 {
            j += 2;
        } else {
            j += 1;
        }
    }
}

/// Reads the saturating value of the digit bytes in `[from, to)`.
fn digits_value(input: &[u8], from: usize, to: usize) -> (v: u128)
    requires
        from <= to <= input@.len(),
        all_digits(input@.subrange(from as int, to as int)),
    ensures
        v == dv(input@.subrange(from as int, to as int)),
        v <= 0x7fff_ffff_ffff_ffff * 10 + 9,
{
    let ghost whole = input@.subrange(from as int, to as int);
    let mut acc: u128 = 0;
    let mut j = from;
    proof {
        assert(input@.subrange(from as int, from as int) =~= Seq::<u8>::empty());
    }
    while j < to
        invariant
            from <= j <= to <= input@.len(),
            all_digits(whole),
            whole == input@.subrange(from as int, to as int),
            acc == dv(input@.subrange(from as int, j as int)),
            acc <= 0x7fff_ffff_ffff_ffff * 10 + 9,
        decreases to - j,
    {
        let d = input[j];
        proof {
            let s1 = input@.subrange(from as int, j + 1);
            assert(s1.drop_last() =~= input@.subrange(from as int, j as int));
            assert(s1.last() == input@[j as int]);
            assert(whole[j - from] == input@[j as int]);
            assert(is_digit_byte(d));
        }
        if acc > 0x7fff_ffff_ffff_ffff {
        } else {
            acc = acc * 10 + ((d - 48) as u128);
        }
        j += 1;
    }
    acc
}

/// Reads the saturating power of ten for `k` fractional digits.
fn pow10(k: usize) -> (v: u128)
    ensures
        v == pw(k as int),
        1 <= v <= 0x7fff_ffff_ffff_ffff * 10,
{
    let mut acc: u128 = 1;
    let mut j: usize = 0;
    while j < k
        invariant
            j <= k,
            acc == pw(j as int),
            1 <= acc <= 0x7fff_ffff_ffff_ffff * 10,
        decreases k - j,
    {
        if acc > 0x7fff_ffff_ffff_ffff {
        } else {
            acc = acc * 10;
        }
        j += 1;
    }
    acc
}

/// Everything before the run's end is a symbol byte, and the end is in range.
proof fn lemma_run_all(input: Seq<u8>, i: int)
    requires
        0 <= i <= input.len(),
    ensures
        i <= run_end(input, i) <= input.len(),
        forall|j: int| i <= j < run_end(input, i) ==> is_sym_byte(#[trigger] input[j]),
    decreases input.len() - i,
{
    if i < input.len() && is_sym_byte(input[i]) {
        lemma_run_all(input, i + 1);
    }
}

/// A prefix without dots followed by a dot (or the end) pins `dot_pos` down.
proof fn lemma_dot_pos(s: Seq<u8>, k: int)
    requires
        0 <= k <= s.len(),
        forall|j: int| 0 <= j < k ==> (#[trigger] s[j]) != 46,
        k < s.len() ==> s[k] == 46,
    ensures
        dot_pos(s) == k,
    decreases k, s.len(),
{
    if s.len() == 0 {
    } else if k == 0 {
    } else {
        lemma_dot_pos(s.drop_first(), k - 1);
    }
}

/// Tests whether every byte in `[from, to)` is a digit.
fn check_digits(input: &[u8], from: usize, to: usize) -> (r: bool)
    requires
        from <= to <= input@.len(),
    ensures
        r == all_digits(input@.subrange(from as int, to as int)),
{
    let ghost sub = input@.subrange(from as int, to as int);
    let mut j = from;
    while j < to
        invariant
            from <= j <= to <= input@.len(),
            sub == input@.subrange(from as int, to as int),
            forall|m: int| 0 <= m < j - from ==> is_digit_byte(#[trigger] sub[m]),
        decreases to - j,
    {
        let b = input[j];
        if !(48 <= b && b <= 57) {
            proof {
                assert(sub[j - from] == input@[j as int]);
            }
            return false;
        }
        proof {
            assert(sub[j - from] == input@[j as int]);
        }
        j += 1;
    }
    true
}

/// Reads one atom starting at `i`: the whole symbol-byte run, a number when
/// it has numeric shape and fits, otherwise a symbol.
fn parse_atom(input: &[u8], i: usize) -> (r: Option<(Sexp, usize)>)
    requires
        i <= input@.len(),
    ensures
        match r {
            Some((v, e)) => spec_parse_atom(input@, i as int) == Some((v@, e as int)) && i < e
                <= input@.len() && crate::sexp::sexp_wf(v@) && crate::sexp::sexp_closed(v@, 0),
            None => spec_parse_atom(input@, i as int) is None,
        },
{
    let e = find_run_end(input, i);
    if e == i {
        return None;
    }
    proof {
        lemma_run_all(input@, i as int);
    }
    let ghost tok = input@.subrange(i as int, e as int);
    let has_sign = input[i] == 43 || input[i] == 45;
    let t0: usize = if has_sign {
        i + 1
    } else {
        i
    };
    proof {
        assert(strip_sign(tok) =~= input@.subrange(t0 as int, e as int));
    }
    let mut dp = t0;
    while dp < e && input[dp] != 46
        invariant
            t0 <= dp <= e <= input@.len(),
            forall|j: int| t0 <= j < dp ==> (#[trigger] input@[j]) != 46,
        decreases e - dp,
    {
        dp += 1;
    }
    proof {
        let t = input@.subrange(t0 as int, e as int);
        assert forall|j: int| 0 <= j < dp - t0 implies (#[trigger] t[j]) != 46 by {
            assert(t[j] == input@[t0 + j]);
        }
        if (dp as int) < e {
            assert(t[dp - t0] == input@[dp as int]);
        }
        lemma_dot_pos(t, dp - t0);
    }
    let numeric: bool = if t0 == e {
        false
    } else if dp == e {
        check_digits(input, t0, e)
    } else if dp == t0 {
        e - t0 >= 2 && check_digits(input, t0 + 1, e)
    } else {
        check_digits(input, t0, dp) && check_digits(input, dp + 1, e)
    };
    proof {
        let t = input@.subrange(t0 as int, e as int);
        if t0 < e {
            if dp == e {
            } else if dp == t0 {
                assert(t.skip(1) =~= input@.subrange(t0 + 1, e as int));
            } else {
                assert(t.take(dp - t0) =~= input@.subrange(t0 as int, dp as int));
                assert(t.skip(dp - t0 + 1) =~= input@.subrange(dp + 1, e as int));
            }
        }
        assert(numeric == is_number_token(tok));
    }
    if numeric {
        let (fv, k): (u128, usize) = if dp == e {
            (0u128, 0usize)
        } else {
            (digits_value(input, dp + 1, e), e - dp - 1)
        };
        let iv = digits_value(input, t0, dp);
        proof {
            let t = input@.subrange(t0 as int, e as int);
            assert(t.take(dot_pos(t)) =~= input@.subrange(t0 as int, dp as int));
            if (dp as int) < e {
                assert(t.skip(dot_pos(t) + 1) =~= input@.subrange(dp + 1, e as int));
            } else {
                assert(dot_pos(t) >= t.len());
            }
        }
        let p10 = pow10(k);
        if iv > 0x7fff_ffff_ffff_ffff || p10 > 0x7fff_ffff_ffff_ffff {
            return None;
        }
        proof {
            assert(iv * p10 + fv < 0x1_0000_0000_0000_0000_0000_0000_0000_0000) by (nonlinear_arith)
                requires
                    iv <= 0x7fff_ffff_ffff_ffff,
                    p10 <= 0x7fff_ffff_ffff_ffff,
                    fv <= 0x7fff_ffff_ffff_ffff * 10 + 9,
            ;
        }
        let n: u128 = iv * p10 + fv;
        if n > 0x7fff_ffff_ffff_ffff {
            return None;
        }
        let neg = input[i] == 45;
        match crate::rat::norm_parts(neg, n, p10) {
            Some(q) => Some((Sexp::Number(q), e)),
            None => None,
        }
    } else {
        let mut bytes: Vec<u8> = Vec::new();
        let mut j = i;
        while j < e
            invariant
                i <= j <= e <= input@.len(),
                bytes@ == input@.subrange(i as int, j as int),
                i <= e,
            decreases e - j,
        {
            bytes.push(input[j]);
            proof {
                assert(bytes@ =~= input@.subrange(i as int, j + 1));
            }
            j += 1;
        }
        proof {
            lemma_run_all(input@, i as int);
            assert forall|m: int| 0 <= m < bytes@.len() implies bytes@[m] < 128 by {
                assert(bytes@[m] == input@[i + m]);
                assert(is_sym_byte(input@[i + m]));
            }
        }
        match bytes_to_string(bytes) {
            Some(name) => {
                proof {
                    assert(name@ =~= ascii_chars(tok));
                }
                Some((Sexp::Symbol(name), e))
            }
            None => {
                proof {
                    assert(false);
                }
                None
            }
        }
    }
}

/// Reads one text literal starting at the opening quote `i`.
fn parse_string_at(input: &[u8], i: usize) -> (r: Option<(Sexp, usize)>)
    requires
        i < input@.len(),
        input@[i as int] == 34,
    ensures
        match r {
            Some((v, e)) => spec_parse_string(input@, i as int) == Some((v@, e as int)) && i < e
                <= input@.len() && crate::sexp::sexp_wf(v@) && crate::sexp::sexp_closed(v@, 0),
            None => spec_parse_string(input@, i as int) is None,
        },
{
    let total = input.len();
    match find_string_end(input, i + 1) {
        None => None,
        Some(e) => {
            let mut bytes: Vec<u8> = Vec::new();
            let mut j = i + 1;
            while j < e
                invariant
                    i + 1 <= j <= e <= input@.len(),
                    bytes@ == input@.subrange(i + 1, j as int),
                decreases e - j,
            {
                bytes.push(input[j]);
                proof {
                    assert(bytes@ =~= input@.subrange(i + 1, j + 1));
                }
                j += 1;
            }
            match bytes_to_string(bytes) {
                Some(text) => Some((Sexp::Text(text), e + 1)),
                None => None,
            }
        }
    }
}

/// Reads one expression starting exactly at `i`; the result never holds a
/// function value, so it is closed under any chain.
pub fn parse_expr(input: &[u8], i: usize) -> (r: Option<(Sexp, usize)>)
    requires
        i <= input@.len(),
    ensures
        match r {
            Some((v, e)) => spec_parse(input@, i as int) == Some((v@, e as int)) && i < e
                <= input@.len() && crate::sexp::sexp_wf(v@) && crate::sexp::sexp_closed(v@, 0),
            None => spec_parse(input@, i as int) is None,
        },
    decreases input@.len() - i, 0int,
{
    if i >= input.len() {
        return None;
    }
    let b = input[i];
    if b == 34 {
        parse_string_at(input, i)
    } else if b == 40 {
        let j = skip_ws(input, i + 1);
        match parse_list_items(input, j) {
            Some((items, end)) => {
                let v = Sexp::List(items);
                proof {
                    lemma_views(v->List_0@);
                }
                Some((v, end))
            }
            None => None,
        }
    } else {
        parse_atom(input, i)
    }
}

/// Reads the elements of a list body from `i` to past the closing parenthesis.
fn parse_list_items(input: &[u8], i: usize) -> (r: Option<(Vec<Sexp>, usize)>)
    requires
        i <= input@.len(),
    ensures
        match r {
            Some((vs, end)) => spec_parse_list(input@, i as int) == Some(
                (views(vs@), end as int),
            ) && i < end <= input@.len() && crate::built_in::args_wf(views(vs@))
                && crate::eval::args_closed(views(vs@), 0),
            None => spec_parse_list(input@, i as int) is None,
        },
    decreases input@.len() - i, 1int,
{
    if i >= input.len() {
        return None;
    }
    if input[i] == 41 {
        let empty: Vec<Sexp> = Vec::new();
        proof {
            assert(views(empty@) =~= Seq::<SexpV>::empty());
        }
        return Some((empty, i + 1));
    }
    match parse_expr(input, i) {
        None => None,
        Some((v, e)) => {
            let w = skip_ws(input, e);
            if w >= input.len() {
                None
            } else if input[w] == 41 {
                let mut out: Vec<Sexp> = Vec::new();
                out.push(v);
                proof {
                    lemma_views(out@);
                    assert(views(out@) =~= seq![out@[0].deep()]);
                }
                Some((out, w + 1))
            } else if w == e {
                None
            } else {
                match parse_list_items(input, w) {
                    None => None,
                    Some((mut vs, end)) => {
                        let ghost old_vs = vs@;
                        vs.insert(0, v);
                        proof {
                            lemma_views(vs@);
                            lemma_views(old_vs);
                            assert(views(vs@) =~= seq![vs@[0].deep()] + views(old_vs));
                        }
                        Some((vs, end))
                    }
                }
            }
        }
    }
}

/// Reads one expression from the front of the input: the parse succeeds or
/// fails as a whole, and whatever follows the expression is left alone.
pub fn parse(input: &[u8]) -> (r: Option<(Sexp, usize)>)
    ensures
        match r {
            Some((v, e)) => spec_parse(input@, 0) == Some((v@, e as int)) && 0 < e
                <= input@.len() && crate::sexp::sexp_wf(v@) && crate::sexp::sexp_closed(v@, 0),
            None => spec_parse(input@, 0) is None,
        },
{
    parse_expr(input, 0)
}

/// Reads one expression and keeps it only when it is a number.
pub fn parse_number(input: &[u8]) -> (r: Option<(Sexp, usize)>)
    ensures
        match r {
            Some((v, e)) => spec_parse(input@, 0) == Some((v@, e as int)) && v@ is Number
                && crate::sexp::sexp_wf(v@),
            None => match spec_parse(input@, 0) {
                Some(p) => !(p.0 is Number),
                None => true,
            },
        },
{
    match parse_expr(input, 0) {
        Some((v, e)) => match &v {
            Sexp::Number(_) => Some((v, e)),
            _ => None,
        },
        None => None,
    }
}

/// Reads one expression and keeps it only when it is a text literal.
pub fn parse_string(input: &[u8]) -> (r: Option<(Sexp, usize)>)
    ensures
        match r {
            Some((v, e)) => spec_parse(input@, 0) == Some((v@, e as int)) && v@ is Text
                && crate::sexp::sexp_wf(v@),
            None => match spec_parse(input@, 0) {
                Some(p) => !(p.0 is Text),
                None => true,
            },
        },
{
    match parse_expr(input, 0) {
        Some((v, e)) => match &v {
            Sexp::Text(_) => Some((v, e)),
            _ => None,
        },
        None => None,
    }
}

/// Reads one expression and keeps it only when it is a symbol.
pub fn parse_symbol(input: &[u8]) -> (r: Option<(Sexp, usize)>)
    ensures
        match r {
            Some((v, e)) => spec_parse(input@, 0) == Some((v@, e as int)) && v@ is Symbol
                && crate::sexp::sexp_wf(v@),
            None => match spec_parse(input@, 0) {
                Some(p) => !(p.0 is Symbol),
                None => true,
            },
        },
{
    match parse_expr(input, 0) {
        Some((v, e)) => match &v {
            Sexp::Symbol(_) => Some((v, e)),
            _ => None,
        },
        None => None,
    }
}

/// Reads one expression and keeps it only when it is a list.
pub fn parse_list(input: &[u8]) -> (r: Option<(Sexp, usize)>)
    ensures
        match r {
            Some((v, e)) => spec_parse(input@, 0) == Some((v@, e as int)) && v@ is List
                && crate::sexp::sexp_wf(v@),
            None => match spec_parse(input@, 0) {
                Some(p) => !(p.0 is List),
                None => true,
            },
        },
{
    match parse_expr(input, 0) {
        Some((v, e)) => match &v {
            Sexp::List(_) => Some((v, e)),
            _ => None,
        },
        None => None,
    }
}

} // verus!
