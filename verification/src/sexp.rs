use crate::rat::{rat_wf, Rat};
use vstd::math::abs;
use vstd::prelude::*;
use vstd::string::StringExecFns;

verus! {

/// The fixed registry of native functions.
#[derive(Clone, Copy, PartialEq, Eq, Structural, Debug)]
pub enum BuiltIn {
    Add,
    Subtract,
    Multiply,
    Divide,
    Numberp,
    Lt,
    Lte,
}

/// A user-defined function: parameter names, an unevaluated body, and the
/// index of the scope that was current at its definition site.
#[derive(PartialEq, Debug)]
pub struct FuncData {
    pub params: Vec<String>,
    pub body: Box<Sexp>,
    pub env: usize,
}

/// A runtime value; lists double as the syntax tree of compound forms.
#[derive(PartialEq, Debug)]
pub enum Sexp {
    Number(Rat),
    Text(String),
    Symbol(String),
    List(Vec<Sexp>),
    BuiltInFunc(BuiltIn),
    UserFunc(FuncData),
    Nil,
    True,
}

/// The mathematical shape of a value: strings become character sequences,
/// vectors become sequences, scope handles become integers.
pub enum SexpV {
    Number(Rat),
    Text(Seq<char>),
    Symbol(Seq<char>),
    List(Seq<SexpV>),
    BuiltInFunc(BuiltIn),
    UserFunc { params: Seq<Seq<char>>, body: Box<SexpV>, env: int },
    Nil,
    True,
}

impl FuncData {
    /// Packs the parts of a user-defined function.
    pub fn new(params: Vec<String>, body: Sexp, env: usize) -> (r: FuncData)
        ensures
            r.params == params,
            *r.body == body,
            r.env == env,
    {
        FuncData { params, body: Box::new(body), env }
    }
}

impl Sexp {
    /// The mathematical shape of this value.
    pub open spec fn deep(self) -> SexpV
        decreases self, 0int,
            via Self::deep_decreases
    {
        match self {
            Sexp::Number(r) => SexpV::Number(r),
            Sexp::Text(s) => SexpV::Text(s@),
            Sexp::Symbol(s) => SexpV::Symbol(s@),
            Sexp::List(v) => SexpV::List(views(v@)),
            Sexp::BuiltInFunc(b) => SexpV::BuiltInFunc(b),
            Sexp::UserFunc(d) => SexpV::UserFunc {
                params: Seq::new(d.params@.len(), |i: int| d.params@[i]@),
                body: Box::new((*d.body).deep()),
                env: d.env as int,
            },
            Sexp::Nil => SexpV::Nil,
            Sexp::True => SexpV::True,
        }
    }

    #[via_fn]
    proof fn deep_decreases(self) {
        match self {
            Sexp::List(v) => {
                assert(decreases_to!(v => v@));
                assert(decreases_to!(self, 0int => v@, 1int));
            }
            _ => {}
        }
    }
}

impl View for Sexp {
    type V = SexpV;

    open spec fn view(&self) -> SexpV {
        self.deep()
    }
}

/// The shapes of a sequence of values.
pub open spec fn views(s: Seq<Sexp>) -> Seq<SexpV>
    decreases s, 1int,
{
    if s.len() == 0 {
        Seq::empty()
    } else {
        seq![s[0].deep()] + views(s.subrange(1, s.len() as int))
    }
}

/// Pointwise description of `views`: element `i` is the shape of element `i`.
pub broadcast proof fn lemma_views(s: Seq<Sexp>)
    ensures
        (#[trigger] views(s)).len() == s.len(),
        forall|i: int| 0 <= i < s.len() ==> (#[trigger] views(s)[i]) == s[i].deep(),
    decreases s.len(),
{
    if s.len() > 0 {
        lemma_views(s.subrange(1, s.len() as int));
    }
}

/// Every rational inside the value has a positive denominator.
pub open spec fn sexp_wf(v: SexpV) -> bool
    decreases v,
{
    match v {
        SexpV::Number(r) => rat_wf(r),
        SexpV::List(items) => forall|i: int|
            0 <= i < items.len() ==> sexp_wf(#[trigger] items[i]),
        SexpV::UserFunc { params, body, env } => sexp_wf(*body),
        _ => true,
    }
}

/// Every scope handle inside the value points below `n`.
pub open spec fn sexp_closed(v: SexpV, n: int) -> bool
    decreases v,
{
    match v {
        SexpV::List(items) => forall|i: int|
            0 <= i < items.len() ==> sexp_closed(#[trigger] items[i], n),
        SexpV::UserFunc { params, body, env } => 0 <= env < n && sexp_closed(*body, n),
        _ => true,
    }
}

/// A well-formed list has well-formed elements.
pub proof fn lemma_wf_list_elems(items: Seq<SexpV>)
    requires
        sexp_wf(SexpV::List(items)),
    ensures
        forall|i: int| 0 <= i < items.len() ==> sexp_wf(#[trigger] items[i]),
{
    let l = SexpV::List(items);
    assert forall|i: int| 0 <= i < items.len() implies sexp_wf(#[trigger] items[i]) by {
        assert(l->List_0 == items);
        assert(sexp_wf(l->List_0[i]));
    }
}

/// A closed list has closed elements.
pub proof fn lemma_closed_list_elems(items: Seq<SexpV>, n: int)
    requires
        sexp_closed(SexpV::List(items), n),
    ensures
        forall|i: int| 0 <= i < items.len() ==> sexp_closed(#[trigger] items[i], n),
{
    let l = SexpV::List(items);
    assert forall|i: int| 0 <= i < items.len() implies sexp_closed(#[trigger] items[i], n) by {
        assert(l->List_0 == items);
        assert(sexp_closed(l->List_0[i], n));
    }
}

/// A value closed under `n` scopes stays closed when scopes are added.
pub proof fn lemma_closed_grows(v: SexpV, n: int, m: int)
    requires
        sexp_closed(v, n),
        n <= m,
    ensures
        sexp_closed(v, m),
    decreases v,
{
    match v {
        SexpV::List(items) => {
            assert forall|i: int| 0 <= i < items.len() implies sexp_closed(
                #[trigger] items[i],
                m,
            ) by {
                lemma_closed_grows(items[i], n, m);
            }
        }
        SexpV::UserFunc { params, body, env } => {
            lemma_closed_grows(*body, n, m);
        }
        _ => {}
    }
}

impl Sexp {
    /// A structural copy of this value.
    pub fn duplicate(&self) -> (r: Sexp)
        ensures
            r@ == self@,
        decreases *self, 0int,
    {
        match self {
            Sexp::Number(r) => Sexp::Number(*r),
            Sexp::Text(s) => Sexp::Text(s.clone()),
            Sexp::Symbol(s) => Sexp::Symbol(s.clone()),
            Sexp::List(v) => {
                let out = duplicate_items(v);
                let r = Sexp::List(out);
                proof {
                    lemma_views(out@);
                    lemma_views(v@);
                    assert(r@->List_0 =~= self@->List_0);
                }
                r
            }
            Sexp::BuiltInFunc(b) => Sexp::BuiltInFunc(*b),
            Sexp::UserFunc(d) => {
                let mut ps: Vec<String> = Vec::new();
                let mut i: usize = 0;
                while i < d.params.len()
                    invariant
                        i <= d.params.len(),
                        ps@.len() == i,
                        forall|j: int| 0 <= j < i ==> ps@[j]@ == d.params@[j]@,
                    decreases d.params.len() - i,
                {
                    ps.push(d.params[i].clone());
                    i += 1;
                }
                let body = d.body.duplicate();
                let r = Sexp::UserFunc(FuncData { params: ps, body: Box::new(body), env: d.env });
                proof {
                    assert(r@ is UserFunc && self@ is UserFunc);
                    assert(r@->UserFunc_params =~= self@->UserFunc_params);
                }
                r
            }
            Sexp::Nil => Sexp::Nil,
            Sexp::True => Sexp::True,
        }
    }
}

fn duplicate_items(v: &Vec<Sexp>) -> (out: Vec<Sexp>)
    ensures
        out@.len() == v@.len(),
        forall|j: int| 0 <= j < v@.len() ==> out@[j].deep() == v@[j].deep(),
    decreases *v, 1int,
{
    let mut out: Vec<Sexp> = Vec::new();
    let mut i: usize = 0;
    while i < v.len()
        invariant
            i <= v.len(),
            out@.len() == i,
            forall|j: int| 0 <= j < i ==> out@[j].deep() == v@[j].deep(),
        decreases v.len() - i,
    {
        out.push(v[i].duplicate());
        i += 1;
    }
    out
}

/// What `str::to_uppercase` returns for the given characters; the result is a
/// function of the characters alone.
pub uninterp spec fn upper_of(s: Seq<char>) -> Seq<char>;

/// Relies on str::to_uppercase: the upper-case mapping of the text, a function
/// of the characters alone.
#[verifier::external_body]
fn to_upper(s: &String) -> (r: String)
    ensures
        r@ == upper_of(s@),
{
    s.to_uppercase()
}

/// The decimal digit for a value below ten.
pub open spec fn digit_char(d: nat) -> char {
    if d == 0 {
        '0'
    } else if d == 1 {
        '1'
    } else if d == 2 {
        '2'
    } else if d == 3 {
        '3'
    } else if d == 4 {
        '4'
    } else if d == 5 {
        '5'
    } else if d == 6 {
        '6'
    } else if d == 7 {
        '7'
    } else if d == 8 {
        '8'
    } else {
        '9'
    }
}

/// The decimal rendering of a natural number, most significant digit first.
pub open spec fn dec_digits(n: nat) -> Seq<char>
    decreases n,
{
    if n < 10 {
        seq![digit_char(n)]
    } else {
        dec_digits(n / 10).push(digit_char(n % 10))
    }
}

/// The decimal rendering of an integer, with a leading minus sign if negative.
pub open spec fn int_str(n: int) -> Seq<char> {
    if n < 0 {
        seq!['-'] + dec_digits(abs(n))
    } else {
        dec_digits(n as nat)
    }
}

/// The printed form of a value: numbers in decimal (with `/` between the parts
/// of a non-integer rational), text upper-cased in quotes, symbols as
/// themselves, lists space-separated in parentheses, functions as an opaque
/// marker, `Nil` as `NIL` and `True` as `T`.
pub open spec fn display_of(v: SexpV) -> Seq<char>
    decreases v, 0int,
{
    match v {
        SexpV::Number(r) => if r.den == 1 {
            int_str(r.num as int)
        } else {
            int_str(r.num as int) + seq!['/'] + dec_digits(r.den as nat)
        },
        SexpV::Text(s) => seq!['"'] + upper_of(s) + seq!['"'],
        SexpV::Symbol(s) => s,
        SexpV::List(items) => seq!['('] + display_items_from(items, 0) + seq![')'],
        SexpV::BuiltInFunc(b) => seq!['<', 'f', 'n', '>'],
        SexpV::UserFunc { params, body, env } => seq!['<', 'f', 'n', '>'],
        SexpV::Nil => seq!['N', 'I', 'L'],
        SexpV::True => seq!['T'],
    }
}

/// The printed forms of the items from index `i` on, space-separated.
pub open spec fn display_items_from(items: Seq<SexpV>, i: int) -> Seq<char>
    decreases items, (if i < items.len() { items.len() - i } else { 0int }),
{
    if i < 0 || i >= items.len() {
        Seq::empty()
    } else if i == items.len() - 1 {
        display_of(items[i])
    } else {
        display_of(items[i]) + seq![' '] + display_items_from(items, i + 1)
    }
}

fn digit_str(d: u64) -> (r: &'static str)
    requires
        d < 10,
    ensures
        r@ == seq![digit_char(d as nat)],
{
    let s: &'static str = if d == 0 {
        "0"
    } else if d == 1 {
        "1"
    } else if d == 2 {
        "2"
    } else if d == 3 {
        "3"
    } else if d == 4 {
        "4"
    } else if d == 5 {
        "5"
    } else if d == 6 {
        "6"
    } else if d == 7 {
        "7"
    } else if d == 8 {
        "8"
    } else {
        "9"
    };
    proof {
        reveal_strlit("0");
        reveal_strlit("1");
        reveal_strlit("2");
        reveal_strlit("3");
        reveal_strlit("4");
        reveal_strlit("5");
        reveal_strlit("6");
        reveal_strlit("7");
        reveal_strlit("8");
        reveal_strlit("9");
        assert(s@ =~= seq![digit_char(d as nat)]);
    }
    s
}

/// Renders a natural number in decimal.
pub fn u64_to_string(n: u64) -> (r: String)
    ensures
        r@ == dec_digits(n as nat),
    decreases n,
{
    if n < 10 {
        digit_str(n).to_owned()
    } else {
        let hi = u64_to_string(n / 10);
        let lo = digit_str(n % 10);
        let r = hi.concat(lo);
        proof {
            assert(r@ =~= dec_digits(n as nat));
        }
        r
    }
}

/// Renders an integer in decimal.
pub fn i64_to_string(n: i64) -> (r: String)
    ensures
        r@ == int_str(n as int),
{
    if n < 0 {
        let a: u64 = if n == i64::MIN {
            0x8000_0000_0000_0000u64
        } else {
            (-n) as u64
        };
        let minus: String = "-".to_owned();
        let r = minus.concat(u64_to_string(a).as_str());
        proof {
            reveal_strlit("-");
            assert(a as nat == abs(n as int));
            assert(r@ =~= int_str(n as int));
        }
        r
    } else {
        u64_to_string(n as u64)
    }
}

impl Sexp {
    /// The printed form of this value.
    pub fn to_display(&self) -> (r: String)
        requires
            sexp_wf(self@),
        ensures
            r@ == display_of(self@),
        decreases *self, 0int,
    {
        match self {
            Sexp::Number(q) => {
                if q.den == 1 {
                    i64_to_string(q.num)
                } else {
                    let r = i64_to_string(q.num).concat("/").concat(
                        u64_to_string(q.den as u64).as_str(),
                    );
                    proof {
                        reveal_strlit("/");
                        assert(r@ =~= display_of(self@));
                    }
                    r
                }
            }
            Sexp::Text(s) => {
                let up = to_upper(s);
                let r = "\"".to_owned().concat(up.as_str()).concat("\"");
                proof {
                    reveal_strlit("\"");
                    assert(r@ =~= display_of(self@));
                }
                r
            }
            Sexp::Symbol(s) => s.clone(),
            Sexp::List(v) => {
                let mid = items_display(v, 0);
                let r = "(".to_owned().concat(mid.as_str()).concat(")");
                proof {
                    reveal_strlit("(");
                    reveal_strlit(")");
                    assert(r@ =~= display_of(self@));
                }
                r
            }
            Sexp::BuiltInFunc(b) => {
                let r = "<fn>".to_owned();
                proof {
                    reveal_strlit("<fn>");
                    assert(r@ =~= display_of(self@));
                }
                r
            }
            Sexp::UserFunc(d) => {
                let r = "<fn>".to_owned();
                proof {
                    reveal_strlit("<fn>");
                    assert(r@ =~= display_of(self@));
                }
                r
            }
            Sexp::Nil => {
                let r = "NIL".to_owned();
                proof {
                    reveal_strlit("NIL");
                    assert(r@ =~= display_of(self@));
                }
                r
            }
            Sexp::True => {
                let r = "T".to_owned();
                proof {
                    reveal_strlit("T");
                    assert(r@ =~= display_of(self@));
                }
                r
            }
        }
    }
}

fn items_display(v: &Vec<Sexp>, i: usize) -> (r: String)
    requires
        forall|k: int| 0 <= k < views(v@).len() ==> sexp_wf(#[trigger] views(v@)[k]),
        i <= v.len(),
    ensures
        r@ == display_items_from(views(v@), i as int),
    decreases *v, (v@.len() - i),
{
    if i >= v.len() {
        let r = String::new();
        proof {
            lemma_views(v@);
            assert(r@ =~= display_items_from(views(v@), i as int));
        }
        r
    } else {
        proof {
            lemma_views(v@);
            assert(sexp_wf(views(v@)[i as int]));
        }
        let head = v[i].to_display();
        if i + 1 == v.len() {
            proof {
                assert(head@ =~= display_items_from(views(v@), i as int));
            }
            head
        } else {
            let rest = items_display(v, i + 1);
            let r = head.concat(" ").concat(rest.as_str());
            proof {
                reveal_strlit(" ");
                lemma_views(v@);
                assert(r@ =~= display_items_from(views(v@), i as int));
            }
            r
        }
    }
}

} // verus!
