use crate::built_in::{
    arg_error_msg, arity_error_msg, res_view, spec_builtin, SexpResult,
};
use crate::env::{env_new, env_set, env_get, env_wf, lookup, Env, ScopeV};
use crate::sexp::{
    display_of, lemma_views, sexp_closed, sexp_wf, views, Sexp, SexpV,
};
use vstd::prelude::*;
use vstd::string::StringExecFns;

verus! {

/// The message given when a symbol has no binding in the whole chain.
pub open spec fn unbound_msg(name: Seq<char>) -> Seq<char> {
    "The variable "@ + name + " is unbound"@
}

/// The message given when a non-callable value heads an application.
pub open spec fn illegal_call_msg() -> Seq<char> {
    "Illegal function call"@
}

/// The message given when `defparameter` is handed a non-symbol name.
pub open spec fn not_a_name_msg(v: SexpV) -> Seq<char> {
    display_of(v) + " is not a legal info name"@
}

/// The message given when evaluation nests deeper than the fuel allows.
pub open spec fn depth_msg() -> Seq<char> {
    "Evaluation depth exceeded"@
}

/// Whether a value names a special form: a symbol spelled exactly
/// `defparameter`, `defun`, `if` or `quote`.
pub open spec fn is_special_name(v: SexpV) -> bool {
    v matches SexpV::Symbol(name) && (name == "defparameter"@ || name == "defun"@ || name == "if"@
        || name == "quote"@)
}

/// Every value of the sequence refers only to scopes below `n`.
pub open spec fn args_closed(s: Seq<SexpV>, n: int) -> bool {
    forall|i: int| 0 <= i < s.len() ==> sexp_closed(#[trigger] s[i], n)
}

/// Every value of the sequence is a `Symbol`.
pub open spec fn all_symbols(s: Seq<SexpV>) -> bool {
    forall|i: int| 0 <= i < s.len() ==> (#[trigger] s[i]) is Symbol
}

/// The index of the first value that is not a `Symbol`.
pub open spec fn first_non_symbol(s: Seq<SexpV>) -> int
    decreases s.len(),
{
    if s.len() == 0 {
        0
    } else if !(s[0] is Symbol) {
        0
    } else {
        1 + first_non_symbol(s.drop_first())
    }
}

/// A prefix of symbols followed by a non-symbol pins the first offender down.
pub proof fn lemma_first_non_symbol(s: Seq<SexpV>, i: int)
    requires
        0 <= i < s.len(),
        forall|j: int| 0 <= j < i ==> (#[trigger] s[j]) is Symbol,
        !(s[i] is Symbol),
    ensures
        first_non_symbol(s) == i,
    decreases i,
{
    if i > 0 {
        lemma_first_non_symbol(s.drop_first(), i - 1);
    }
}

/// The names inside a sequence of `Symbol`s.
pub open spec fn names_of(s: Seq<SexpV>) -> Seq<Seq<char>>
    decreases s.len(),
{
    if s.len() == 0 {
        Seq::empty()
    } else {
        names_of(s.drop_last()).push(s.last()->Symbol_0)
    }
}

/// Pointwise description of `names_of`.
pub proof fn lemma_names_of(s: Seq<SexpV>)
    ensures
        names_of(s).len() == s.len(),
        forall|i: int| 0 <= i < s.len() ==> names_of(s)[i] == (#[trigger] s[i])->Symbol_0,
    decreases s.len(),
{
    if s.len() > 0 {
        lemma_names_of(s.drop_last());
        assert forall|i: int| 0 <= i < s.len() implies names_of(s)[i] == (
        #[trigger] s[i])->Symbol_0 by {
            if i < s.len() - 1 {
                assert(s.drop_last()[i] == s[i]);
                assert(names_of(s)[i] == names_of(s.drop_last())[i]);
            }
        }
    }
}

/// The bindings made by pairing the first `k` parameter names with the first
/// `k` arguments, in order; a repeated name keeps its later value.
pub open spec fn bind_upto(params: Seq<Seq<char>>, args: Seq<SexpV>, k: int) -> Map<
    Seq<char>,
    SexpV,
>
    decreases k,
{
    if k <= 0 {
        Map::empty()
    } else {
        bind_upto(params, args, k - 1).insert(params[k - 1], args[k - 1])
    }
}

/// Positional parameter binding, pairing only up to the shorter sequence:
/// extra arguments are dropped, missing ones leave their names unbound.
pub open spec fn bind_params(params: Seq<Seq<char>>, args: Seq<SexpV>) -> Map<Seq<char>, SexpV> {
    bind_upto(
        params,
        args,
        if params.len() <= args.len() {
            params.len() as int
        } else {
            args.len() as int
        },
    )
}

/// The chain after binding `name` to `val` in the given scope alone.
pub open spec fn env_after_set(em: Seq<ScopeV>, scope: int, name: Seq<char>, val: SexpV) -> Seq<
    ScopeV,
> {
    em.update(
        scope,
        ScopeV { data: em[scope].data.insert(name, val), enclosing: em[scope].enclosing },
    )
}

/// What evaluation returns, and the chain it leaves behind. Atoms evaluate to
/// themselves; a symbol resolves through the chain; an empty list is `Nil`; a
/// list headed by a special-form name dispatches to that form; any other list
/// evaluates its elements left to right and applies the head. The fuel bounds
/// the nesting depth of evaluation; exhausting it is an error.
pub open spec fn spec_eval(em: Seq<ScopeV>, scope: int, e: SexpV, fuel: nat) -> (
    Seq<ScopeV>,
    Result<SexpV, Seq<char>>,
)
    decreases fuel, 4int, 0int,
{
    if fuel == 0 {
        (em, Err(depth_msg()))
    } else {
        match e {
            SexpV::Symbol(name) => match lookup(em, scope, name) {
                Some(v) => (em, Ok(v)),
                None => (em, Err(unbound_msg(name))),
            },
            SexpV::List(items) => if items.len() == 0 {
                (em, Ok(SexpV::Nil))
            } else if is_special_name(items[0]) {
                spec_special(em, scope, items, fuel)
            } else {
                let (em1, r) = spec_eval_elems(em, scope, items, 0, fuel);
                match r {
                    Ok(vals) => spec_apply(em1, vals[0], vals.drop_first(), fuel),
                    Err(msg) => (em1, Err(msg)),
                }
            },
            _ => (em, Ok(e)),
        }
    }
}

/// Left-to-right evaluation of the elements from index `i` on; the first
/// failure aborts the rest, and no partial results survive it.
pub open spec fn spec_eval_elems(
    em: Seq<ScopeV>,
    scope: int,
    items: Seq<SexpV>,
    i: int,
    fuel: nat,
) -> (Seq<ScopeV>, Result<Seq<SexpV>, Seq<char>>)
    decreases fuel, 2int, (if i < items.len() { items.len() - i } else { 0int }),
{
    if fuel == 0 || i < 0 || i >= items.len() {
        (em, Ok(Seq::empty()))
    } else {
        let (em1, r0) = spec_eval(em, scope, items[i], (fuel - 1) as nat);
        match r0 {
            Err(msg) => (em1, Err(msg)),
            Ok(v) => {
                let (em2, rr) = spec_eval_elems(em1, scope, items, i + 1, fuel);
                match rr {
                    Err(msg) => (em2, Err(msg)),
                    Ok(vs) => (em2, Ok(seq![v] + vs)),
                }
            },
        }
    }
}

/// Dispatch of the special forms, by the head symbol's exact name.
pub open spec fn spec_special(em: Seq<ScopeV>, scope: int, items: Seq<SexpV>, fuel: nat) -> (
    Seq<ScopeV>,
    Result<SexpV, Seq<char>>,
)
    decreases fuel, 3int, 0int,
{
    let name = items[0]->Symbol_0;
    if name == "defparameter"@ {
        spec_defparameter(em, scope, items, fuel)
    } else if name == "defun"@ {
        spec_defun(em, scope, items)
    } else if name == "if"@ {
        spec_if(em, scope, items, fuel)
    } else {
        spec_quote(em, items)
    }
}

/// `(quote x)` returns `x` unevaluated.
pub open spec fn spec_quote(em: Seq<ScopeV>, items: Seq<SexpV>) -> (
    Seq<ScopeV>,
    Result<SexpV, Seq<char>>,
) {
    if items.len() < 2 {
        (em, Err(arity_error_msg((items.len() - 1) as nat)))
    } else {
        (em, Ok(items[1]))
    }
}

/// `(if cond then else)` evaluates `cond`; exactly `Nil` selects `else`, any
/// other value selects `then`; the branch not selected is never evaluated.
pub open spec fn spec_if(em: Seq<ScopeV>, scope: int, items: Seq<SexpV>, fuel: nat) -> (
    Seq<ScopeV>,
    Result<SexpV, Seq<char>>,
)
    decreases fuel, 2int, 0int,
{
    if fuel == 0 {
        (em, Err(depth_msg()))
    } else if items.len() < 2 {
        (em, Err(arity_error_msg((items.len() - 1) as nat)))
    } else {
        let (em1, c) = spec_eval(em, scope, items[1], (fuel - 1) as nat);
        match c {
            Err(msg) => (em1, Err(msg)),
            Ok(cv) => {
                let idx: int = if cv is Nil {
                    3
                } else {
                    2
                };
                if items.len() <= idx {
                    (em1, Err(arity_error_msg((items.len() - 1) as nat)))
                } else {
                    spec_eval(em1, scope, items[idx], (fuel - 1) as nat)
                }
            },
        }
    }
}

/// `(defparameter name expr)` demands a symbol for `name`, evaluates `expr`,
/// binds the result in the current scope and returns the name.
pub open spec fn spec_defparameter(em: Seq<ScopeV>, scope: int, items: Seq<SexpV>, fuel: nat) -> (
    Seq<ScopeV>,
    Result<SexpV, Seq<char>>,
)
    decreases fuel, 2int, 0int,
{
    if fuel == 0 {
        (em, Err(depth_msg()))
    } else if items.len() < 3 {
        (em, Err(arity_error_msg((items.len() - 1) as nat)))
    } else if !(items[1] is Symbol) {
        (em, Err(not_a_name_msg(items[1])))
    } else {
        let name = items[1]->Symbol_0;
        let (em1, r) = spec_eval(em, scope, items[2], (fuel - 1) as nat);
        match r {
            Err(msg) => (em1, Err(msg)),
            Ok(val) => (env_after_set(em1, scope, name, val), Ok(SexpV::Symbol(name))),
        }
    }
}

/// `(defun name (p1 ...) body)` demands a symbol for `name` and a list of
/// symbols for the parameters, binds `name` to a closure over the current
/// scope with the unevaluated body, and returns the name.
pub open spec fn spec_defun(em: Seq<ScopeV>, scope: int, items: Seq<SexpV>) -> (
    Seq<ScopeV>,
    Result<SexpV, Seq<char>>,
) {
    if items.len() < 4 {
        (em, Err(arity_error_msg((items.len() - 1) as nat)))
    } else if !(items[1] is Symbol) {
        (em, Err(arg_error_msg(items[1])))
    } else if !(items[2] is List) {
        (em, Err(arg_error_msg(items[2])))
    } else if !all_symbols(items[2]->List_0) {
        (
            em,
            Err(arg_error_msg(items[2]->List_0[first_non_symbol(items[2]->List_0)])),
        )
    } else {
        let name = items[1]->Symbol_0;
        let f = SexpV::UserFunc {
            params: names_of(items[2]->List_0),
            body: Box::new(items[3]),
            env: scope,
        };
        (env_after_set(em, scope, name, f), Ok(SexpV::Symbol(name)))
    }
}

/// Application: a native function consumes the evaluated arguments; a closure
/// gets one fresh child of its captured scope with the parameters bound
/// positionally, and its body is evaluated there; anything else is an illegal
/// function call.
pub open spec fn spec_apply(em: Seq<ScopeV>, f: SexpV, args: Seq<SexpV>, fuel: nat) -> (
    Seq<ScopeV>,
    Result<SexpV, Seq<char>>,
)
    decreases fuel, 1int, 0int,
{
    if fuel == 0 {
        (em, Err(depth_msg()))
    } else {
        match f {
            SexpV::BuiltInFunc(b) => (em, spec_builtin(b, args)),
            SexpV::UserFunc { params, body, env } => {
                let child = em.len() as int;
                let em1 = em.push(
                    ScopeV { data: bind_params(params, args), enclosing: Some(env) },
                );
                spec_eval(em1, child, *body, (fuel - 1) as nat)
            },
            _ => (em, Err(illegal_call_msg())),
        }
    }
}

/// A closed sequence stays closed when scopes are added.
pub proof fn lemma_args_closed_grows(s: Seq<SexpV>, n: int, m: int)
    requires
        args_closed(s, n),
        n <= m,
    ensures
        args_closed(s, m),
{
    assert forall|i: int| 0 <= i < s.len() implies sexp_closed(#[trigger] s[i], m) by {
        crate::sexp::lemma_closed_grows(s[i], n, m);
    }
}

/// One element of a well-formed, closed sequence is well formed and closed.
proof fn lemma_elem_wfc(v: Seq<Sexp>, i: int, n: int)
    requires
        crate::built_in::args_wf(views(v)),
        args_closed(views(v), n),
        0 <= i < v.len(),
    ensures
        sexp_wf(v[i].deep()),
        sexp_closed(v[i].deep(), n),
{
    lemma_views(v);
    assert(sexp_wf(views(v)[i]));
    assert(sexp_closed(views(v)[i], n));
}

fn unbound_error(s: &String) -> (r: String)
    ensures
        r@ == unbound_msg(s@),
{
    let r = "The variable ".to_owned().concat(s.as_str()).concat(" is unbound");
    proof {
        reveal_strlit("The variable ");
        reveal_strlit(" is unbound");
        assert(r@ =~= unbound_msg(s@));
    }
    r
}

fn not_a_name_error(v: &Sexp) -> (r: String)
    requires
        sexp_wf(v@),
    ensures
        r@ == not_a_name_msg(v@),
{
    let r = v.to_display().concat(" is not a legal info name");
    proof {
        reveal_strlit(" is not a legal info name");
        assert(r@ =~= not_a_name_msg(v@));
    }
    r
}

fn depth_error() -> (r: String)
    ensures
        r@ == depth_msg(),
{
    let r = "Evaluation depth exceeded".to_owned();
    proof {
        reveal_strlit("Evaluation depth exceeded");
    }
    r
}

impl Sexp {
    /// Evaluates this value against the chain, in the given scope, with `fuel`
    /// bounding the nesting depth of evaluation.
    pub fn eval(&self, env: &mut Env, scope: usize, fuel: u64) -> (r: SexpResult)
        requires
            env_wf(old(env)@),
            scope < old(env)@.len(),
            sexp_wf(self@),
            sexp_closed(self@, old(env)@.len() as int),
        ensures
            env_wf(final(env)@),
            old(env)@.len() <= final(env)@.len(),
            (final(env)@, res_view(r)) == spec_eval(
                old(env)@,
                scope as int,
                self@,
                fuel as nat,
            ),
            r matches Ok(val) ==> sexp_wf(val@) && sexp_closed(val@, final(env)@.len() as int),
        decreases fuel, 4int, 0int,
    {
        if fuel == 0 {
            return Err(depth_error());
        }
        match self {
            Sexp::Symbol(s) => {
                match env_get(env, scope, s) {
                    Some(value) => {
                        proof {
                            crate::env::lemma_lookup_wf(env@, scope as int, s@);
                        }
                        Ok(value)
                    }
                    None => Err(unbound_error(s)),
                }
            }
            Sexp::List(v) => {
                proof {
                    lemma_views(v@);
                    crate::sexp::lemma_wf_list_elems(views(v@));
                    crate::sexp::lemma_closed_list_elems(views(v@), old(env)@.len() as int);
                }
                if v.len() == 0 {
                    return Ok(Sexp::Nil);
                }
                match process_special_form(v, env, scope, fuel) {
                    Some(res) => res,
                    None => {
                        let mut vals = match eval_elems(v, 0, env, scope, fuel) {
                            Ok(vals) => vals,
                            Err(msg) => {
                                return Err(msg);
                            }
                        };
                        let ghost valsv = views(vals@);
                        let f = vals.remove(0);
                        proof {
                            lemma_views(vals@);
                            assert(views(vals@) =~= valsv.drop_first());
                            assert(f@ == valsv[0]);
                        }
                        f.apply(vals, env, fuel)
                    }
                }
            }
            _ => Ok(self.duplicate()),
        }
    }

    /// Applies this value to evaluated arguments: a native function computes
    /// directly; a closure gets a fresh child of its captured scope with the
    /// parameters bound positionally (pairing stops at the shorter sequence),
    /// and its body is evaluated there; anything else is an illegal call.
    pub fn apply(&self, args: Vec<Sexp>, env: &mut Env, fuel: u64) -> (r: SexpResult)
        requires
            fuel >= 1,
            env_wf(old(env)@),
            sexp_wf(self@),
            sexp_closed(self@, old(env)@.len() as int),
            crate::built_in::args_wf(views(args@)),
            args_closed(views(args@), old(env)@.len() as int),
        ensures
            env_wf(final(env)@),
            old(env)@.len() <= final(env)@.len(),
            (final(env)@, res_view(r)) == spec_apply(
                old(env)@,
                self@,
                views(args@),
                fuel as nat,
            ),
            r matches Ok(val) ==> sexp_wf(val@) && sexp_closed(val@, final(env)@.len() as int),
        decreases fuel, 1int, 0int,
    {
        match self {
            Sexp::BuiltInFunc(b) => {
                proof {
                    crate::built_in::lemma_builtin_shape(*b, views(args@));
                }
                crate::built_in::apply_builtin(*b, args)
            }
            Sexp::UserFunc(d) => {
                let ghost em_base = old(env)@;
                let ghost paramsv = self@->UserFunc_params;
                let ghost argsv = views(args@);
                let child = env_new(env, Some(d.env));
                let m: usize = if d.params.len() <= args.len() {
                    d.params.len()
                } else {
                    args.len()
                };
                proof {
                    assert(env@ =~= em_base.push(
                        ScopeV {
                            data: bind_upto(paramsv, argsv, 0),
                            enclosing: Some(d.env as int),
                        },
                    ));
                }
                let mut k: usize = 0;
                while k < m
                    invariant
                        k <= m,
                        m == (if d.params@.len() <= args@.len() {
                            d.params@.len()
                        } else {
                            args@.len()
                        }),
                        child == em_base.len(),
                        child < env@.len(),
                        env_wf(env@),
                        paramsv == self@->UserFunc_params,
                        self@ matches SexpV::UserFunc { .. },
                        sexp_wf(self@),
                        paramsv.len() == d.params@.len(),
                        forall|j: int|
                            0 <= j < d.params@.len() ==> paramsv[j] == d.params@[j]@,
                        argsv == views(args@),
                        crate::built_in::args_wf(argsv),
                        args_closed(argsv, em_base.len() as int),
                        env@ == em_base.push(
                            ScopeV {
                                data: bind_upto(paramsv, argsv, k as int),
                                enclosing: Some(d.env as int),
                            },
                        ),
                    decreases m - k,
                {
                    proof {
                        lemma_views(args@);
                        assert(argsv[k as int] == args@[k as int].deep());
                        crate::sexp::lemma_closed_grows(
                            argsv[k as int],
                            em_base.len() as int,
                            env@.len() as int,
                        );
                    }
                    let value = args[k].duplicate();
                    env_set(env, child, d.params[k].clone(), value);
                    proof {
                        assert(env@ =~= em_base.push(
                            ScopeV {
                                data: bind_upto(paramsv, argsv, k as int + 1),
                                enclosing: Some(d.env as int),
                            },
                        ));
                    }
                    k += 1;
                }
                proof {
                    lemma_views(args@);
                    assert(argsv.len() == args@.len());
                    assert(bind_upto(paramsv, argsv, m as int) == bind_params(paramsv, argsv));
                    crate::sexp::lemma_closed_grows(
                        self@,
                        em_base.len() as int,
                        env@.len() as int,
                    );
                }
                d.body.eval(env, child, fuel - 1)
            }
            _ => {
                let r = "Illegal function call".to_owned();
                proof {
                    reveal_strlit("Illegal function call");
                }
                Err(r)
            }
        }
    }
}

/// Evaluates the elements from index `i` on, left to right; the first failure
/// aborts the rest.
fn eval_elems(v: &Vec<Sexp>, i: usize, env: &mut Env, scope: usize, fuel: u64) -> (r: Result<
    Vec<Sexp>,
    String,
>)
    requires
        fuel >= 1,
        env_wf(old(env)@),
        scope < old(env)@.len(),
        i <= v@.len(),
        crate::built_in::args_wf(views(v@)),
        args_closed(views(v@), old(env)@.len() as int),
    ensures
        env_wf(final(env)@),
        old(env)@.len() <= final(env)@.len(),
        ({
            let (em2, rr) = spec_eval_elems(
                old(env)@,
                scope as int,
                views(v@),
                i as int,
                fuel as nat,
            );
            final(env)@ == em2 && rr == (match r {
                Ok(vs) => Ok::<Seq<SexpV>, Seq<char>>(views(vs@)),
                Err(e) => Err(e@),
            })
        }),
        r matches Ok(vs) ==> vs@.len() == v@.len() - i && crate::built_in::args_wf(views(vs@))
            && args_closed(views(vs@), final(env)@.len() as int),
    decreases fuel, 2int, (v@.len() - i),
{
    proof {
        lemma_views(v@);
    }
    if i >= v.len() {
        let empty: Vec<Sexp> = Vec::new();
        proof {
            assert(views(empty@) =~= Seq::<SexpV>::empty());
        }
        return Ok(empty);
    }
    proof {
        lemma_elem_wfc(v@, i as int, old(env)@.len() as int);
    }
    let head = match v[i].eval(env, scope, fuel - 1) {
        Ok(h) => h,
        Err(msg) => {
            return Err(msg);
        }
    };
    let ghost em1 = env@;
    proof {
        lemma_args_closed_grows(views(v@), old(env)@.len() as int, env@.len() as int);
    }
    let mut rest = match eval_elems(v, i + 1, env, scope, fuel) {
        Ok(vs) => vs,
        Err(msg) => {
            return Err(msg);
        }
    };
    let ghost old_rest = rest@;
    let ghost restv = views(old_rest);
    rest.insert(0, head);
    proof {
        lemma_views(rest@);
        lemma_views(old_rest);
        assert(views(rest@) =~= seq![head@] + restv);
        crate::sexp::lemma_closed_grows(head@, em1.len() as int, env@.len() as int);
    }
    Ok(rest)
}

/// Checks whether the head names a special form and, if so, runs it on the
/// raw, unevaluated items; otherwise leaves the list to ordinary application.
fn process_special_form(v: &Vec<Sexp>, env: &mut Env, scope: usize, fuel: u64) -> (r: Option<
    SexpResult,
>)
    requires
        fuel >= 1,
        env_wf(old(env)@),
        scope < old(env)@.len(),
        v@.len() >= 1,
        crate::built_in::args_wf(views(v@)),
        args_closed(views(v@), old(env)@.len() as int),
    ensures
        match r {
            Some(res) => is_special_name(views(v@)[0]) && env_wf(final(env)@) && old(
                env,
            )@.len() <= final(env)@.len() && (final(env)@, res_view(res)) == spec_special(
                old(env)@,
                scope as int,
                views(v@),
                fuel as nat,
            ) && (res matches Ok(val) ==> sexp_wf(val@) && sexp_closed(
                val@,
                final(env)@.len() as int,
            )),
            None => !is_special_name(views(v@)[0]) && final(env)@ == old(env)@,
        },
    decreases fuel, 3int, 0int,
{
    proof {
        lemma_views(v@);
    }
    match &v[0] {
        Sexp::Symbol(s) => {
            if *s == "defparameter".to_owned() {
                Some(defparameter(v, env, scope, fuel))
            } else if *s == "defun".to_owned() {
                Some(defun(v, env, scope))
            } else if *s == "if".to_owned() {
                Some(if_special_form(v, env, scope, fuel))
            } else if *s == "quote".to_owned() {
                if v.len() < 2 {
                    Some(Err(crate::built_in::arity_error(v.len() - 1)))
                } else {
                    proof {
                        lemma_elem_wfc(v@, 1, old(env)@.len() as int);
                    }
                    Some(Ok(v[1].duplicate()))
                }
            } else {
                None
            }
        }
        _ => None,
    }
}

/// `(defparameter name expr)`: demands a literal symbol, evaluates the
/// expression, binds the result in the current scope and returns the name.
fn defparameter(v: &Vec<Sexp>, env: &mut Env, scope: usize, fuel: u64) -> (r: SexpResult)
    requires
        fuel >= 1,
        env_wf(old(env)@),
        scope < old(env)@.len(),
        v@.len() >= 1,
        crate::built_in::args_wf(views(v@)),
        args_closed(views(v@), old(env)@.len() as int),
    ensures
        env_wf(final(env)@),
        old(env)@.len() <= final(env)@.len(),
        (final(env)@, res_view(r)) == spec_defparameter(
            old(env)@,
            scope as int,
            views(v@),
            fuel as nat,
        ),
        r matches Ok(val) ==> sexp_wf(val@) && sexp_closed(val@, final(env)@.len() as int),
    decreases fuel, 2int, 0int,
{
    proof {
        lemma_views(v@);
    }
    if v.len() < 3 {
        return Err(crate::built_in::arity_error(v.len() - 1));
    }
    proof {
        lemma_elem_wfc(v@, 1, old(env)@.len() as int);
        lemma_elem_wfc(v@, 2, old(env)@.len() as int);
    }
    let name: String = match &v[1] {
        Sexp::Symbol(s) => s.clone(),
        _ => {
            return Err(not_a_name_error(&v[1]));
        }
    };
    let value = match v[2].eval(env, scope, fuel - 1) {
        Ok(val) => val,
        Err(msg) => {
            return Err(msg);
        }
    };
    let ghost em1 = env@;
    env_set(env, scope, name.clone(), value);
    proof {
        assert(env@ =~= env_after_set(em1, scope as int, name@, value@));
    }
    Ok(Sexp::Symbol(name))
}

/// `(defun name (p1 ...) body)`: demands a symbol and a list of symbols, binds
/// the name to a closure over the current scope, and returns the name.
fn defun(v: &Vec<Sexp>, env: &mut Env, scope: usize) -> (r: SexpResult)
    requires
        env_wf(old(env)@),
        scope < old(env)@.len(),
        v@.len() >= 1,
        crate::built_in::args_wf(views(v@)),
        args_closed(views(v@), old(env)@.len() as int),
    ensures
        env_wf(final(env)@),
        old(env)@.len() == final(env)@.len(),
        (final(env)@, res_view(r)) == spec_defun(old(env)@, scope as int, views(v@)),
        r matches Ok(val) ==> sexp_wf(val@) && sexp_closed(val@, final(env)@.len() as int),
{
    proof {
        lemma_views(v@);
    }
    if v.len() < 4 {
        return Err(crate::built_in::arity_error(v.len() - 1));
    }
    proof {
        lemma_elem_wfc(v@, 1, old(env)@.len() as int);
        lemma_elem_wfc(v@, 2, old(env)@.len() as int);
        lemma_elem_wfc(v@, 3, old(env)@.len() as int);
    }
    let name: String = match &v[1] {
        Sexp::Symbol(s) => s.clone(),
        _ => {
            return Err(crate::built_in::arg_error(&v[1]));
        }
    };
    let params: Vec<String> = match &v[2] {
        Sexp::List(ps) => {
            proof {
                lemma_views(ps@);
                crate::sexp::lemma_wf_list_elems(views(ps@));
            }
            let mut out: Vec<String> = Vec::new();
            let mut k: usize = 0;
            while k < ps.len()
                invariant
                    k <= ps@.len(),
                    out@.len() == k,
                    env@ == old(env)@,
                    env_wf(env@),
                    scope < env@.len(),
                    v@.len() >= 4,
                    v@[2] == Sexp::List(*ps),
                    views(v@)[1] is Symbol,
                    views(v@).len() == v@.len(),
                    views(ps@).len() == ps@.len(),
                    sexp_wf(SexpV::List(views(ps@))),
                    forall|j: int| 0 <= j < k ==> (#[trigger] views(ps@)[j]) is Symbol,
                    forall|j: int| 0 <= j < k ==> out@[j]@ == views(ps@)[j]->Symbol_0,
                decreases ps@.len() - k,
            {
                proof {
                    lemma_views(ps@);
                }
                match &ps[k] {
                    Sexp::Symbol(s) => {
                        out.push(s.clone());
                    }
                    _ => {
                        proof {
                            lemma_first_non_symbol(views(ps@), k as int);
                            lemma_views(ps@);
                            lemma_views(v@);
                            crate::sexp::lemma_wf_list_elems(views(ps@));
                            assert(sexp_wf(views(ps@)[k as int]));
                            assert(views(v@)[2] == SexpV::List(views(ps@)));
                            assert(!all_symbols(views(ps@)));
                        }
                        return Err(crate::built_in::arg_error(&ps[k]));
                    }
                }
                k += 1;
            }
            out
        }
        _ => {
            return Err(crate::built_in::arg_error(&v[2]));
        }
    };
    let func = Sexp::UserFunc(crate::sexp::FuncData::new(params, v[3].duplicate(), scope));
    proof {
        let psv = views(v@)[2]->List_0;
        lemma_names_of(psv);
        assert(func@->UserFunc_params =~= names_of(psv));
        assert(func@ == (SexpV::UserFunc {
            params: names_of(psv),
            body: Box::new(views(v@)[3]),
            env: scope as int,
        }));
    }
    let ghost em0 = env@;
    env_set(env, scope, name.clone(), func);
    proof {
        assert(env@ =~= env_after_set(em0, scope as int, name@, func@));
    }
    Ok(Sexp::Symbol(name))
}

/// `(if cond then else)`: evaluates the condition; exactly `Nil` selects the
/// third operand, anything else the second; the branch not selected is never
/// evaluated, so an error hiding there never surfaces.
fn if_special_form(v: &Vec<Sexp>, env: &mut Env, scope: usize, fuel: u64) -> (r: SexpResult)
    requires
        fuel >= 1,
        env_wf(old(env)@),
        scope < old(env)@.len(),
        v@.len() >= 1,
        crate::built_in::args_wf(views(v@)),
        args_closed(views(v@), old(env)@.len() as int),
    ensures
        env_wf(final(env)@),
        old(env)@.len() <= final(env)@.len(),
        (final(env)@, res_view(r)) == spec_if(old(env)@, scope as int, views(v@), fuel as nat),
        r matches Ok(val) ==> sexp_wf(val@) && sexp_closed(val@, final(env)@.len() as int),
    decreases fuel, 2int, 0int,
{
    proof {
        lemma_views(v@);
    }
    if v.len() < 2 {
        return Err(crate::built_in::arity_error(v.len() - 1));
    }
    proof {
        lemma_elem_wfc(v@, 1, old(env)@.len() as int);
    }
    let c = match v[1].eval(env, scope, fuel - 1) {
        Ok(x) => x,
        Err(msg) => {
            return Err(msg);
        }
    };
    let idx: usize = match c {
        Sexp::Nil => 3,
        _ => 2,
    };
    if v.len() <= idx {
        return Err(crate::built_in::arity_error(v.len() - 1));
    }
    proof {
        lemma_args_closed_grows(views(v@), old(env)@.len() as int, env@.len() as int);
        lemma_elem_wfc(v@, idx as int, env@.len() as int);
    }
    v[idx].eval(env, scope, fuel - 1)
}

} // verus!
