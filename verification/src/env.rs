use crate::sexp::{sexp_closed, sexp_wf, Sexp, SexpV};
use vstd::prelude::*;

verus! {

/// One scope: bindings in insertion order (the last entry for a name wins),
/// plus the index of the enclosing scope, if any.
pub struct EnvData {
    pub data: Vec<(String, Sexp)>,
    pub enclosing: Option<usize>,
}

/// The shape of one scope: a name-to-value mapping and the enclosing index.
pub ghost struct ScopeV {
    pub data: Map<Seq<char>, SexpV>,
    pub enclosing: Option<int>,
}

/// The mapping an association list denotes: later entries override earlier ones.
pub open spec fn assoc_map(s: Seq<(String, Sexp)>) -> Map<Seq<char>, SexpV>
    decreases s.len(),
{
    if s.len() == 0 {
        Map::empty()
    } else {
        assoc_map(s.drop_last()).insert(s.last().0@, s.last().1.deep())
    }
}

impl View for EnvData {
    type V = ScopeV;

    open spec fn view(&self) -> ScopeV {
        ScopeV {
            data: assoc_map(self.data@),
            enclosing: match self.enclosing {
                Some(p) => Some(p as int),
                None => None,
            },
        }
    }
}

/// The chain of scopes. Scopes are never removed, so indices stay valid for
/// as long as the environment lives; closures hold such indices.
pub struct Env {
    pub scopes: Vec<EnvData>,
}

impl View for Env {
    type V = Seq<ScopeV>;

    open spec fn view(&self) -> Seq<ScopeV> {
        Seq::new(self.scopes@.len(), |i: int| self.scopes@[i]@)
    }
}

/// A scope is well formed within a chain of `n` scopes when its parent stands
/// strictly below it and every stored value is well formed and refers only to
/// existing scopes.
pub open spec fn scope_wf(s: ScopeV, i: int, n: int) -> bool {
    &&& match s.enclosing {
        Some(p) => 0 <= p < i,
        None => true,
    }
    &&& forall|k: Seq<char>|
        s.data.dom().contains(k) ==> sexp_wf(#[trigger] s.data[k]) && sexp_closed(s.data[k], n)
}

/// Every scope of the chain is well formed.
pub open spec fn env_wf(em: Seq<ScopeV>) -> bool {
    forall|i: int| 0 <= i < em.len() ==> scope_wf(#[trigger] em[i], i, em.len() as int)
}

/// What a mapping holds for a name, if anything.
pub open spec fn map_find(m: Map<Seq<char>, SexpV>, name: Seq<char>) -> Option<SexpV> {
    if m.dom().contains(name) {
        Some(m[name])
    } else {
        None
    }
}

/// Resolution of a name: search the scope, then its ancestors, innermost
/// first; absence in the whole chain is `None`.
pub open spec fn lookup(em: Seq<ScopeV>, scope: int, name: Seq<char>) -> Option<SexpV>
    decreases scope,
{
    if 0 <= scope < em.len() {
        if em[scope].data.dom().contains(name) {
            Some(em[scope].data[name])
        } else {
            match em[scope].enclosing {
                Some(p) => if 0 <= p < scope {
                    lookup(em, p, name)
                } else {
                    None
                },
                None => None,
            }
        }
    } else {
        None
    }
}

/// In a well-formed chain, whatever resolution returns is well formed.
pub proof fn lemma_lookup_wf(em: Seq<ScopeV>, scope: int, name: Seq<char>)
    requires
        env_wf(em),
        lookup(em, scope, name) is Some,
    ensures
        sexp_wf(lookup(em, scope, name).unwrap()),
        sexp_closed(lookup(em, scope, name).unwrap(), em.len() as int),
    decreases scope,
{
    if 0 <= scope < em.len() {
        if em[scope].data.dom().contains(name) {
        } else {
            match em[scope].enclosing {
                Some(p) => {
                    if 0 <= p < scope {
                        lemma_lookup_wf(em, p, name);
                    }
                }
                None => {}
            }
        }
    }
}

/// Resolution reads only the scopes at or below the starting one, so two
/// chains that agree up to that point resolve alike.
pub proof fn lemma_lookup_prefix(em1: Seq<ScopeV>, em2: Seq<ScopeV>, scope: int, name: Seq<char>)
    requires
        0 <= scope < em1.len(),
        scope < em2.len(),
        forall|j: int| 0 <= j <= scope ==> em1[j] == em2[j],
    ensures
        lookup(em1, scope, name) == lookup(em2, scope, name),
    decreases scope,
{
    if !em1[scope].data.dom().contains(name) {
        match em1[scope].enclosing {
            Some(p) => {
                if 0 <= p < scope {
                    lemma_lookup_prefix(em1, em2, p, name);
                }
            }
            None => {}
        }
    }
}

/// Creates an empty scope, optionally chained to an existing one, and returns
/// its index.
pub fn env_new(env: &mut Env, enclosing: Option<usize>) -> (idx: usize)
    requires
        match enclosing {
            Some(p) => p < old(env)@.len(),
            None => true,
        },
    ensures
        idx == old(env)@.len(),
        final(env)@ == old(env)@.push(
            ScopeV {
                data: Map::empty(),
                enclosing: match enclosing {
                    Some(p) => Some(p as int),
                    None => None,
                },
            },
        ),
        env_wf(old(env)@) ==> env_wf(final(env)@),
{
    let idx = env.scopes.len();
    env.scopes.push(EnvData { data: Vec::new(), enclosing });
    proof {
        let s = ScopeV {
            data: Map::empty(),
            enclosing: match enclosing {
                Some(p) => Some(p as int),
                None => None,
            },
        };
        assert(env.scopes@.last()@.data =~= s.data);
        assert(env@ =~= old(env)@.push(s));
        if env_wf(old(env)@) {
            assert forall|i: int| 0 <= i < env@.len() implies scope_wf(
                #[trigger] env@[i],
                i,
                env@.len() as int,
            ) by {
                if i < old(env)@.len() {
                    assert(scope_wf(old(env)@[i], i, old(env)@.len() as int));
                    assert forall|k: Seq<char>| env@[i].data.dom().contains(k) implies sexp_wf(
                        #[trigger] env@[i].data[k],
                    ) && sexp_closed(env@[i].data[k], env@.len() as int) by {
                        crate::sexp::lemma_closed_grows(
                            env@[i].data[k],
                            old(env)@.len() as int,
                            env@.len() as int,
                        );
                    }
                }
            }
        }
    }
    idx
}

/// Binds `k` to `v` in the given scope itself, never in an ancestor;
/// re-binding in a child hides, but does not change, a parent's binding.
pub fn env_set(env: &mut Env, scope: usize, k: String, v: Sexp)
    requires
        scope < old(env)@.len(),
    ensures
        final(env)@.len() == old(env)@.len(),
        final(env)@[scope as int].data == old(env)@[scope as int].data.insert(k@, v@),
        final(env)@[scope as int].enclosing == old(env)@[scope as int].enclosing,
        forall|j: int| 0 <= j < final(env)@.len() && j != scope ==> final(env)@[j] == old(env)@[j],
        env_wf(old(env)@) && sexp_wf(v@) && sexp_closed(v@, old(env)@.len() as int) ==> env_wf(
            final(env)@,
        ),
{
    let ghost old_env = *env;
    env.scopes[scope].data.push((k, v));
    proof {
        let sc = scope as int;
        let olds = old_env.scopes@[sc].data@;
        assert(env.scopes@[sc].data@.drop_last() =~= olds);
        assert(env@[sc].data =~= old_env@[sc].data.insert(k@, v@));
        assert forall|j: int| 0 <= j < env@.len() && j != sc implies env@[j] == old_env@[j] by {}
        if env_wf(old_env@) && sexp_wf(v@) && sexp_closed(v@, old_env@.len() as int) {
            assert forall|i: int| 0 <= i < env@.len() implies scope_wf(
                #[trigger] env@[i],
                i,
                env@.len() as int,
            ) by {
                assert(scope_wf(old_env@[i], i, old_env@.len() as int));
                if i == sc {
                    assert forall|key: Seq<char>|
                        env@[i].data.dom().contains(key) implies sexp_wf(
                        #[trigger] env@[i].data[key],
                    ) && sexp_closed(env@[i].data[key], env@.len() as int) by {
                        if key != k@ {
                            assert(old_env@[i].data.dom().contains(key));
                        }
                    }
                }
            }
        }
    }
}

/// Looks `k` up in the given scope; on a miss the enclosing scopes are
/// searched in turn, and exhaustion of the chain yields `None`.
pub fn env_get(env: &Env, scope: usize, k: &String) -> (r: Option<Sexp>)
    requires
        env_wf(env@),
        scope < env@.len(),
    ensures
        lookup(env@, scope as int, k@) == match r {
            Some(v) => Some(v@),
            None => None::<SexpV>,
        },
{
    let mut cur = scope;
    loop
        invariant
            env_wf(env@),
            cur < env@.len(),
            lookup(env@, scope as int, k@) == lookup(env@, cur as int, k@),
        decreases cur,
    {
        let sc: &EnvData = &env.scopes[cur];
        let mut j = sc.data.len();
        proof {
            assert(sc.data@.subrange(0, j as int) =~= sc.data@);
        }
        while j > 0
            invariant
                j <= sc.data@.len(),
                cur < env@.len(),
                *sc == env.scopes@[cur as int],
                lookup(env@, scope as int, k@) == lookup(env@, cur as int, k@),
                map_find(assoc_map(sc.data@), k@) == map_find(
                    assoc_map(sc.data@.subrange(0, j as int)),
                    k@,
                ),
            decreases j,
        {
            j -= 1;
            proof {
                let s1 = sc.data@.subrange(0, j + 1);
                assert(s1.drop_last() =~= sc.data@.subrange(0, j as int));
                assert(s1.last() == sc.data@[j as int]);
            }
            let entry: &(String, Sexp) = &sc.data[j];
            if entry.0 == *k {
                let value = entry.1.duplicate();
                proof {
                    assert(sc@ == env@[cur as int]);
                }
                return Some(value);
            }
        }
        proof {
            assert(sc.data@.subrange(0, 0) =~= Seq::<(String, Sexp)>::empty());
            assert(map_find(assoc_map(sc.data@), k@) is None);
            assert(sc@ == env@[cur as int]);
            assert(!env@[cur as int].data.dom().contains(k@));
        }
        match sc.enclosing {
            Some(p) => {
                cur = p;
            }
            None => {
                return None;
            }
        }
    }
}

} // verus!
