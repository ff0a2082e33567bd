//! What inference can change: the variables of the environment and new ones.

use crate::fun::check::infer_state;
use crate::fun::check::infer_state::St;
use crate::fun::check::scheme;
use crate::fun::check::scheme::{Bind, Sch};
use crate::fun::check::unify;
use crate::fun::term::Tm;
use crate::fun::ty;
use crate::fun::ty::Ty;
use crate::name;
use crate::name::Str;
use vstd::prelude::*;

verus! {

/// The generated variables with a number in the range.
pub open spec fn made(a: nat, b: nat) -> Set<Str> {
    Set::new(|x: Str| exists|k: nat| a <= k < b && x == #[trigger] name::base26(k))
}

/// The variables that a variable outside a scheme's binder stands for.
pub open spec fn loose(env: Map<Str, Sch>, sub: Map<Str, Ty>) -> Set<Str> {
    Set::new(
        |w: Str|
            exists|x: Str, v: Str|
                #![trigger env.contains_key(x), ty::fv(ty::image(sub, v)).contains(w)]
                env.contains_key(x) && ty::fv(env[x].typ).contains(v) && !env[x].vars.contains(v)
                    && ty::fv(ty::image(sub, v)).contains(w),
    )
}

/// Every variable was generated, and those that the schemes bind are used for
/// nothing else.
pub open spec fn clean(env: Map<Str, Sch>, st: St) -> bool {
    &&& unify::idempotent(st.sub)
    &&& forall|x: Str| #[trigger] st.sub.contains_key(x) ==> made(0, st.next).contains(x)
    &&& forall|x: Str, v: Str|
        #![trigger st.sub.contains_key(x), ty::fv(st.sub[x]).contains(v)]
        st.sub.contains_key(x) && ty::fv(st.sub[x]).contains(v) ==> made(0, st.next).contains(v)
    &&& forall|x: Str, v: Str|
        #![trigger env.contains_key(x), ty::fv(env[x].typ).contains(v)]
        env.contains_key(x) && ty::fv(env[x].typ).contains(v) ==> made(0, st.next).contains(v)
    &&& forall|x: Str, v: Str|
        #![trigger env.contains_key(x), env[x].vars.contains(v)]
        env.contains_key(x) && env[x].vars.contains(v) ==> {
            &&& made(0, st.next).contains(v)
            &&& !st.sub.contains_key(v)
            &&& !loose(env, st.sub).contains(v)
        }
}

/// The variables that inference in an environment may meet: those of the
/// environment and those made since.
pub open spec fn near(env: Map<Str, Sch>, st: St, next: nat) -> Set<Str> {
    loose(env, st.sub).union(made(st.next, next))
}

/// A state that inference in an environment may come to.
pub open spec fn step(env: Map<Str, Sch>, st0: St, st: St) -> bool {
    st0.next <= st.next && unify::grows(st.sub, st0.sub, near(env, st0, st.next))
}

/// A type that inference in an environment may come to.
pub open spec fn within(t: Ty, env: Map<Str, Sch>, st0: St, next: nat) -> bool {
    ty::fv(t).subset_of(near(env, st0, next))
}

pub proof fn lemma_made(a: nat, b: nat, k: nat)
    ensures
        made(a, b).contains(name::base26(k)) <==> a <= k < b,
{
    if made(a, b).contains(name::base26(k)) {
        let j = choose|j: nat| a <= j < b && name::base26(k) == #[trigger] name::base26(j);
        if j != k {
            name::lemma_base26_injective(j, k);
        }
    }
}

pub proof fn lemma_made_split(a: nat, b: nat, c: nat, x: Str)
    requires
        a <= b <= c,
    ensures
        made(a, c).contains(x) <==> made(a, b).contains(x) || made(b, c).contains(x),
        made(a, b).contains(x) ==> !made(b, c).contains(x),
{
    if made(a, c).contains(x) {
        let k = choose|k: nat| a <= k < c && x == #[trigger] name::base26(k);
        lemma_made(a, b, k);
        lemma_made(b, c, k);
    }
    if made(a, b).contains(x) {
        let k = choose|k: nat| a <= k < b && x == #[trigger] name::base26(k);
        lemma_made(a, c, k);
        lemma_made(b, c, k);
    }
    if made(b, c).contains(x) {
        let k = choose|k: nat| b <= k < c && x == #[trigger] name::base26(k);
        lemma_made(a, c, k);
    }
}

/// A variable that inference may meet was not replaced, and was generated.
pub proof fn lemma_near(env: Map<Str, Sch>, st: St, next: nat, x: Str)
    requires
        clean(env, st),
        st.next <= next,
        near(env, st, next).contains(x),
    ensures
        !st.sub.contains_key(x),
        made(0, next).contains(x),
        loose(env, st.sub).contains(x) ==> made(0, st.next).contains(x),
{
    lemma_made_split(0, st.next, next, x);
    if loose(env, st.sub).contains(x) {
        let (y, v) = choose|y: Str, v: Str|
            #![trigger env.contains_key(y), ty::fv(ty::image(st.sub, v)).contains(x)]
            env.contains_key(y) && ty::fv(env[y].typ).contains(v) && !env[y].vars.contains(v)
                && ty::fv(ty::image(st.sub, v)).contains(x);
        assert(made(0, st.next).contains(v));
        if st.sub.contains_key(v) {
            assert(ty::fv(st.sub[v]).contains(x));
        } else {
            assert(x == v);
        }
    } else {
        if st.sub.contains_key(x) {
            assert(made(0, st.next).contains(x));
        }
    }
}

/// What variables stand for after inference went on.
pub proof fn lemma_loose_step(env: Map<Str, Sch>, st0: St, st: St, x: Str)
    requires
        clean(env, st0),
        step(env, st0, st),
        loose(env, st.sub).contains(x),
    ensures
        near(env, st0, st.next).contains(x),
{
    let (y, v) = choose|y: Str, v: Str|
        #![trigger env.contains_key(y), ty::fv(ty::image(st.sub, v)).contains(x)]
        env.contains_key(y) && ty::fv(env[y].typ).contains(v) && !env[y].vars.contains(v) && ty::fv(
            ty::image(st.sub, v),
        ).contains(x);
    unify::lemma_grows_apply(st.sub, st0.sub, near(env, st0, st.next), ty::ty_var(v));
    assert(ty::apply(ty::ty_var(v), st.sub) == ty::image(st.sub, v));
    assert(ty::apply(ty::ty_var(v), st0.sub) == ty::image(st0.sub, v));
    if !near(env, st0, st.next).contains(x) {
        assert(ty::fv(ty::image(st0.sub, v)).contains(x));
        assert(env.contains_key(y));
        assert(loose(env, st0.sub).contains(x));
    }
}

/// Inference keeps the environment clean.
pub proof fn lemma_step_clean(env: Map<Str, Sch>, st0: St, st: St)
    requires
        clean(env, st0),
        step(env, st0, st),
    ensures
        clean(env, st),
{
    let vs = near(env, st0, st.next);
    assert forall|x: Str| made(0, st0.next).contains(x) implies #[trigger] made(0, st.next).contains(x) by {
        lemma_made_split(0, st0.next, st.next, x);
    }
    assert forall|x: Str| #[trigger] st.sub.contains_key(x) implies made(0, st.next).contains(x) by {
        if !st0.sub.contains_key(x) {
            lemma_near(env, st0, st.next, x);
        } else {
            assert(made(0, st0.next).contains(x));
        }
    }
    assert forall|x: Str, v: Str|
        #![trigger st.sub.contains_key(x), ty::fv(st.sub[x]).contains(v)]
        st.sub.contains_key(x) && ty::fv(st.sub[x]).contains(v) implies made(0, st.next).contains(v) by {
        if st0.sub.contains_key(x) {
            unify::lemma_grows_apply(st.sub, st0.sub, vs, ty::ty_var(x));
            assert(ty::apply(ty::ty_var(x), st.sub) == st.sub[x]);
            if vs.contains(v) {
                lemma_near(env, st0, st.next, v);
            } else {
                assert(ty::fv(st0.sub[x]).contains(v));
                assert(made(0, st0.next).contains(v));
            }
        } else {
            lemma_near(env, st0, st.next, v);
        }
    }
    assert forall|x: Str, v: Str|
        #![trigger env.contains_key(x), ty::fv(env[x].typ).contains(v)]
        env.contains_key(x) && ty::fv(env[x].typ).contains(v) implies made(0, st.next).contains(v) by {
        assert(made(0, st0.next).contains(v));
    }
    assert forall|x: Str, v: Str|
        #![trigger env.contains_key(x), env[x].vars.contains(v)]
        env.contains_key(x) && env[x].vars.contains(v) implies {
        &&& made(0, st.next).contains(v)
        &&& !st.sub.contains_key(v)
        &&& !loose(env, st.sub).contains(v)
    } by {
        assert(made(0, st0.next).contains(v));
        lemma_made_split(0, st0.next, st.next, v);
        assert(!vs.contains(v));
        if loose(env, st.sub).contains(v) {
            lemma_loose_step(env, st0, st, v);
        }
    }
}

/// The variables of a clean environment are those that its schemes do not bind.
pub proof fn lemma_env_fv(env: Map<Str, Sch>, st: St)
    requires
        clean(env, st),
    ensures
        infer_state::env_fv(env, st.sub) == loose(env, st.sub),
        forall|x: Str| #[trigger] env.contains_key(x) ==> infer_state::unbound(env[x], st.sub),
{
    assert forall|x: Str| #[trigger] env.contains_key(x) implies infer_state::unbound(env[x], st.sub) by {
        assert forall|v: Str| env[x].vars.to_set().contains(v) implies !st.sub.dom().contains(v) by {
            assert(env[x].vars.contains(v));
        }
        assert(env[x].vars.to_set().disjoint(st.sub.dom()));
    }
    assert forall|w: Str| infer_state::env_fv(env, st.sub).contains(w) <==> loose(env, st.sub).contains(w) by {
        if infer_state::env_fv(env, st.sub).contains(w) {
            let x = choose|x: Str| #[trigger]
                env.contains_key(x) && infer_state::scheme_fv(env[x], st.sub).contains(w);
            ty::lemma_apply_fv(env[x].typ, st.sub, w);
            let v = choose|v: Str| #[trigger]
                ty::fv(env[x].typ).contains(v) && ty::fv(ty::image(st.sub, v)).contains(w);
            if env[x].vars.contains(v) {
                assert(!st.sub.contains_key(v));
                assert(w == v);
                assert(env[x].vars.to_set().contains(w));
            }
            assert(env.contains_key(x));
        }
        if loose(env, st.sub).contains(w) {
            let (x, v) = choose|x: Str, v: Str|
                #![trigger env.contains_key(x), ty::fv(ty::image(st.sub, v)).contains(w)]
                env.contains_key(x) && ty::fv(env[x].typ).contains(v) && !env[x].vars.contains(v)
                    && ty::fv(ty::image(st.sub, v)).contains(w);
            ty::lemma_apply_fv(env[x].typ, st.sub, w);
            assert(ty::fv(ty::apply(env[x].typ, st.sub)).contains(w));
            if env[x].vars.contains(w) {
                assert(env.contains_key(x));
            }
            assert(infer_state::scheme_fv(env[x], st.sub).contains(w));
        }
    }
    assert(infer_state::env_fv(env, st.sub) =~= loose(env, st.sub));
}

/* Steps */

pub proof fn lemma_step_refl(env: Map<Str, Sch>, st: St)
    requires
        clean(env, st),
    ensures
        step(env, st, st),
{
    unify::lemma_grows_refl(st.sub, near(env, st, st.next));
}

/// New variables may be made.
pub proof fn lemma_step_fresh(env: Map<Str, Sch>, st0: St, st: St, n: nat)
    requires
        step(env, st0, st),
    ensures
        step(env, st0, St { sub: st.sub, next: st.next + n }),
        forall|t: Ty| #[trigger]
            within(t, env, st0, st.next) ==> within(t, env, st0, st.next + n),
        forall|k: nat|
            st.next <= k < st.next + n ==> within(
                ty::ty_var(#[trigger] name::base26(k)),
                env,
                st0,
                st.next + n,
            ),
{
    let (a, b) = (near(env, st0, st.next), near(env, st0, st.next + n));
    lemma_near_more(env, st0, st.next, st.next + n);
    unify::lemma_grows_more(st.sub, st0.sub, a, b);
    assert forall|k: nat| st.next <= k < st.next + n implies within(
        ty::ty_var(#[trigger] name::base26(k)),
        env,
        st0,
        st.next + n,
    ) by {
        lemma_made(st0.next, st.next + n, k);
    }
}

pub proof fn lemma_near_more(env: Map<Str, Sch>, st0: St, m: nat, n: nat)
    requires
        st0.next <= m <= n,
    ensures
        near(env, st0, m).subset_of(near(env, st0, n)),
{
    assert forall|x: Str| near(env, st0, m).contains(x) implies near(env, st0, n).contains(x) by {
        lemma_made_split(st0.next, m, n, x);
    }
}

/// A type under the substitution.
pub proof fn lemma_within_apply(env: Map<Str, Sch>, st0: St, st: St, t: Ty)
    requires
        clean(env, st0),
        step(env, st0, st),
        within(t, env, st0, st.next),
    ensures
        within(ty::apply(t, st.sub), env, st0, st.next),
{
    let vs = near(env, st0, st.next);
    assert forall|v: Str| #[trigger] vs.contains(v) implies !st0.sub.contains_key(v) by {
        lemma_near(env, st0, st.next, v);
    }
    unify::lemma_grows_within(st0.sub, st.sub, t, vs);
}

/// Unification is a step.
pub proof fn lemma_step_unify(env: Map<Str, Sch>, st0: St, st: St, t1: Ty, t2: Ty, ctx: Tm)
    requires
        clean(env, st0),
        step(env, st0, st),
        within(t1, env, st0, st.next),
        within(t2, env, st0, st.next),
    ensures
        match infer_state::unify_in(st, t1, t2, ctx) {
            Ok((t, st1)) => {
                &&& step(env, st0, st1)
                &&& st1.next == st.next
                &&& within(t, env, st0, st1.next)
                &&& ty::apply(t, st1.sub) == t
            },
            Err(_) => true,
        },
{
    let vs = near(env, st0, st.next);
    lemma_within_apply(env, st0, st, t1);
    lemma_within_apply(env, st0, st, t2);
    unify::lemma_unify(st.sub, t1, t2);
    if let Ok((t, st1)) = infer_state::unify_in(st, t1, t2, ctx) {
        let ws = unify::vars(st.sub, t1, t2);
        unify::lemma_grows_trans(st1.sub, st.sub, st0.sub, vs, ws);
    }
}

/// Inference in a larger environment is a step.
pub proof fn lemma_step_inner(
    env: Map<Str, Sch>,
    st0: St,
    st: St,
    inner: Map<Str, Sch>,
    st1: St,
    t: Ty,
)
    requires
        clean(env, st0),
        step(env, st0, st),
        step(inner, st, st1),
        loose(inner, st.sub).subset_of(near(env, st0, st.next)),
        within(t, inner, st, st1.next),
    ensures
        step(env, st0, st1),
        within(t, env, st0, st1.next),
{
    let vs = near(env, st0, st1.next);
    let ws = near(inner, st, st1.next);
    lemma_near_more(env, st0, st.next, st1.next);
    assert forall|x: Str| #[trigger] ws.contains(x) implies vs.contains(x) by {
        if loose(inner, st.sub).contains(x) {
            assert(near(env, st0, st.next).contains(x));
        } else {
            lemma_made_split(st0.next, st.next, st1.next, x);
        }
    }
    unify::lemma_grows_more(st.sub, st0.sub, near(env, st0, st.next), vs);
    unify::lemma_grows_trans(st1.sub, st.sub, st0.sub, vs, ws);
}

/* Environments with more bindings */

/// A scheme that may be bound in an environment.
pub open spec fn bindable(sch: Sch, env: Map<Str, Sch>, st0: St, st: St) -> bool {
    &&& forall|v: Str| #[trigger] ty::fv(sch.typ).contains(v) ==> made(0, st.next).contains(v)
    &&& forall|v: Str| #[trigger]
        ty::fv(sch.typ).contains(v) && !sch.vars.contains(v) ==> near(env, st0, st.next).contains(v)
    &&& forall|v: Str| #[trigger]
        sch.vars.contains(v) ==> {
            &&& made(0, st.next).contains(v)
            &&& !st.sub.contains_key(v)
            &&& !near(env, st0, st.next).contains(v)
        }
}

/// Where a scheme of the inner environment comes from.
proof fn lemma_bound_from(env: Map<Str, Sch>, bs: Seq<Bind>, x: Str)
    requires
        scheme::bind_all(env, bs).contains_key(x),
    ensures
        ({
            let inner = scheme::bind_all(env, bs);
            ||| env.contains_key(x) && inner[x] == env[x]
            ||| exists|i: int| 0 <= i < bs.len() && inner[x] == (#[trigger] bs[i]).1
        }),
    decreases bs.len(),
{
    if bs.len() > 0 {
        let b0 = bs.drop_last();
        let e = scheme::bind_all(env, b0);
        let inner = scheme::bind_all(env, bs);
        if bs.last().0 == Some(x) {
            assert(inner[x] == bs[bs.len() - 1].1);
        } else {
            assert(e.contains_key(x) && inner[x] == e[x]);
            lemma_bound_from(env, b0, x);
            if !(env.contains_key(x) && inner[x] == env[x]) {
                let i = choose|i: int| 0 <= i < b0.len() && e[x] == (#[trigger] b0[i]).1;
                assert(bs[i] == b0[i]);
            }
        }
    }
}

/// The environment with schemes bound that may be bound is clean.
pub proof fn lemma_bind_clean(env: Map<Str, Sch>, st0: St, st: St, bs: Seq<Bind>)
    requires
        clean(env, st0),
        step(env, st0, st),
        forall|i: int| 0 <= i < bs.len() ==> bindable((#[trigger] bs[i]).1, env, st0, st),
    ensures
        clean(scheme::bind_all(env, bs), st),
        loose(scheme::bind_all(env, bs), st.sub).subset_of(near(env, st0, st.next)),
{
    let inner = scheme::bind_all(env, bs);
    let vs = near(env, st0, st.next);
    lemma_step_clean(env, st0, st);
    assert forall|w: Str| loose(inner, st.sub).contains(w) implies vs.contains(w) by {
        let (x, v) = choose|x: Str, v: Str|
            #![trigger inner.contains_key(x), ty::fv(ty::image(st.sub, v)).contains(w)]
            inner.contains_key(x) && ty::fv(inner[x].typ).contains(v) && !inner[x].vars.contains(v)
                && ty::fv(ty::image(st.sub, v)).contains(w);
        lemma_bound_from(env, bs, x);
        if env.contains_key(x) && inner[x] == env[x] {
            assert(loose(env, st.sub).contains(w));
            lemma_loose_step(env, st0, st, w);
        } else {
            let i = choose|i: int| 0 <= i < bs.len() && inner[x] == (#[trigger] bs[i]).1;
            assert(bindable(bs[i].1, env, st0, st));
            assert(vs.contains(v));
            let t = ty::ty_var(v);
            assert(within(t, env, st0, st.next)) by {
                assert forall|y: Str| ty::fv(t).contains(y) implies vs.contains(y) by {
                    assert(y == v);
                }
            }
            lemma_within_apply(env, st0, st, t);
            assert(ty::apply(t, st.sub) == ty::image(st.sub, v));
        }
    }
    assert forall|x: Str, v: Str|
        #![trigger inner.contains_key(x), ty::fv(inner[x].typ).contains(v)]
        inner.contains_key(x) && ty::fv(inner[x].typ).contains(v) implies made(0, st.next).contains(v) by {
        lemma_bound_from(env, bs, x);
        if env.contains_key(x) && inner[x] == env[x] {
        } else {
            let i = choose|i: int| 0 <= i < bs.len() && inner[x] == (#[trigger] bs[i]).1;
            assert(bindable(bs[i].1, env, st0, st));
        }
    }
    assert forall|x: Str, v: Str|
        #![trigger inner.contains_key(x), inner[x].vars.contains(v)]
        inner.contains_key(x) && inner[x].vars.contains(v) implies {
        &&& made(0, st.next).contains(v)
        &&& !st.sub.contains_key(v)
        &&& !loose(inner, st.sub).contains(v)
    } by {
        lemma_bound_from(env, bs, x);
        if env.contains_key(x) && inner[x] == env[x] {
            assert(made(0, st0.next).contains(v));
            assert(!loose(env, st0.sub).contains(v));
            lemma_made_split(0, st0.next, st.next, v);
            assert(!vs.contains(v));
        } else {
            let i = choose|i: int| 0 <= i < bs.len() && inner[x] == (#[trigger] bs[i]).1;
            assert(bindable(bs[i].1, env, st0, st));
        }
    }
}

/// A type that inference may come to may be bound as it is.
pub proof fn lemma_mono_bindable(env: Map<Str, Sch>, st0: St, st: St, t: Ty)
    requires
        clean(env, st0),
        st0.next <= st.next,
        within(t, env, st0, st.next),
    ensures
        bindable(scheme::mono(t), env, st0, st),
{
    assert forall|v: Str| #[trigger] ty::fv(t).contains(v) implies made(0, st.next).contains(v) by {
        assert(near(env, st0, st.next).contains(v));
        lemma_near(env, st0, st.next, v);
    }
}

/// A generalized type may be bound.
pub proof fn lemma_generalized_bindable(env: Map<Str, Sch>, st: St, t: Ty)
    requires
        clean(env, st),
        forall|v: Str| #[trigger] ty::fv(ty::apply(t, st.sub)).contains(v) ==> made(0, st.next).contains(v),
    ensures
        bindable(infer_state::generalized(t, env, st.sub), env, st, st),
{
    let u = ty::apply(t, st.sub);
    let free = infer_state::env_fv(env, st.sub);
    lemma_env_fv(env, st);
    unify::lemma_idempotent_apply(st.sub, t);
    ty::lemma_fv_finite(u);
    let bound = ty::fv(u).difference(free);
    name::lemma_finite_in_order(bound);
    let sch = infer_state::generalized(t, env, st.sub);
    assert forall|v: Str| #[trigger] sch.vars.contains(v) <==> bound.contains(v) by {
        assert(sch.vars.to_set().contains(v) <==> bound.contains(v));
    }
    assert forall|v: Str| #[trigger] near(env, st, st.next).contains(v) <==> free.contains(v) by {
        if made(st.next, st.next).contains(v) {
            let k = choose|k: nat| st.next <= k < st.next && v == #[trigger] name::base26(k);
        }
    }
}

} // verus!
