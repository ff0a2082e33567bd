//! Inference only adds to what is known of type variables.

use crate::fun::book::{Am, Bk};
use crate::fun::check::infer_state;
use crate::fun::check::infer_state::{Er, St};
use crate::fun::check::inference;
use crate::fun::check::scheme;
use crate::fun::check::scheme::Sch;
use crate::fun::check::unify;
use crate::fun::term;
use crate::fun::term::{MatHead, Op, Pat, PatHead, SwtHead, Th, Tm};
use crate::fun::ty;
use crate::fun::ty::{Head, Ty};
use crate::name;
use crate::name::Str;
use vstd::prelude::*;

verus! {

pub open spec fn all_vars() -> Set<Str> {
    Set::new(|x: Str| true)
}

/// The second substitution comes from the first one by replacing more variables.
pub open spec fn adds(st: St, st1: St) -> bool {
    unify::grows(st1.sub, st.sub, all_vars())
}

pub proof fn lemma_adds_refl(st: St)
    requires
        unify::idempotent(st.sub),
    ensures
        adds(st, st),
{
    unify::lemma_grows_refl(st.sub, all_vars());
}

pub proof fn lemma_adds_trans(st: St, st1: St, st2: St)
    requires
        unify::idempotent(st.sub),
        adds(st, st1),
        adds(st1, st2),
    ensures
        adds(st, st2),
{
    unify::lemma_grows_trans(st2.sub, st1.sub, st.sub, all_vars(), all_vars());
}

pub proof fn lemma_adds_unify(st: St, t1: Ty, t2: Ty, ctx: Tm)
    requires
        unify::idempotent(st.sub),
    ensures
        match infer_state::unify_in(st, t1, t2, ctx) {
            Ok((t, st1)) => adds(st, st1),
            Err(_) => true,
        },
{
    unify::lemma_unify(st.sub, t1, t2);
    if let Ok((t, st1)) = infer_state::unify_in(st, t1, t2, ctx) {
        unify::lemma_grows_more(st1.sub, st.sub, unify::vars(st.sub, t1, t2), all_vars());
    }
}

pub proof fn lemma_adds_each(st: St, t: Ty, ts: Seq<Ty>, ctx: Tm)
    requires
        unify::idempotent(st.sub),
    ensures
        match inference::unify_each(st, t, ts, ctx) {
            Ok((u, st1)) => adds(st, st1),
            Err(_) => true,
        },
    decreases ts.len(),
{
    lemma_adds_refl(st);
    if ts.len() > 0 {
        lemma_adds_unify(st, t, ts[0], ctx);
        if let Ok((t1, st1)) = infer_state::unify_in(st, t, ts[0], ctx) {
            lemma_adds_each(st1, t1, ts.drop_first(), ctx);
            if let Ok((u, st2)) = inference::unify_each(st1, t1, ts.drop_first(), ctx) {
                lemma_adds_trans(st, st1, st2);
            }
        }
    }
}

pub proof fn lemma_adds_each_pruned(st: St, t: Ty, ts: Seq<Ty>, ctx: Tm)
    requires
        unify::idempotent(st.sub),
    ensures
        match inference::unify_each_pruned(st, t, ts, ctx) {
            Ok((u, st1)) => adds(st, st1),
            Err(_) => true,
        },
    decreases ts.len(),
{
    lemma_adds_refl(st);
    if ts.len() > 0 {
        let p = ty::apply(ts[0], st.sub);
        lemma_adds_unify(st, t, p, ctx);
        if let Ok((t1, st1)) = infer_state::unify_in(st, t, p, ctx) {
            lemma_adds_each_pruned(st1, t1, ts.drop_first(), ctx);
            if let Ok((u, st2)) = inference::unify_each_pruned(st1, t1, ts.drop_first(), ctx) {
                lemma_adds_trans(st, st1, st2);
            }
        }
    }
}

pub proof fn lemma_adds_pairs(st: St, xs: Seq<Ty>, ys: Seq<Ty>, ctx: Tm)
    requires
        unify::idempotent(st.sub),
    ensures
        match inference::unify_pairs(st, xs, ys, ctx) {
            Ok(st1) => adds(st, st1),
            Err(_) => true,
        },
    decreases xs.len(),
{
    lemma_adds_refl(st);
    if xs.len() > 0 && ys.len() > 0 {
        lemma_adds_unify(st, xs[0], ys[0], ctx);
        if let Ok((t1, st1)) = infer_state::unify_in(st, xs[0], ys[0], ctx) {
            lemma_adds_pairs(st1, xs.drop_first(), ys.drop_first(), ctx);
            if let Ok(st2) = inference::unify_pairs(st1, xs.drop_first(), ys.drop_first(), ctx) {
                lemma_adds_trans(st, st1, st2);
            }
        }
    }
}

pub proof fn lemma_adds_op(op: Op, t: Ty, st: St, ctx: Tm)
    requires
        unify::idempotent(st.sub),
    ensures
        match inference::infer_op(op, t, st, ctx) {
            Ok((u, st1)) => adds(st, st1),
            Err(_) => true,
        },
{
    let tv = ty::ty_var(name::base26(st.next));
    let st1 = inference::after(st, 1);
    lemma_adds_unify(st1, t, inference::number(tv), ctx);
    lemma_adds_unify(st1, t, inference::integer(tv), ctx);
    lemma_adds_unify(st1, t, ty::leaf(Head::F24), ctx);
}

/// A result of inference that only adds.
spec fn grown(r: Result<(Ty, St), Er>, st: St) -> bool {
    match r {
        Ok((u, st1)) => adds(st, st1),
        Err(_) => true,
    }
}

pub proof fn lemma_adds_infer(
    bk: Bk,
    names: Set<Str>,
    refs: Set<Str>,
    env: Map<Str, Sch>,
    types: Map<Str, Sch>,
    t: Tm,
    st: St,
)
    requires
        unify::idempotent(st.sub),
        inference::checkable(bk, names, refs, t),
    ensures
        match inference::infer(bk, env, types, t, st) {
            Ok((u, st1)) => adds(st, st1),
            Err(_) => true,
        },
    decreases t, 2nat, 0nat,
{
    lemma_adds_raw(bk, names, refs, env, types, t, st);
}

/// Inference after something was added.
proof fn lemma_adds_next(
    bk: Bk,
    names: Set<Str>,
    refs: Set<Str>,
    env: Map<Str, Sch>,
    types: Map<Str, Sch>,
    t: Tm,
    st0: St,
    st: St,
)
    requires
        unify::idempotent(st0.sub),
        adds(st0, st),
        inference::checkable(bk, names, refs, t),
    ensures
        grown(inference::infer(bk, env, types, t, st), st0),
    decreases t, 3nat, 0nat,
{
    lemma_adds_infer(bk, names, refs, env, types, t, st);
    if let Ok((u, st1)) = inference::infer(bk, env, types, t, st) {
        lemma_adds_trans(st0, st, st1);
    }
}

proof fn lemma_adds_unify_next(st0: St, st: St, t1: Ty, t2: Ty, ctx: Tm)
    requires
        unify::idempotent(st0.sub),
        adds(st0, st),
    ensures
        grown(infer_state::unify_in(st, t1, t2, ctx), st0),
{
    lemma_adds_unify(st, t1, t2, ctx);
    if let Ok((u, st1)) = infer_state::unify_in(st, t1, t2, ctx) {
        lemma_adds_trans(st0, st, st1);
    }
}

proof fn lemma_adds_raw(
    bk: Bk,
    names: Set<Str>,
    refs: Set<Str>,
    env: Map<Str, Sch>,
    types: Map<Str, Sch>,
    t: Tm,
    st: St,
)
    requires
        unify::idempotent(st.sub),
        inference::checkable(bk, names, refs, t),
    ensures
        grown(inference::infer_raw(bk, env, types, t, st), st),
    decreases t, 1nat, 0nat,
{
    lemma_adds_refl(st);
    match t.head {
        Th::Lam(_, pat) => {
            let xs = term::pat_binds(pat);
            let tv = ty::ty_var(name::base26(st.next));
            let inner = scheme::bind_all(env, inference::mono_binds(xs, seq![tv]));
            lemma_adds_next(
                bk,
                inference::with_names(names, xs),
                refs,
                inner,
                types,
                t.kids[0],
                st,
                inference::after(st, 1),
            );
        },
        Th::App(_) => {
            lemma_adds_next(bk, names, refs, env, types, t.kids[0], st, st);
            if let Ok((f, st1)) = inference::infer(bk, env, types, t.kids[0], st) {
                lemma_adds_next(bk, names, refs, env, types, t.kids[1], st, st1);
                if let Ok((a, st2)) = inference::infer(bk, env, types, t.kids[1], st1) {
                    let r = ty::ty_var(name::base26(st2.next));
                    lemma_adds_unify_next(
                        st,
                        inference::after(st2, 1),
                        f,
                        ty::ty_arr(a, r),
                        t.kids[0],
                    );
                }
            }
        },
        Th::Let(pat) => {
            lemma_adds_next(bk, names, refs, env, types, t.kids[0], st, st);
            if let Ok((v, st1)) = inference::infer(bk, env, types, t.kids[0], st) {
                lemma_adds_let(bk, names, refs, env, types, pat, t, v, st, st1);
            }
        },
        Th::Mat(h) => {
            lemma_adds_next(bk, names, refs, env, types, t.kids[0], st, st);
            if let Ok((u, st1)) = inference::infer(bk, env, types, t.kids[0], st) {
                let adt = bk.adts[bk.ctrs[h.arms[0].0->0]];
                let m = scheme::fresh_map(adt.vars, st1.next);
                let st2 = inference::after(st1, adt.vars.len());
                lemma_adds_cases(bk, names, refs, env, types, adt, h, t, 0, m, st, st2);
                if let Ok((n, st3)) = inference::infer_cases(bk, env, types, adt, h, t, 0, m, st2) {
                    lemma_adds_unify_next(
                        st,
                        st3,
                        u,
                        ty::apply(inference::adt_type(adt), m),
                        t.kids[0],
                    );
                }
            }
        },
        Th::Oper(op) => {
            lemma_adds_next(bk, names, refs, env, types, t.kids[0], st, st);
            if let Ok((a, st1)) = inference::infer(bk, env, types, t.kids[0], st) {
                lemma_adds_next(bk, names, refs, env, types, t.kids[1], st, st1);
                if let Ok((b, st2)) = inference::infer(bk, env, types, t.kids[1], st1) {
                    lemma_adds_unify_next(st, st2, b, a, t);
                    if let Ok((u, st3)) = infer_state::unify_in(st2, b, a, t) {
                        lemma_adds_op(op, u, st3, t);
                        if let Ok((w, st4)) = inference::infer_op(op, u, st3, t) {
                            lemma_adds_trans(st, st3, st4);
                        }
                    }
                }
            }
        },
        Th::Swt(h) => {
            lemma_adds_switch(bk, names, refs, env, types, h, t, st);
        },
        Th::Fan(_, _) => {
            lemma_adds_list(bk, names, refs, env, types, t, 0, st, st, Seq::empty());
        },
        _ => {},
    }
}

proof fn lemma_adds_let(
    bk: Bk,
    names: Set<Str>,
    refs: Set<Str>,
    env: Map<Str, Sch>,
    types: Map<Str, Sch>,
    pat: Pat,
    t: Tm,
    v: Ty,
    st0: St,
    st: St,
)
    requires
        unify::idempotent(st0.sub),
        adds(st0, st),
        t.kids.len() == 2,
        inference::checkable(
            bk,
            inference::with_names(names, term::pat_binds(pat)),
            refs,
            t.kids[1],
        ),
    ensures
        grown(inference::infer_let(bk, env, types, pat, t, v, st), st0),
    decreases t, 0nat, 0nat,
{
    let xs = term::pat_binds(pat);
    let more = inference::with_names(names, xs);
    if let PatHead::Var(x) = pat.head {
        let sch = infer_state::generalized(v, env, st.sub);
        let inner = scheme::bind_all(env, seq![(x, sch)]);
        lemma_adds_next(bk, more, refs, inner, types, t.kids[1], st0, st);
    } else {
        let tvs = inference::new_vars(xs.len(), st.next);
        let inner = scheme::bind_all(env, inference::mono_binds(xs, tvs));
        let st1 = inference::after(st, xs.len());
        lemma_adds_next(bk, more, refs, inner, types, t.kids[1], st0, st1);
        if let Ok((n, st2)) = inference::infer(bk, inner, types, t.kids[1], st1) {
            let tup = Ty { head: Head::Tup, kids: ty::apply_all(tvs, st2.sub) };
            lemma_adds_unify_next(st0, st2, v, tup, t.kids[0]);
            lemma_adds_each_pruned(st2, v, tvs, t.kids[0]);
            if let Ok((w, st3)) = inference::unify_each_pruned(st2, v, tvs, t.kids[0]) {
                lemma_adds_trans(st0, st2, st3);
            }
        }
    }
}

pub proof fn lemma_adds_cases(
    bk: Bk,
    names: Set<Str>,
    refs: Set<Str>,
    env: Map<Str, Sch>,
    types: Map<Str, Sch>,
    adt: Am,
    h: MatHead,
    t: Tm,
    i: int,
    m: Map<Str, Ty>,
    st0: St,
    st: St,
)
    requires
        unify::idempotent(st0.sub),
        adds(st0, st),
        0 <= i <= h.arms.len(),
        t.kids.len() == 1 + h.args + h.arms.len(),
        forall|j: int|
            1 + h.args <= j < t.kids.len() ==> inference::checkable(
                bk,
                inference::with_names(names, h.arms[j - 1 - h.args].1),
                refs,
                #[trigger] t.kids[j],
            ),
    ensures
        match inference::infer_cases(bk, env, types, adt, h, t, i, m, st) {
            Ok((u, st1)) => adds(st0, st1),
            Err(_) => true,
        },
    decreases t, 0nat, h.arms.len() - i,
{
    if i < h.arms.len() {
        let k = 1 + h.args + i;
        let xs = h.arms[i].1;
        let tvs = inference::new_vars(xs.len(), st.next);
        let inner = scheme::bind_all(env, inference::mono_binds(xs, tvs));
        let st1 = inference::after(st, xs.len());
        assert(h.arms[k - 1 - h.args] == h.arms[i]);
        assert(inference::checkable(
            bk,
            inference::with_names(names, h.arms[k - 1 - h.args].1),
            refs,
            t.kids[k],
        ));
        lemma_adds_next(
            bk,
            inference::with_names(names, xs),
            refs,
            inner,
            types,
            t.kids[k],
            st0,
            st1,
        );
        if let Ok((u, st2)) = inference::infer(bk, inner, types, t.kids[k], st1) {
            let ps = ty::apply_all(tvs, st2.sub);
            let fs = inference::field_types(adt.ctrs[h.arms[i].0->0], m);
            lemma_adds_pairs(st2, ps, fs, t.kids[k]);
            if let Ok(st3) = inference::unify_pairs(st2, ps, fs, t.kids[k]) {
                lemma_adds_trans(st0, st2, st3);
                lemma_adds_cases(bk, names, refs, env, types, adt, h, t, i + 1, m, st0, st3);
                if let Ok((rest, st4)) = inference::infer_cases(
                    bk,
                    env,
                    types,
                    adt,
                    h,
                    t,
                    i + 1,
                    m,
                    st3,
                ) {
                    lemma_adds_unify_next(st0, st4, u, rest, t.kids[k]);
                }
            }
        }
    }
}

pub proof fn lemma_adds_list(
    bk: Bk,
    names: Set<Str>,
    refs: Set<Str>,
    env: Map<Str, Sch>,
    types: Map<Str, Sch>,
    t: Tm,
    i: int,
    st0: St,
    st: St,
    done: Seq<Ty>,
)
    requires
        unify::idempotent(st0.sub),
        adds(st0, st),
        0 <= i <= t.kids.len(),
        forall|j: int|
            0 <= j < t.kids.len() ==> inference::checkable(bk, names, refs, #[trigger] t.kids[j]),
    ensures
        match inference::infer_list(bk, env, types, t, i, st, done) {
            Ok((ts, st1)) => adds(st0, st1),
            Err(_) => true,
        },
    decreases t, 0nat, t.kids.len() - i,
{
    if i < t.kids.len() {
        assert(inference::checkable(bk, names, refs, t.kids[i]));
        lemma_adds_next(bk, names, refs, env, types, t.kids[i], st0, st);
        if let Ok((u, st1)) = inference::infer(bk, env, types, t.kids[i], st) {
            lemma_adds_list(bk, names, refs, env, types, t, i + 1, st0, st1, done.push(u));
        }
    }
}

pub proof fn lemma_adds_numbers(
    bk: Bk,
    names: Set<Str>,
    refs: Set<Str>,
    env: Map<Str, Sch>,
    types: Map<Str, Sch>,
    h: SwtHead,
    t: Tm,
    n: int,
    st0: St,
    st: St,
    done: Seq<Ty>,
)
    requires
        unify::idempotent(st0.sub),
        adds(st0, st),
        h.args + n < t.kids.len() - 1,
        forall|j: int|
            1 + h.args <= j < t.kids.len() - 1 ==> inference::checkable(
                bk,
                names,
                refs,
                #[trigger] t.kids[j],
            ),
    ensures
        match inference::infer_numbers(bk, env, types, h, t, n, st, done) {
            Ok((ts, st1)) => adds(st0, st1),
            Err(_) => true,
        },
    decreases t, 0nat, n,
{
    if n > 0 {
        let k = h.args + n;
        assert(inference::checkable(bk, names, refs, t.kids[k]));
        lemma_adds_next(bk, names, refs, env, types, t.kids[k], st0, st);
        if let Ok((u, st1)) = inference::infer(bk, env, types, t.kids[k], st) {
            lemma_adds_numbers(bk, names, refs, env, types, h, t, n - 1, st0, st1, done.push(u));
        }
    }
}

proof fn lemma_adds_switch(
    bk: Bk,
    names: Set<Str>,
    refs: Set<Str>,
    env: Map<Str, Sch>,
    types: Map<Str, Sch>,
    h: SwtHead,
    t: Tm,
    st: St,
)
    requires
        unify::idempotent(st.sub),
        t.head == Th::Swt(h),
        inference::checkable(bk, names, refs, t),
    ensures
        grown(inference::infer_raw(bk, env, types, t, st), st),
    decreases t, 0nat, t.kids.len(),
{
    let u24 = ty::leaf(Head::U24);
    lemma_adds_refl(st);
    lemma_adds_next(bk, names, refs, env, types, t.kids[0], st, st);
    if let Ok((u, st1)) = inference::infer(bk, env, types, t.kids[0], st) {
        lemma_adds_unify_next(st, st1, u, u24, t.kids[0]);
        if let Ok((_, st2)) = infer_state::unify_in(st1, u, u24, t.kids[0]) {
            let n = t.kids.len() - h.args - 2;
            lemma_adds_numbers(bk, names, refs, env, types, h, t, n, st, st2, Seq::empty());
            if let Ok((ts, st3)) = inference::infer_numbers(
                bk,
                env,
                types,
                h,
                t,
                n,
                st2,
                Seq::empty(),
            ) {
                let xs = seq![h.pred];
                let inner = scheme::bind_all(env, inference::mono_binds(xs, seq![u24]));
                let k = t.kids.len() - 1;
                lemma_adds_next(
                    bk,
                    inference::with_names(names, xs),
                    refs,
                    inner,
                    types,
                    t.kids[k],
                    st,
                    st3,
                );
                if let Ok((s, st4)) = inference::infer(bk, inner, types, t.kids[k], st3) {
                    lemma_adds_each(st4, s, ts, t);
                    if let Ok((w, st5)) = inference::unify_each(st4, s, ts, t) {
                        lemma_adds_trans(st, st4, st5);
                    }
                }
            }
        }
    }
}

} // verus!
