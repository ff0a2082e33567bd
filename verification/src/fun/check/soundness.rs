//! Inferred types are types of their terms.

use crate::fun::book::{Am, Bk, Cm};
use crate::fun::check::frame;
use crate::fun::check::growth;
use crate::fun::check::infer_state;
use crate::fun::check::infer_state::{Er, St};
use crate::fun::check::inference;
use crate::fun::check::scheme;
use crate::fun::check::scheme::Sch;
use crate::fun::check::typing;
use crate::fun::check::typing::Givens;
use crate::fun::check::unify;
use crate::fun::check::unify_laws;
use crate::fun::term;
use crate::fun::term::{FanKind, MatHead, Op, Pat, PatHead, SwtHead, Th, Tm};
use crate::fun::ty;
use crate::fun::ty::{Head, Ty};
use crate::name;
use crate::name::Str;
use vstd::prelude::*;

verus! {

/* Solutions */

/// A solution of a state is one of an earlier state.
pub proof fn lemma_solves_before(r: Map<Str, Ty>, st: St, st1: St)
    requires
        growth::adds(st, st1),
        typing::solves(r, st1.sub),
    ensures
        typing::solves(r, st.sub),
{
    let (s, s1) = (st.sub, st1.sub);
    assert forall|x: Str| s.contains_key(x) implies #[trigger] ty::apply(s[x], r) == r[x] by {
        ty::lemma_apply_compose(s[x], s1, r);
        assert(ty::compose(s, s1).contains_key(x));
        assert(s1[x] == ty::apply(s[x], s1));
        assert(ty::compose(s1, r)[x] == ty::apply(s1[x], r));
    }
    assert(ty::compose(s, r) =~= r);
}

/// A solution makes the same of a type before and after the substitution.
pub proof fn lemma_solves_apply(r: Map<Str, Ty>, s: Map<Str, Ty>, t: Ty)
    requires
        typing::solves(r, s),
    ensures
        ty::apply(ty::apply(t, s), r) == ty::apply(t, r),
{
    ty::lemma_apply_compose(t, s, r);
}

/// Under a solution, unified types join in the type that unification gives.
pub proof fn lemma_solves_unify(r: Map<Str, Ty>, st: St, t1: Ty, t2: Ty, ctx: Tm)
    requires
        unify::idempotent(st.sub),
        match infer_state::unify_in(st, t1, t2, ctx) {
            Ok((t, st1)) => typing::solves(r, st1.sub),
            Err(_) => false,
        },
    ensures
        match infer_state::unify_in(st, t1, t2, ctx) {
            Ok((t, st1)) => {
                &&& typing::joins(ty::apply(t1, r), ty::apply(t2, r), ty::apply(t, r))
                &&& typing::solves(r, st.sub)
                &&& unify::idempotent(st1.sub)
            },
            Err(_) => false,
        },
{
    growth::lemma_adds_unify(st, t1, t2, ctx);
    unify_laws::law_unify_sound(st.sub, t1, t2);
    unify_laws::law_unify_joins(st.sub, t1, t2);
    if let Ok((t, st1)) = infer_state::unify_in(st, t1, t2, ctx) {
        let (a, b) = (ty::apply(t1, st1.sub), ty::apply(t2, st1.sub));
        lemma_solves_before(r, st, st1);
        lemma_solves_apply(r, st1.sub, t1);
        lemma_solves_apply(r, st1.sub, t2);
        unify_laws::lemma_agree_apply(a, b, r);
        unify_laws::lemma_agree_apply(t, a, r);
        unify_laws::lemma_agree_apply(t, b, r);
    }
}

proof fn lemma_solves_each(r: Map<Str, Ty>, st: St, t: Ty, ts: Seq<Ty>, ctx: Tm)
    requires
        unify::idempotent(st.sub),
        match inference::unify_each(st, t, ts, ctx) {
            Ok((u, st1)) => typing::solves(r, st1.sub),
            Err(_) => false,
        },
    ensures
        match inference::unify_each(st, t, ts, ctx) {
            Ok((u, st1)) => {
                &&& typing::joins_all(ty::apply(t, r), ty::apply_all(ts, r), ty::apply(u, r))
                &&& typing::solves(r, st.sub)
            },
            Err(_) => false,
        },
    decreases ts.len(),
{
    let rs = ty::apply_all(ts, r);
    if ts.len() > 0 {
        growth::lemma_adds_unify(st, t, ts[0], ctx);
        if let Ok((t1, st1)) = infer_state::unify_in(st, t, ts[0], ctx) {
            lemma_solves_each(r, st1, t1, ts.drop_first(), ctx);
            lemma_solves_unify(r, st, t, ts[0], ctx);
            assert(rs.drop_first() =~= ty::apply_all(ts.drop_first(), r));
            assert(typing::joins(ty::apply(t, r), rs[0], ty::apply(t1, r)));
        }
    }
}

proof fn lemma_solves_each_pruned(r: Map<Str, Ty>, st: St, t: Ty, ts: Seq<Ty>, ctx: Tm)
    requires
        unify::idempotent(st.sub),
        match inference::unify_each_pruned(st, t, ts, ctx) {
            Ok((u, st1)) => typing::solves(r, st1.sub),
            Err(_) => false,
        },
    ensures
        match inference::unify_each_pruned(st, t, ts, ctx) {
            Ok((u, st1)) => {
                &&& typing::joins_all(ty::apply(t, r), ty::apply_all(ts, r), ty::apply(u, r))
                &&& typing::solves(r, st.sub)
            },
            Err(_) => false,
        },
    decreases ts.len(),
{
    let rs = ty::apply_all(ts, r);
    if ts.len() > 0 {
        let p = ty::apply(ts[0], st.sub);
        growth::lemma_adds_unify(st, t, p, ctx);
        if let Ok((t1, st1)) = infer_state::unify_in(st, t, p, ctx) {
            lemma_solves_each_pruned(r, st1, t1, ts.drop_first(), ctx);
            lemma_solves_unify(r, st, t, p, ctx);
            lemma_solves_apply(r, st.sub, ts[0]);
            assert(rs.drop_first() =~= ty::apply_all(ts.drop_first(), r));
            assert(typing::joins(ty::apply(t, r), rs[0], ty::apply(t1, r)));
        }
    }
}

proof fn lemma_solves_pairs(r: Map<Str, Ty>, st: St, xs: Seq<Ty>, ys: Seq<Ty>, ctx: Tm)
    requires
        unify::idempotent(st.sub),
        match inference::unify_pairs(st, xs, ys, ctx) {
            Ok(st1) => typing::solves(r, st1.sub),
            Err(_) => false,
        },
    ensures
        typing::pairs_agree(ty::apply_all(xs, r), ty::apply_all(ys, r)),
        typing::solves(r, st.sub),
    decreases xs.len(),
{
    let (xr, yr) = (ty::apply_all(xs, r), ty::apply_all(ys, r));
    if xs.len() > 0 && ys.len() > 0 {
        growth::lemma_adds_unify(st, xs[0], ys[0], ctx);
        if let Ok((t1, st1)) = infer_state::unify_in(st, xs[0], ys[0], ctx) {
            let (xs1, ys1) = (xs.drop_first(), ys.drop_first());
            lemma_solves_pairs(r, st1, xs1, ys1, ctx);
            lemma_solves_unify(r, st, xs[0], ys[0], ctx);
            assert forall|i: int| 0 <= i < xr.len() && i < yr.len() implies unify_laws::agree(
                #[trigger] xr[i],
                yr[i],
            ) by {
                if i > 0 {
                    assert(ty::apply_all(xs1, r)[i - 1] == xr[i]);
                    assert(ty::apply_all(ys1, r)[i - 1] == yr[i]);
                }
            }
        }
    }
}

proof fn lemma_solves_op(r: Map<Str, Ty>, op: Op, t: Ty, st: St, ctx: Tm)
    requires
        unify::idempotent(st.sub),
        match inference::infer_op(op, t, st, ctx) {
            Ok((u, st1)) => typing::solves(r, st1.sub),
            Err(_) => false,
        },
    ensures
        match inference::infer_op(op, t, st, ctx) {
            Ok((u, st1)) => {
                &&& typing::op_typed(op, ty::apply(t, r), ty::apply(u, r))
                &&& typing::solves(r, st.sub)
            },
            Err(_) => false,
        },
{
    let tv = ty::ty_var(name::base26(st.next));
    let st1 = inference::after(st, 1);
    let n = ty::apply(tv, r);
    ty::lemma_apply_kids(inference::number(tv), r);
    ty::lemma_apply_kids(inference::integer(tv), r);
    assert(ty::apply(inference::number(tv), r) =~= inference::number(n)) by {
        assert(ty::apply_all(seq![tv], r) =~= seq![n]);
    }
    assert(ty::apply(inference::integer(tv), r) =~= inference::integer(n)) by {
        assert(ty::apply_all(seq![tv], r) =~= seq![n]);
    }
    match op {
        Op::REM | Op::AND | Op::OR | Op::XOR | Op::SHL | Op::SHR => {
            lemma_solves_unify(r, st1, t, inference::integer(tv), ctx);
        },
        Op::POW => {
            lemma_solves_unify(r, st1, t, ty::leaf(Head::F24), ctx);
            lemma_apply_leaf(Head::F24, r);
        },
        _ => {
            lemma_solves_unify(r, st1, t, inference::number(tv), ctx);
            lemma_apply_leaf(Head::U24, r);
        },
    }
}

proof fn lemma_apply_leaf(h: Head, r: Map<Str, Ty>)
    requires
        !(h is Var),
    ensures
        ty::apply(ty::leaf(h), r) == ty::leaf(h),
{
    ty::lemma_apply_kids(ty::leaf(h), r);
    assert(ty::apply_all(Seq::empty(), r) =~= Seq::empty());
}

proof fn lemma_apply_arr(a: Ty, b: Ty, r: Map<Str, Ty>)
    ensures
        ty::apply(ty::ty_arr(a, b), r) == ty::ty_arr(ty::apply(a, r), ty::apply(b, r)),
{
    ty::lemma_apply_kids(ty::ty_arr(a, b), r);
    assert(ty::apply_all(seq![a, b], r) =~= seq![ty::apply(a, r), ty::apply(b, r)]);
}

/// Whatever types the variables stand for that are not replaced yet, there is a
/// solution that gives them these types.
pub proof fn law_solutions(s: Map<Str, Ty>, m: Map<Str, Ty>)
    requires
        unify::idempotent(s),
        typing::is_total(m),
    ensures
        typing::solves(ty::compose(s, m), s),
        forall|x: Str| !s.contains_key(x) ==> #[trigger] ty::compose(s, m)[x] == m[x],
{
    let r = ty::compose(s, m);
    assert forall|x: Str| s.contains_key(x) implies #[trigger] ty::apply(s[x], r) == r[x] by {
        ty::lemma_apply_compose(s[x], s, m);
        assert forall|y: Str| #[trigger] ty::fv(s[x]).contains(y) implies !s.contains_key(y) by {
            assert(s.contains_key(x));
        }
        ty::lemma_apply_disjoint(s[x], s);
    }
    assert(ty::compose(s, r) =~= r);
}

/* Names */

/// An instance of a scheme is one of the types that it stands for.
proof fn lemma_sound_name(env: Map<Str, Sch>, types: Map<Str, Sch>, x: Str, st: St, r: Map<Str, Ty>)
    requires
        inference::known(env, types).contains(x),
        typing::solves(r, st.sub),
    ensures
        ({
            let g = typing::givens(env, types, r);
            let u = inference::infer_name(env, types, x, st).0;
            g.contains_key(x) && g[x].contains(ty::apply(u, r))
        }),
{
    let sch = if env.contains_key(x) {
        env[x]
    } else {
        types[x]
    };
    let m = scheme::fresh_map(sch.vars, st.next);
    let inst = scheme::instance(sch, st.next);
    let q = ty::compose(m, r);
    lemma_solves_apply(r, st.sub, inst);
    ty::lemma_apply_compose(sch.typ, m, r);
    assert forall|y: Str| !sch.vars.contains(y) implies #[trigger] q[y] == r[y] by {
        inference::lemma_fresh_map(sch.vars, st.next, y);
    }
    assert(typing::instantiates(q, sch, r));
}

/* Generalization */

/// The value of a `let` has every type of its generalized type.
proof fn lemma_sound_generalized(
    bk: Bk,
    env: Map<Str, Sch>,
    types: Map<Str, Sch>,
    t: Tm,
    v: Ty,
    st: St,
    st1: St,
    r: Map<Str, Ty>,
    w: Ty,
)
    requires
        frame::clean(env, st),
        inference::types_closed(types),
        inference::fields_closed(bk),
        inference::checkable(bk, inference::known(env, types), inference::known(env, types), t),
        inference::infer(bk, env, types, t, st) == Ok::<_, Er>((v, st1)),
        typing::solves(r, st1.sub),
        typing::instances(infer_state::generalized(v, env, st1.sub), r).contains(w),
    ensures
        typing::typed(bk, typing::givens(env, types, r), t, w),
    decreases t, 3nat, 0nat,
{
    let s = st1.sub;
    let sch = infer_state::generalized(v, env, s);
    let q = choose|q: Map<Str, Ty>| #[trigger]
        typing::instantiates(q, sch, r) && w == ty::apply(sch.typ, q);
    inference::lemma_frame(bk, env, types, t, st);
    inference::lemma_steps(env, st, st1);
    frame::lemma_env_fv(env, st1);
    let p = ty::compose(s, q);
    law_solutions(s, q);
    ty::lemma_apply_compose(v, s, q);
    lemma_sound(bk, env, types, t, st, p);
    // The environment does not hold the variables that are generalized.
    ty::lemma_fv_finite(sch.typ);
    let free = ty::fv(sch.typ).difference(infer_state::env_fv(env, s));
    name::lemma_finite_in_order(free);
    assert forall|y: Str| frame::loose(env, s).contains(y) implies q[y] == r[y] by {
        if sch.vars.contains(y) {
            assert(sch.vars.to_set().contains(y));
            assert(free.contains(y));
        }
    }
    assert forall|x: Str, y: Str|
        env.contains_key(x) && #[trigger] ty::fv(env[x].typ).contains(y) && !env[x].vars.contains(
            y,
        ) implies p[y] == r[y] by {
        let img = ty::image(s, y);
        assert forall|z: Str| #[trigger] ty::fv(img).contains(z) implies q[z] == r[z] by {
            assert(ty::fv(ty::image(s, y)).contains(z));
            assert(frame::loose(env, s).contains(z));
        }
        if s.contains_key(y) {
            ty::lemma_apply_agree(s[y], q, r);
            assert(ty::compose(s, r)[y] == ty::apply(s[y], r));
        } else {
            assert(ty::fv(img).contains(y));
        }
    }
    assert forall|x: Str| typing::givens(env, types, p).contains_key(x) implies #[trigger] typing::givens(
        env,
        types,
        p,
    )[x] == typing::givens(env, types, r)[x] by {
        if env.contains_key(x) {
            typing::lemma_same_instances(env[x], p, r);
        } else {
            assert forall|y: Str| #[trigger] ty::fv(types[x].typ).contains(y)
                && !types[x].vars.contains(y) implies p[y] == r[y] by {
                assert(types[x].vars.contains(y));
            }
            typing::lemma_same_instances(types[x], p, r);
        }
    }
    assert(typing::givens(env, types, p) =~= typing::givens(env, types, r));
}

/* Terms */

/// The result of inference, under the substitution.
spec fn solved(x: Result<(Ty, St), Er>, r: Map<Str, Ty>) -> bool {
    match x {
        Ok((u, st)) => typing::solves(r, st.sub),
        Err(_) => false,
    }
}

/// The type that inference finds for a term is a type of the term, under every
/// substitution that does what was found out.
proof fn lemma_sound(
    bk: Bk,
    env: Map<Str, Sch>,
    types: Map<Str, Sch>,
    t: Tm,
    st: St,
    r: Map<Str, Ty>,
)
    requires
        frame::clean(env, st),
        inference::types_closed(types),
        inference::fields_closed(bk),
        inference::checkable(bk, inference::known(env, types), inference::known(env, types), t),
        solved(inference::infer(bk, env, types, t, st), r),
    ensures
        typing::typed(
            bk,
            typing::givens(env, types, r),
            t,
            ty::apply(inference::infer(bk, env, types, t, st)->Ok_0.0, r),
        ),
    decreases t, 2nat, 0nat,
{
    lemma_sound_raw(bk, env, types, t, st, r);
    if let Ok((u, st1)) = inference::infer_raw(bk, env, types, t, st) {
        lemma_solves_apply(r, st1.sub, u);
    }
}

/// A term that is inferred after a step, and before more is found out.
proof fn lemma_sound_next(
    bk: Bk,
    env: Map<Str, Sch>,
    types: Map<Str, Sch>,
    t: Tm,
    st0: St,
    st: St,
    last: St,
    r: Map<Str, Ty>,
)
    requires
        frame::clean(env, st0),
        frame::step(env, st0, st),
        inference::types_closed(types),
        inference::fields_closed(bk),
        inference::checkable(bk, inference::known(env, types), inference::known(env, types), t),
        match inference::infer(bk, env, types, t, st) {
            Ok((u, st1)) => growth::adds(st1, last),
            Err(_) => false,
        },
        typing::solves(r, last.sub),
    ensures
        typing::typed(
            bk,
            typing::givens(env, types, r),
            t,
            ty::apply(inference::infer(bk, env, types, t, st)->Ok_0.0, r),
        ),
    decreases t, 3nat, 0nat,
{
    inference::lemma_steps(env, st0, st);
    if let Ok((u, st1)) = inference::infer(bk, env, types, t, st) {
        lemma_solves_before(r, st1, last);
        lemma_sound(bk, env, types, t, st, r);
    }
}

proof fn lemma_sound_raw(
    bk: Bk,
    env: Map<Str, Sch>,
    types: Map<Str, Sch>,
    t: Tm,
    st: St,
    r: Map<Str, Ty>,
)
    requires
        frame::clean(env, st),
        inference::types_closed(types),
        inference::fields_closed(bk),
        inference::checkable(bk, inference::known(env, types), inference::known(env, types), t),
        solved(inference::infer_raw(bk, env, types, t, st), r),
    ensures
        typing::typed(
            bk,
            typing::givens(env, types, r),
            t,
            ty::apply(inference::infer_raw(bk, env, types, t, st)->Ok_0.0, r),
        ),
    decreases t, 1nat, 0nat,
{
    match t.head {
        Th::Var(x) => {
            lemma_sound_name(env, types, x, st, r);
        },
        Th::Ref(x) => {
            lemma_sound_name(env, types, x, st, r);
        },
        Th::Lam(_, pat) => {
            lemma_sound_lambda(bk, env, types, pat, t, st, r);
        },
        Th::App(_) => {
            lemma_sound_app(bk, env, types, t, st, r);
        },
        Th::Let(pat) => {
            lemma_sound_let(bk, env, types, pat, t, st, r);
        },
        Th::Mat(h) => {
            lemma_sound_match(bk, env, types, h, t, st, r);
        },
        Th::Num(val) => {
            lemma_apply_leaf(typing::num_type(val).head, r);
        },
        Th::Oper(op) => {
            lemma_sound_oper(bk, env, types, op, t, st, r);
        },
        Th::Swt(h) => {
            lemma_sound_switch(bk, env, types, h, t, st, r);
        },
        Th::Fan(_, _) => {
            lemma_sound_fan(bk, env, types, t, st, r);
        },
        Th::Era => {
            lemma_apply_leaf(Head::NoneType, r);
        },
        _ => {},
    }
}

proof fn lemma_sound_lambda(
    bk: Bk,
    env: Map<Str, Sch>,
    types: Map<Str, Sch>,
    pat: Pat,
    t: Tm,
    st: St,
    r: Map<Str, Ty>,
)
    requires
        frame::clean(env, st),
        inference::types_closed(types),
        inference::fields_closed(bk),
        t.head is Lam && t.head->Lam_1 == pat,
        inference::checkable(bk, inference::known(env, types), inference::known(env, types), t),
        solved(inference::infer_raw(bk, env, types, t, st), r),
    ensures
        typing::typed(
            bk,
            typing::givens(env, types, r),
            t,
            ty::apply(inference::infer_raw(bk, env, types, t, st)->Ok_0.0, r),
        ),
    decreases t, 0nat, 0nat,
{
    let g = typing::givens(env, types, r);
    let known = inference::known(env, types);
    let xs = term::pat_binds(pat);
    let tv = ty::ty_var(name::base26(st.next));
    let st1 = inference::after(st, 1);
    assert(xs.len() == 1);
    frame::lemma_step_refl(env, st);
    inference::lemma_new_binds(env, st, st, xs);
    assert(inference::new_vars(1, st.next) =~= seq![tv]);
    let bs = inference::mono_binds(xs, seq![tv]);
    let inner = scheme::bind_all(env, bs);
    inference::lemma_frame_inner(bk, env, types, bs, xs, t.kids[0], st, st1);
    lemma_sound(bk, inner, types, t.kids[0], st1, r);
    typing::lemma_givens_bound(env, types, r, xs, seq![tv]);
    if let Ok((bod, st2)) = inference::infer(bk, inner, types, t.kids[0], st1) {
        lemma_apply_arr(tv, bod, r);
        assert(ty::apply_all(seq![tv], r) =~= seq![ty::apply(tv, r)]);
    }
}

/// An application whose function and argument have types.
proof fn lemma_typed_app(bk: Bk, g: Givens, t: Tm, f: Ty, a: Ty, u: Ty)
    requires
        t.head is App,
        t.kids.len() == 2,
        typing::typed(bk, g, t.kids[0], f),
        typing::typed(bk, g, t.kids[1], a),
        unify_laws::agree(f, ty::ty_arr(a, u)),
    ensures
        typing::typed(bk, g, t, u),
{
}

proof fn lemma_sound_app(
    bk: Bk,
    env: Map<Str, Sch>,
    types: Map<Str, Sch>,
    t: Tm,
    st: St,
    r: Map<Str, Ty>,
)
    requires
        frame::clean(env, st),
        inference::types_closed(types),
        inference::fields_closed(bk),
        t.head is App,
        inference::checkable(bk, inference::known(env, types), inference::known(env, types), t),
        solved(inference::infer_raw(bk, env, types, t, st), r),
    ensures
        typing::typed(
            bk,
            typing::givens(env, types, r),
            t,
            ty::apply(inference::infer_raw(bk, env, types, t, st)->Ok_0.0, r),
        ),
    decreases t, 0nat, 0nat,
{
    let g = typing::givens(env, types, r);
    let known = inference::known(env, types);
    frame::lemma_step_refl(env, st);
    if let Ok((f, st1)) = inference::infer(bk, env, types, t.kids[0], st) {
        inference::lemma_frame_next(bk, env, types, t.kids[0], st, st);
        if let Ok((a, st2)) = inference::infer(bk, env, types, t.kids[1], st1) {
            growth::lemma_adds_infer(bk, known, known, env, types, t.kids[1], st1);
            let x = ty::ty_var(name::base26(st2.next));
            let arr = ty::ty_arr(a, x);
            let st3 = inference::after(st2, 1);
            if let Ok((w, st4)) = infer_state::unify_in(st3, f, arr, t.kids[0]) {
                growth::lemma_adds_unify(st3, f, arr, t.kids[0]);
                growth::lemma_adds_trans(st1, st2, st4);
                lemma_solves_unify(r, st3, f, arr, t.kids[0]);
                lemma_sound_next(bk, env, types, t.kids[0], st, st, st4, r);
                lemma_sound_next(bk, env, types, t.kids[1], st, st1, st4, r);
                lemma_apply_arr(a, x, r);
                lemma_typed_app(bk, g, t, ty::apply(f, r), ty::apply(a, r), ty::apply(x, r));
            }
        }
    }
}

/// New variables, as they are by then and under the substitution.
proof fn lemma_solves_apply_all(r: Map<Str, Ty>, s: Map<Str, Ty>, ts: Seq<Ty>)
    requires
        typing::solves(r, s),
    ensures
        ty::apply_all(ty::apply_all(ts, s), r) == ty::apply_all(ts, r),
{
    assert forall|i: int| 0 <= i < ts.len() implies ty::apply(ty::apply(ts[i], s), r) == ty::apply(
        #[trigger] ts[i],
        r,
    ) by {
        lemma_solves_apply(r, s, ts[i]);
    }
    assert(ty::apply_all(ty::apply_all(ts, s), r) =~= ty::apply_all(ts, r));
}

proof fn lemma_sound_let(
    bk: Bk,
    env: Map<Str, Sch>,
    types: Map<Str, Sch>,
    pat: Pat,
    t: Tm,
    st: St,
    r: Map<Str, Ty>,
)
    requires
        frame::clean(env, st),
        inference::types_closed(types),
        inference::fields_closed(bk),
        t.head == Th::Let(pat),
        inference::checkable(bk, inference::known(env, types), inference::known(env, types), t),
        solved(inference::infer_raw(bk, env, types, t, st), r),
    ensures
        typing::typed(
            bk,
            typing::givens(env, types, r),
            t,
            ty::apply(inference::infer_raw(bk, env, types, t, st)->Ok_0.0, r),
        ),
    decreases t, 0nat, 2nat,
{
    let g = typing::givens(env, types, r);
    let known = inference::known(env, types);
    frame::lemma_step_refl(env, st);
    if let Ok((v, st1)) = inference::infer(bk, env, types, t.kids[0], st) {
        inference::lemma_frame_next(bk, env, types, t.kids[0], st, st);
        if let PatHead::Var(x) = pat.head {
            lemma_sound_let_var(bk, env, types, pat, x, t, v, st, st1, r);
        } else {
            lemma_sound_let_fan(bk, env, types, pat, t, v, st, st1, r);
        }
    }
}

proof fn lemma_sound_let_var(
    bk: Bk,
    env: Map<Str, Sch>,
    types: Map<Str, Sch>,
    pat: Pat,
    x: Option<Str>,
    t: Tm,
    v: Ty,
    st: St,
    st1: St,
    r: Map<Str, Ty>,
)
    requires
        frame::clean(env, st),
        frame::step(env, st, st1),
        frame::within(v, env, st, st1.next),
        inference::types_closed(types),
        inference::fields_closed(bk),
        t.head == Th::Let(pat),
        inference::checkable(bk, inference::known(env, types), inference::known(env, types), t),
        inference::infer(bk, env, types, t.kids[0], st) == Ok::<_, Er>((v, st1)),
        solved(inference::infer_let(bk, env, types, pat, t, v, st1), r),
        pat.head == PatHead::Var(x),
    ensures
        typing::typed_let(
            bk,
            typing::givens(env, types, r),
            pat,
            t,
            ty::apply(inference::infer_let(bk, env, types, pat, t, v, st1)->Ok_0.0, r),
        ),
    decreases t, 0nat, 1nat,
{
    let g = typing::givens(env, types, r);
    let xs = term::pat_binds(pat);
    let sch = infer_state::generalized(v, env, st1.sub);
    let bs = seq![(x, sch)];
    let inner = scheme::bind_all(env, bs);
    let known = inference::known(inner, types);
    inference::lemma_generalized_bind(env, st, st1, v);
    frame::lemma_step_refl(env, st1);
    inference::lemma_frame_inner(bk, env, types, bs, xs, t.kids[1], st1, st1);
    if let Ok((n, st2)) = inference::infer(bk, inner, types, t.kids[1], st1) {
        lemma_sound(bk, inner, types, t.kids[1], st1, r);
        typing::lemma_givens_bound_to(env, types, r, x, sch);
        growth::lemma_adds_infer(bk, known, known, inner, types, t.kids[1], st1);
        lemma_solves_before(r, st1, st2);
        let us = typing::instances(sch, r);
        assert(typing::instantiates(r, sch, r));
        assert(us.contains(ty::apply(sch.typ, r)));
        assert forall|w: Ty| #[trigger] us.contains(w) implies typing::typed(bk, g, t.kids[0], w) by {
            lemma_sound_generalized(bk, env, types, t.kids[0], v, st, st1, r, w);
        }
        assert(typing::typed(bk, typing::bound_to(g, x, us), t.kids[1], ty::apply(n, r)));
    }
}

proof fn lemma_sound_let_fan(
    bk: Bk,
    env: Map<Str, Sch>,
    types: Map<Str, Sch>,
    pat: Pat,
    t: Tm,
    v: Ty,
    st: St,
    st1: St,
    r: Map<Str, Ty>,
)
    requires
        frame::clean(env, st),
        frame::step(env, st, st1),
        frame::within(v, env, st, st1.next),
        inference::types_closed(types),
        inference::fields_closed(bk),
        t.head == Th::Let(pat),
        inference::checkable(bk, inference::known(env, types), inference::known(env, types), t),
        inference::infer(bk, env, types, t.kids[0], st) == Ok::<_, Er>((v, st1)),
        solved(inference::infer_let(bk, env, types, pat, t, v, st1), r),
        !(pat.head is Var),
    ensures
        typing::typed_let(
            bk,
            typing::givens(env, types, r),
            pat,
            t,
            ty::apply(inference::infer_let(bk, env, types, pat, t, v, st1)->Ok_0.0, r),
        ),
    decreases t, 0nat, 1nat,
{
    let g = typing::givens(env, types, r);
    let xs = term::pat_binds(pat);
    let tvs = inference::new_vars(xs.len(), st1.next);
    let ts = ty::apply_all(tvs, r);
    let bs = inference::mono_binds(xs, tvs);
    let inner = scheme::bind_all(env, bs);
    let known = inference::known(inner, types);
    let st2 = inference::after(st1, xs.len());
    frame::lemma_step_refl(env, st);
    inference::lemma_new_binds(env, st, st1, xs);
    inference::lemma_frame_inner(bk, env, types, bs, xs, t.kids[1], st, st2);
    typing::lemma_givens_bound(env, types, r, xs, tvs);
    if let Ok((n, st3)) = inference::infer(bk, inner, types, t.kids[1], st2) {
        growth::lemma_adds_infer(bk, known, known, inner, types, t.kids[1], st2);
        if pat.head is Fan && pat.head->Fan_0 == FanKind::Tup {
            let ps = ty::apply_all(tvs, st3.sub);
            let tup = Ty { head: Head::Tup, kids: ps };
            if let Ok((w, st4)) = infer_state::unify_in(st3, v, tup, t.kids[0]) {
                growth::lemma_adds_unify(st3, v, tup, t.kids[0]);
                growth::lemma_adds_trans(st1, st3, st4);
                lemma_solves_unify(r, st3, v, tup, t.kids[0]);
                lemma_solves_apply_all(r, st3.sub, tvs);
                ty::lemma_apply_kids(tup, r);
                assert(ty::apply(tup, r) == Ty { head: Head::Tup, kids: ts });
                lemma_sound(bk, inner, types, t.kids[1], st2, r);
                lemma_sound_next(bk, env, types, t.kids[0], st, st, st4, r);
                assert(typing::typed(bk, g, t.kids[0], ty::apply(v, r)));
                assert(typing::typed(bk, typing::bound(g, xs, ts), t.kids[1], ty::apply(n, r)));
            }
        } else {
            if let Ok((w, st4)) = inference::unify_each_pruned(st3, v, tvs, t.kids[0]) {
                growth::lemma_adds_each_pruned(st3, v, tvs, t.kids[0]);
                growth::lemma_adds_trans(st1, st3, st4);
                lemma_solves_each_pruned(r, st3, v, tvs, t.kids[0]);
                lemma_sound(bk, inner, types, t.kids[1], st2, r);
                lemma_sound_next(bk, env, types, t.kids[0], st, st, st4, r);
                assert(typing::typed(bk, g, t.kids[0], ty::apply(v, r)));
                assert(typing::typed(bk, typing::bound(g, xs, ts), t.kids[1], ty::apply(n, r)));
                assert(typing::joins_all(ty::apply(v, r), ts, ty::apply(w, r)));
            }
        }
    }
}

/// A native operation whose arguments have types.
proof fn lemma_typed_oper(bk: Bk, g: Givens, op: Op, t: Tm, a: Ty, b: Ty, c: Ty, u: Ty)
    requires
        t.head == Th::Oper(op),
        t.kids.len() == 2,
        typing::typed(bk, g, t.kids[0], a),
        typing::typed(bk, g, t.kids[1], b),
        typing::joins(b, a, c),
        typing::op_typed(op, c, u),
    ensures
        typing::typed(bk, g, t, u),
{
}

proof fn lemma_sound_oper(
    bk: Bk,
    env: Map<Str, Sch>,
    types: Map<Str, Sch>,
    op: Op,
    t: Tm,
    st: St,
    r: Map<Str, Ty>,
)
    requires
        frame::clean(env, st),
        inference::types_closed(types),
        inference::fields_closed(bk),
        t.head == Th::Oper(op),
        inference::checkable(bk, inference::known(env, types), inference::known(env, types), t),
        solved(inference::infer_raw(bk, env, types, t, st), r),
    ensures
        typing::typed(
            bk,
            typing::givens(env, types, r),
            t,
            ty::apply(inference::infer_raw(bk, env, types, t, st)->Ok_0.0, r),
        ),
    decreases t, 0nat, 0nat,
{
    let g = typing::givens(env, types, r);
    let known = inference::known(env, types);
    frame::lemma_step_refl(env, st);
    if let Ok((a, st1)) = inference::infer(bk, env, types, t.kids[0], st) {
        inference::lemma_frame_next(bk, env, types, t.kids[0], st, st);
        if let Ok((b, st2)) = inference::infer(bk, env, types, t.kids[1], st1) {
            growth::lemma_adds_infer(bk, known, known, env, types, t.kids[1], st1);
            if let Ok((c, st3)) = infer_state::unify_in(st2, b, a, t) {
                growth::lemma_adds_unify(st2, b, a, t);
                if let Ok((u, st4)) = inference::infer_op(op, c, st3, t) {
                    growth::lemma_adds_op(op, c, st3, t);
                    growth::lemma_adds_trans(st2, st3, st4);
                    growth::lemma_adds_trans(st1, st2, st4);
                    lemma_solves_op(r, op, c, st3, t);
                    lemma_solves_unify(r, st2, b, a, t);
                    lemma_sound_next(bk, env, types, t.kids[0], st, st, st4, r);
                    lemma_sound_next(bk, env, types, t.kids[1], st, st1, st4, r);
                    lemma_typed_oper(
                        bk,
                        g,
                        op,
                        t,
                        ty::apply(a, r),
                        ty::apply(b, r),
                        ty::apply(c, r),
                        ty::apply(u, r),
                    );
                }
            }
        }
    }
}

/// A match whose argument and arms have types.
proof fn lemma_typed_match(bk: Bk, g: Givens, h: MatHead, t: Tm, s: Ty, m: Map<Str, Ty>, u: Ty)
    requires
        t.head == Th::Mat(h),
        t.kids.len() > 0,
        typing::typed(bk, g, t.kids[0], s),
        typing::typed_cases(bk, g, bk.adts[bk.ctrs[h.arms[0].0->0]], h, t, 0, m, u),
        unify_laws::agree(
            s,
            ty::apply(inference::adt_type(bk.adts[bk.ctrs[h.arms[0].0->0]]), m),
        ),
    ensures
        typing::typed(bk, g, t, u),
{
}

proof fn lemma_sound_match(
    bk: Bk,
    env: Map<Str, Sch>,
    types: Map<Str, Sch>,
    h: MatHead,
    t: Tm,
    st: St,
    r: Map<Str, Ty>,
)
    requires
        frame::clean(env, st),
        inference::types_closed(types),
        inference::fields_closed(bk),
        t.head == Th::Mat(h),
        inference::checkable(bk, inference::known(env, types), inference::known(env, types), t),
        solved(inference::infer_raw(bk, env, types, t, st), r),
    ensures
        typing::typed(
            bk,
            typing::givens(env, types, r),
            t,
            ty::apply(inference::infer_raw(bk, env, types, t, st)->Ok_0.0, r),
        ),
    decreases t, 0nat, h.arms.len() + 1,
{
    let g = typing::givens(env, types, r);
    let known = inference::known(env, types);
    frame::lemma_step_refl(env, st);
    if let Ok((u, st1)) = inference::infer(bk, env, types, t.kids[0], st) {
        inference::lemma_frame_next(bk, env, types, t.kids[0], st, st);
        let a = bk.ctrs[h.arms[0].0->0];
        let adt = bk.adts[a];
        let m = scheme::fresh_map(adt.vars, st1.next);
        let at = inference::adt_type(adt);
        let st2 = inference::after(st1, adt.vars.len());
        frame::lemma_step_fresh(env, st, st1, adt.vars.len());
        growth::lemma_adds_refl(st2);
        growth::lemma_adds_cases(bk, known, known, env, types, adt, h, t, 0, m, st2, st2);
        if let Ok((n, st3)) = inference::infer_cases(bk, env, types, adt, h, t, 0, m, st2) {
            if let Ok((w, st4)) = infer_state::unify_in(st3, u, ty::apply(at, m), t.kids[0]) {
                growth::lemma_adds_unify(st3, u, ty::apply(at, m), t.kids[0]);
                growth::lemma_adds_trans(st1, st3, st4);
                lemma_solves_unify(r, st3, u, ty::apply(at, m), t.kids[0]);
                ty::lemma_apply_compose(at, m, r);
                lemma_sound_cases(bk, env, types, a, h, t, 0, st1.next, st, st2, r);
                lemma_sound_next(bk, env, types, t.kids[0], st, st, st4, r);
                lemma_typed_match(
                    bk,
                    g,
                    h,
                    t,
                    ty::apply(u, r),
                    ty::compose(m, r),
                    ty::apply(n, r),
                );
            }
        }
    }
}

/// An arm of a match that has a type, and those after it.
proof fn lemma_typed_case(
    bk: Bk,
    g: Givens,
    adt: Am,
    h: MatHead,
    t: Tm,
    i: int,
    m: Map<Str, Ty>,
    ts: Seq<Ty>,
    b: Ty,
    rest: Ty,
    u: Ty,
)
    requires
        0 <= i < h.arms.len(),
        1 + h.args + i < t.kids.len(),
        typing::typed(bk, typing::bound(g, h.arms[i].1, ts), t.kids[1 + h.args + i], b),
        typing::typed_cases(bk, g, adt, h, t, i + 1, m, rest),
        ts.len() == h.arms[i].1.len(),
        typing::pairs_agree(ts, inference::field_types(adt.ctrs[h.arms[i].0->0], m)),
        typing::joins(b, rest, u),
    ensures
        typing::typed_cases(bk, g, adt, h, t, i, m, u),
{
}

proof fn lemma_sound_cases(
    bk: Bk,
    env: Map<Str, Sch>,
    types: Map<Str, Sch>,
    a: Str,
    h: MatHead,
    t: Tm,
    i: int,
    first: nat,
    st0: St,
    st: St,
    r: Map<Str, Ty>,
)
    requires
        frame::clean(env, st0),
        frame::step(env, st0, st),
        inference::types_closed(types),
        inference::fields_closed(bk),
        bk.adts.contains_key(a),
        st0.next <= first,
        first + bk.adts[a].vars.len() <= st.next,
        0 <= i <= h.arms.len(),
        t.kids.len() == 1 + h.args + h.arms.len(),
        forall|j: int|
            0 <= j < h.arms.len() ==> bk.adts[a].ctrs.contains_key((#[trigger] h.arms[j]).0->0),
        forall|j: int|
            1 + h.args <= j < t.kids.len() ==> inference::checkable(
                bk,
                inference::with_names(inference::known(env, types), h.arms[j - 1 - h.args].1),
                inference::known(env, types),
                #[trigger] t.kids[j],
            ),
        solved(
            inference::infer_cases(
                bk,
                env,
                types,
                bk.adts[a],
                h,
                t,
                i,
                scheme::fresh_map(bk.adts[a].vars, first),
                st,
            ),
            r,
        ),
    ensures
        ({
            let m = scheme::fresh_map(bk.adts[a].vars, first);
            typing::typed_cases(
                bk,
                typing::givens(env, types, r),
                bk.adts[a],
                h,
                t,
                i,
                ty::compose(m, r),
                ty::apply(
                    inference::infer_cases(bk, env, types, bk.adts[a], h, t, i, m, st)->Ok_0.0,
                    r,
                ),
            )
        }),
    decreases t, 0nat, h.arms.len() - i,
{
    let g = typing::givens(env, types, r);
    let known = inference::known(env, types);
    let adt = bk.adts[a];
    let m = scheme::fresh_map(adt.vars, first);
    if i < h.arms.len() {
        let k = 1 + h.args + i;
        let xs = h.arms[i].1;
        let tvs = inference::new_vars(xs.len(), st.next);
        let inner = scheme::bind_all(env, inference::mono_binds(xs, tvs));
        let st1 = inference::after(st, xs.len());
        let ctr = adt.ctrs[h.arms[i].0->0];
        assert(h.arms[k - 1 - h.args] == h.arms[i]);
        assert(inference::checkable(
            bk,
            inference::with_names(known, h.arms[k - 1 - h.args].1),
            known,
            t.kids[k],
        ));
        inference::lemma_frame_arm(bk, env, types, a, h, t, i, first, st0, st);
        if let Ok((u, st2)) = inference::infer(bk, inner, types, t.kids[k], st1) {
            let ps = ty::apply_all(tvs, st2.sub);
            let fs = inference::field_types(ctr, m);
            if let Ok(st3) = inference::unify_pairs(st2, ps, fs, t.kids[k]) {
                growth::lemma_adds_refl(st3);
                growth::lemma_adds_cases(bk, known, known, env, types, adt, h, t, i + 1, m, st3, st3);
                if let Ok((rest, st4)) = inference::infer_cases(
                    bk,
                    env,
                    types,
                    adt,
                    h,
                    t,
                    i + 1,
                    m,
                    st3,
                ) {
                    if let Ok((w, st5)) = infer_state::unify_in(st4, u, rest, t.kids[k]) {
                        lemma_solves_unify(r, st4, u, rest, t.kids[k]);
                        lemma_sound_cases(bk, env, types, a, h, t, i + 1, first, st0, st3, r);
                        lemma_solves_before(r, st3, st4);
                        lemma_solves_pairs(r, st2, ps, fs, t.kids[k]);
                        lemma_solves_apply_all(r, st2.sub, tvs);
                        lemma_fields(ctr, m, r);
                        lemma_sound(bk, inner, types, t.kids[k], st1, r);
                        typing::lemma_givens_bound(env, types, r, xs, tvs);
                        lemma_typed_case(
                            bk,
                            g,
                            adt,
                            h,
                            t,
                            i,
                            ty::compose(m, r),
                            ty::apply_all(tvs, r),
                            ty::apply(u, r),
                            ty::apply(rest, r),
                            ty::apply(w, r),
                        );
                    }
                }
            }
        }
    }
}

/// The types of the fields under a substitution.
proof fn lemma_fields(ctr: Cm, m: Map<Str, Ty>, r: Map<Str, Ty>)
    ensures
        ty::apply_all(inference::field_types(ctr, m), r) == inference::field_types(
            ctr,
            ty::compose(m, r),
        ),
{
    let fs = inference::field_types(ctr, m);
    assert forall|i: int| 0 <= i < fs.len() implies ty::apply(#[trigger] fs[i], r) == ty::apply(
        ctr.fields[i].typ,
        ty::compose(m, r),
    ) by {
        ty::lemma_apply_compose(ctr.fields[i].typ, m, r);
    }
    assert(ty::apply_all(fs, r) =~= inference::field_types(ctr, ty::compose(m, r)));
}

proof fn lemma_sound_fan(
    bk: Bk,
    env: Map<Str, Sch>,
    types: Map<Str, Sch>,
    t: Tm,
    st: St,
    r: Map<Str, Ty>,
)
    requires
        frame::clean(env, st),
        inference::types_closed(types),
        inference::fields_closed(bk),
        t.head is Fan,
        inference::checkable(bk, inference::known(env, types), inference::known(env, types), t),
        solved(inference::infer_raw(bk, env, types, t, st), r),
    ensures
        typing::typed(
            bk,
            typing::givens(env, types, r),
            t,
            ty::apply(inference::infer_raw(bk, env, types, t, st)->Ok_0.0, r),
        ),
    decreases t, 0nat, t.kids.len() + 1,
{
    let g = typing::givens(env, types, r);
    let known = inference::known(env, types);
    frame::lemma_step_refl(env, st);
    if let Ok((ts, st1)) = inference::infer_list(bk, env, types, t, 0, st, Seq::empty()) {
        lemma_sound_list(bk, env, types, t, 0, st, st, Seq::empty(), r);
        let u = Ty { head: Head::Tup, kids: ts };
        ty::lemma_apply_kids(u, r);
        assert forall|i: int| 0 <= i < t.kids.len() implies typing::typed(
            bk,
            g,
            #[trigger] t.kids[i],
            ty::apply(u, r).kids[i],
        ) by {
            assert(ty::apply(u, r).kids[i] == ty::apply(ts[i], r));
        }
    }
}

proof fn lemma_sound_list(
    bk: Bk,
    env: Map<Str, Sch>,
    types: Map<Str, Sch>,
    t: Tm,
    i: int,
    st0: St,
    st: St,
    done: Seq<Ty>,
    r: Map<Str, Ty>,
)
    requires
        frame::clean(env, st0),
        frame::step(env, st0, st),
        inference::types_closed(types),
        inference::fields_closed(bk),
        0 <= i <= t.kids.len(),
        done.len() == i,
        forall|j: int|
            0 <= j < t.kids.len() ==> inference::checkable(
                bk,
                inference::known(env, types),
                inference::known(env, types),
                #[trigger] t.kids[j],
            ),
        forall|j: int|
            0 <= j < i ==> typing::typed(
                bk,
                typing::givens(env, types, r),
                t.kids[j],
                ty::apply(#[trigger] done[j], r),
            ),
        match inference::infer_list(bk, env, types, t, i, st, done) {
            Ok((ts, st1)) => typing::solves(r, st1.sub),
            Err(_) => false,
        },
    ensures
        ({
            let ts = inference::infer_list(bk, env, types, t, i, st, done)->Ok_0.0;
            &&& ts.len() == t.kids.len()
            &&& forall|j: int|
                0 <= j < ts.len() ==> typing::typed(
                    bk,
                    typing::givens(env, types, r),
                    t.kids[j],
                    ty::apply(#[trigger] ts[j], r),
                )
        }),
    decreases t, 0nat, t.kids.len() - i,
{
    let known = inference::known(env, types);
    if i < t.kids.len() {
        assert(inference::checkable(bk, known, known, t.kids[i]));
        inference::lemma_frame_next(bk, env, types, t.kids[i], st0, st);
        if let Ok((u, st1)) = inference::infer(bk, env, types, t.kids[i], st) {
            let d1 = done.push(u);
            growth::lemma_adds_refl(st1);
            growth::lemma_adds_list(bk, known, known, env, types, t, i + 1, st1, st1, d1);
            if let Ok((ts, st2)) = inference::infer_list(bk, env, types, t, i + 1, st1, d1) {
                lemma_sound_next(bk, env, types, t.kids[i], st0, st, st2, r);
                lemma_sound_list(bk, env, types, t, i + 1, st0, st1, d1, r);
            }
        }
    }
}

/// A switch whose argument and arms have types.
proof fn lemma_typed_switch(
    bk: Bk,
    g: Givens,
    h: SwtHead,
    t: Tm,
    a: Ty,
    ts: Seq<Ty>,
    s: Ty,
    u: Ty,
)
    requires
        t.head == Th::Swt(h),
        t.kids.len() > h.args + 2,
        typing::typed(bk, g, t.kids[0], a),
        unify_laws::agree(a, ty::leaf(Head::U24)),
        typing::joins_all(s, ts, u),
        typing::typed(
            bk,
            typing::bound(g, seq![h.pred], seq![ty::leaf(Head::U24)]),
            t.kids.last(),
            s,
        ),
        ts.len() == t.kids.len() - h.args - 2,
        forall|j: int|
            0 <= j < ts.len() ==> typing::typed(
                bk,
                g,
                t.kids[h.args + ts.len() - j],
                #[trigger] ts[j],
            ),
    ensures
        typing::typed(bk, g, t, u),
{
    assert(typing::typed_switch(bk, g, h, t, u));
}

proof fn lemma_sound_switch(
    bk: Bk,
    env: Map<Str, Sch>,
    types: Map<Str, Sch>,
    h: SwtHead,
    t: Tm,
    st: St,
    r: Map<Str, Ty>,
)
    requires
        frame::clean(env, st),
        inference::types_closed(types),
        inference::fields_closed(bk),
        t.head == Th::Swt(h),
        inference::checkable(bk, inference::known(env, types), inference::known(env, types), t),
        solved(inference::infer_raw(bk, env, types, t, st), r),
    ensures
        typing::typed(
            bk,
            typing::givens(env, types, r),
            t,
            ty::apply(inference::infer_raw(bk, env, types, t, st)->Ok_0.0, r),
        ),
    decreases t, 0nat, t.kids.len(),
{
    let g = typing::givens(env, types, r);
    let known = inference::known(env, types);
    let u24 = ty::leaf(Head::U24);
    frame::lemma_step_refl(env, st);
    inference::lemma_frame_next(bk, env, types, t.kids[0], st, st);
    if let Ok((a, st1)) = inference::infer(bk, env, types, t.kids[0], st) {
        inference::lemma_within_leaf(Head::U24, env, st, st1.next);
        frame::lemma_step_unify(env, st, st1, a, u24, t.kids[0]);
        growth::lemma_adds_unify(st1, a, u24, t.kids[0]);
        if let Ok((_, st2)) = infer_state::unify_in(st1, a, u24, t.kids[0]) {
            let n = t.kids.len() - h.args - 2;
            let none = Seq::<Ty>::empty();
            inference::lemma_frame_numbers(bk, env, types, h, t, n, st, st2, none);
            growth::lemma_adds_refl(st2);
            growth::lemma_adds_numbers(bk, known, known, env, types, h, t, n, st2, st2, none);
            if let Ok((ts, st3)) = inference::infer_numbers(bk, env, types, h, t, n, st2, none) {
                let xs = seq![h.pred];
                let bs = inference::mono_binds(xs, seq![u24]);
                let inner = scheme::bind_all(env, bs);
                let more = inference::known(inner, types);
                let k = t.kids.len() - 1;
                inference::lemma_within_leaf(Head::U24, env, st, st3.next);
                frame::lemma_mono_bindable(env, st, st3, u24);
                inference::lemma_frame_inner(bk, env, types, bs, xs, t.kids[k], st, st3);
                growth::lemma_adds_infer(bk, more, more, inner, types, t.kids[k], st3);
                if let Ok((s, st4)) = inference::infer(bk, inner, types, t.kids[k], st3) {
                    if let Ok((w, st5)) = inference::unify_each(st4, s, ts, t) {
                        lemma_solves_each(r, st4, s, ts, t);
                        lemma_sound(bk, inner, types, t.kids[k], st3, r);
                        lemma_solves_before(r, st3, st4);
                        lemma_sound_numbers(bk, env, types, h, t, n, st, st2, none, r);
                        lemma_solves_before(r, st2, st3);
                        lemma_solves_unify(r, st1, a, u24, t.kids[0]);
                        lemma_apply_leaf(Head::U24, r);
                        lemma_sound(bk, env, types, t.kids[0], st, r);
                        typing::lemma_givens_bound(env, types, r, xs, seq![u24]);
                        assert(ty::apply_all(seq![u24], r) =~= seq![u24]);
                        lemma_typed_switch(
                            bk,
                            g,
                            h,
                            t,
                            ty::apply(a, r),
                            ty::apply_all(ts, r),
                            ty::apply(s, r),
                            ty::apply(w, r),
                        );
                    }
                }
            }
        }
    }
}

proof fn lemma_sound_numbers(
    bk: Bk,
    env: Map<Str, Sch>,
    types: Map<Str, Sch>,
    h: SwtHead,
    t: Tm,
    n: int,
    st0: St,
    st: St,
    done: Seq<Ty>,
    r: Map<Str, Ty>,
)
    requires
        frame::clean(env, st0),
        frame::step(env, st0, st),
        inference::types_closed(types),
        inference::fields_closed(bk),
        0 <= n,
        n + done.len() == t.kids.len() - h.args - 2,
        forall|j: int|
            1 + h.args <= j < t.kids.len() - 1 ==> inference::checkable(
                bk,
                inference::known(env, types),
                inference::known(env, types),
                #[trigger] t.kids[j],
            ),
        forall|j: int|
            0 <= j < done.len() ==> typing::typed(
                bk,
                typing::givens(env, types, r),
                t.kids[t.kids.len() - 2 - j],
                ty::apply(#[trigger] done[j], r),
            ),
        match inference::infer_numbers(bk, env, types, h, t, n, st, done) {
            Ok((ts, st1)) => typing::solves(r, st1.sub),
            Err(_) => false,
        },
    ensures
        ({
            let ts = inference::infer_numbers(bk, env, types, h, t, n, st, done)->Ok_0.0;
            &&& ts.len() == t.kids.len() - h.args - 2
            &&& forall|j: int|
                0 <= j < ts.len() ==> typing::typed(
                    bk,
                    typing::givens(env, types, r),
                    t.kids[t.kids.len() - 2 - j],
                    ty::apply(#[trigger] ts[j], r),
                )
        }),
    decreases t, 0nat, n,
{
    let known = inference::known(env, types);
    if n > 0 {
        let k = h.args + n;
        assert(inference::checkable(bk, known, known, t.kids[k]));
        inference::lemma_frame_next(bk, env, types, t.kids[k], st0, st);
        if let Ok((u, st1)) = inference::infer(bk, env, types, t.kids[k], st) {
            let d1 = done.push(u);
            growth::lemma_adds_refl(st1);
            growth::lemma_adds_numbers(bk, known, known, env, types, h, t, n - 1, st1, st1, d1);
            if let Ok((ts, st2)) = inference::infer_numbers(bk, env, types, h, t, n - 1, st1, d1) {
                lemma_sound_next(bk, env, types, t.kids[k], st0, st, st2, r);
                lemma_sound_numbers(bk, env, types, h, t, n - 1, st0, st1, d1, r);
            }
        }
    }
}

/* Laws */

/// A term has the type that inference finds for it, under every substitution of
/// types for variables that does what was found out.
pub proof fn law_infer_sound(
    bk: Bk,
    env: Map<Str, Sch>,
    types: Map<Str, Sch>,
    t: Tm,
    st: St,
    r: Map<Str, Ty>,
)
    requires
        frame::clean(env, st),
        inference::types_closed(types),
        inference::fields_closed(bk),
        inference::checkable(bk, inference::known(env, types), inference::known(env, types), t),
    ensures
        match inference::infer(bk, env, types, t, st) {
            Ok((u, st1)) => typing::solves(r, st1.sub) ==> typing::typed(
                bk,
                typing::givens(env, types, r),
                t,
                ty::apply(u, r),
            ),
            Err(_) => true,
        },
{
    if let Ok((u, st1)) = inference::infer(bk, env, types, t, st) {
        if typing::solves(r, st1.sub) {
            lemma_sound(bk, env, types, t, st, r);
        }
    }
}

} // verus!
