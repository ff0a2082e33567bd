//! The types of a program's functions are types of their bodies.

use crate::diagnostics::Diags;
use crate::fun::book::Bk;
use crate::fun::check::frame;
use crate::fun::check::growth;
use crate::fun::check::infer_state;
use crate::fun::check::infer_state::St;
use crate::fun::check::inference;
use crate::fun::check::scheme::Sch;
use crate::fun::check::soundness;
use crate::fun::check::type_check;
use crate::fun::check::type_check::Types;
use crate::fun::check::typing;
use crate::fun::check::unify;
use crate::fun::term;
use crate::fun::ty;
use crate::fun::ty::Ty;
use crate::name;
use crate::name::Str;
use vstd::prelude::*;

verus! {

/// The body of a function of a group has the type that was inferred for it,
/// and that joins with the type that the group uses the function at.
pub open spec fn is_typed_body(
    bk: Bk,
    outer: Map<Str, Sch>,
    types: Types,
    group: Seq<Str>,
    inf: Seq<Ty>,
    ts: Seq<Ty>,
    r: Map<Str, Ty>,
    i: int,
) -> bool {
    let g = typing::givens(type_check::group_env(outer, group), types, r);
    let body = term::body_of(bk.defs[group[i]]);
    &&& typing::typed(bk, g, body, ty::apply(inf[i], r))
    &&& typing::joins(r[name::base26(i as nat)], ty::apply(inf[i], r), ty::apply(ts[i], r))
}

/// The bodies of a group have the types that are inferred for them in an
/// environment.
pub open spec fn is_typed_group(
    bk: Bk,
    outer: Map<Str, Sch>,
    types: Types,
    group: Seq<Str>,
) -> bool {
    let st0 = type_check::group_state(group);
    match type_check::infer_bodies(bk, outer, types, group, 0, st0, Seq::empty()) {
        Ok((inf, st)) => match type_check::unify_bodies(bk, group, inf, 0, st, Seq::empty()) {
            Ok((ts, st1)) => forall|r: Map<Str, Ty>, i: int|
                typing::solves(r, st1.sub) && 0 <= i < group.len() ==> #[trigger] is_typed_body(
                    bk,
                    outer,
                    types,
                    group,
                    inf,
                    ts,
                    r,
                    i,
                ),
            Err(_) => true,
        },
        Err(_) => true,
    }
}

/// The bodies of the groups from one on have the types that are inferred for
/// them, each group with the types that are known by then.
pub open spec fn is_typed_groups(
    bk: Bk,
    types: Types,
    gs: Seq<Seq<Str>>,
    k: int,
    ds: Diags,
) -> bool
    decreases gs.len() - k,
{
    if 0 <= k < gs.len() {
        is_typed_group(bk, Map::empty(), types, gs[k]) && match type_check::inferred_group(
            bk,
            Map::empty(),
            types,
            gs[k],
            ds,
        ) {
            Ok(types1) => is_typed_groups(bk, types1, gs, k + 1, ds),
            Err(_) => true,
        }
    } else {
        true
    }
}

proof fn lemma_adds_bodies(
    bk: Bk,
    outer: Map<Str, Sch>,
    types: Types,
    group: Seq<Str>,
    i: int,
    st: St,
    done: Seq<Ty>,
)
    requires
        unify::idempotent(st.sub),
        type_check::group_ready(bk, outer, types, group),
        0 <= i <= group.len(),
    ensures
        match type_check::infer_bodies(bk, outer, types, group, i, st, done) {
            Ok((inf, st1)) => growth::adds(st, st1),
            Err(_) => true,
        },
    decreases group.len() - i,
{
    let env = type_check::group_env(outer, group);
    let known = inference::known(env, types);
    growth::lemma_adds_refl(st);
    if i < group.len() {
        let body = term::body_of(bk.defs[group[i]]);
        growth::lemma_adds_infer(bk, known, known, env, types, body, st);
        if let Ok((t, st1)) = inference::infer(bk, env, types, body, st) {
            lemma_adds_bodies(bk, outer, types, group, i + 1, st1, done.push(t));
            if let Ok((inf, st2)) = type_check::infer_bodies(
                bk,
                outer,
                types,
                group,
                i + 1,
                st1,
                done.push(t),
            ) {
                growth::lemma_adds_trans(st, st1, st2);
            }
        }
    }
}

proof fn lemma_sound_bodies(
    bk: Bk,
    outer: Map<Str, Sch>,
    types: Types,
    group: Seq<Str>,
    i: int,
    st: St,
    done: Seq<Ty>,
    r: Map<Str, Ty>,
)
    requires
        type_check::group_ready(bk, outer, types, group),
        frame::step(type_check::group_env(outer, group), type_check::group_state(group), st),
        0 <= i <= group.len(),
        done.len() == i,
        forall|j: int|
            0 <= j < i ==> typing::typed(
                bk,
                typing::givens(type_check::group_env(outer, group), types, r),
                term::body_of(bk.defs[group[j]]),
                ty::apply(#[trigger] done[j], r),
            ),
        match type_check::infer_bodies(bk, outer, types, group, i, st, done) {
            Ok((inf, st1)) => typing::solves(r, st1.sub),
            Err(_) => false,
        },
    ensures
        ({
            let inf = type_check::infer_bodies(bk, outer, types, group, i, st, done)->Ok_0.0;
            &&& inf.len() == group.len()
            &&& forall|j: int|
                0 <= j < group.len() ==> typing::typed(
                    bk,
                    typing::givens(type_check::group_env(outer, group), types, r),
                    term::body_of(bk.defs[group[j]]),
                    ty::apply(#[trigger] inf[j], r),
                )
        }),
    decreases group.len() - i,
{
    let env = type_check::group_env(outer, group);
    let st0 = type_check::group_state(group);
    if i < group.len() {
        let body = term::body_of(bk.defs[group[i]]);
        type_check::lemma_group_clean(outer, group);
        inference::lemma_steps(env, st0, st);
        inference::lemma_frame_next(bk, env, types, body, st0, st);
        if let Ok((t, st1)) = inference::infer(bk, env, types, body, st) {
            let d1 = done.push(t);
            lemma_adds_bodies(bk, outer, types, group, i + 1, st1, d1);
            if let Ok((inf, st2)) = type_check::infer_bodies(bk, outer, types, group, i + 1, st1, d1) {
                soundness::lemma_solves_before(r, st1, st2);
                soundness::law_infer_sound(bk, env, types, body, st, r);
                lemma_sound_bodies(bk, outer, types, group, i + 1, st1, d1, r);
            }
        }
    }
}

/// What solves the types after the bodies are unified solves them before.
proof fn lemma_unified_before(
    bk: Bk,
    group: Seq<Str>,
    inf: Seq<Ty>,
    i: int,
    st: St,
    done: Seq<Ty>,
    r: Map<Str, Ty>,
)
    requires
        unify::idempotent(st.sub),
        0 <= i <= group.len(),
        match type_check::unify_bodies(bk, group, inf, i, st, done) {
            Ok((ts, st1)) => typing::solves(r, st1.sub),
            Err(_) => false,
        },
    ensures
        typing::solves(r, st.sub),
    decreases group.len() - i,
{
    if i < group.len() {
        let body = term::body_of(bk.defs[group[i]]);
        let tv = ty::apply(ty::ty_var(name::base26(i as nat)), st.sub);
        growth::lemma_adds_unify(st, tv, inf[i], body);
        if let Ok((t, st1)) = infer_state::unify_in(st, tv, inf[i], body) {
            lemma_unified_before(bk, group, inf, i + 1, st1, done.push(t), r);
            soundness::lemma_solves_before(r, st, st1);
        }
    }
}

proof fn lemma_unified_bodies(
    bk: Bk,
    group: Seq<Str>,
    inf: Seq<Ty>,
    i: int,
    st: St,
    done: Seq<Ty>,
    r: Map<Str, Ty>,
)
    requires
        unify::idempotent(st.sub),
        0 <= i <= group.len(),
        done.len() == i,
        forall|j: int|
            0 <= j < i ==> typing::joins(
                r[name::base26(j as nat)],
                ty::apply(inf[j], r),
                ty::apply(#[trigger] done[j], r),
            ),
        match type_check::unify_bodies(bk, group, inf, i, st, done) {
            Ok((ts, st1)) => typing::solves(r, st1.sub),
            Err(_) => false,
        },
    ensures
        ({
            let ts = type_check::unify_bodies(bk, group, inf, i, st, done)->Ok_0.0;
            &&& ts.len() == group.len()
            &&& forall|j: int|
                0 <= j < group.len() ==> typing::joins(
                    r[name::base26(j as nat)],
                    ty::apply(inf[j], r),
                    ty::apply(#[trigger] ts[j], r),
                )
        }),
    decreases group.len() - i,
{
    if i < group.len() {
        let body = term::body_of(bk.defs[group[i]]);
        let x = ty::ty_var(name::base26(i as nat));
        let tv = ty::apply(x, st.sub);
        growth::lemma_adds_unify(st, tv, inf[i], body);
        if let Ok((t, st1)) = infer_state::unify_in(st, tv, inf[i], body) {
            lemma_unified_before(bk, group, inf, i + 1, st1, done.push(t), r);
            soundness::lemma_solves_unify(r, st, tv, inf[i], body);
            soundness::lemma_solves_apply(r, st.sub, x);
            assert(ty::apply(x, r) == r[name::base26(i as nat)]);
            lemma_unified_bodies(bk, group, inf, i + 1, st1, done.push(t), r);
        }
    }
}

/// Where the types of a group of functions can be inferred, each body has the
/// type that was inferred for it, and this joins with the type that the
/// functions of the group use each other at.
pub proof fn law_group_typed(bk: Bk, outer: Map<Str, Sch>, types: Types, group: Seq<Str>)
    requires
        type_check::group_ready(bk, outer, types, group),
    ensures
        is_typed_group(bk, outer, types, group),
{
    let env = type_check::group_env(outer, group);
    let st0 = type_check::group_state(group);
    let none = Seq::<Ty>::empty();
    type_check::lemma_group_clean(outer, group);
    frame::lemma_step_refl(env, st0);
    lemma_adds_bodies(bk, outer, types, group, 0, st0, none);
    if let Ok((inf, st)) = type_check::infer_bodies(bk, outer, types, group, 0, st0, none) {
        if let Ok((ts, st1)) = type_check::unify_bodies(bk, group, inf, 0, st, none) {
            assert forall|r: Map<Str, Ty>, i: int|
                typing::solves(r, st1.sub) && 0 <= i < group.len() implies #[trigger] is_typed_body(
                bk,
                outer,
                types,
                group,
                inf,
                ts,
                r,
                i,
            ) by {
                lemma_unified_before(bk, group, inf, 0, st, none, r);
                lemma_sound_bodies(bk, outer, types, group, 0, st0, none, r);
                lemma_unified_bodies(bk, group, inf, 0, st, none, r);
                assert(typing::typed(
                    bk,
                    typing::givens(env, types, r),
                    term::body_of(bk.defs[group[i]]),
                    ty::apply(inf[i], r),
                ));
                assert(typing::joins(
                    r[name::base26(i as nat)],
                    ty::apply(inf[i], r),
                    ty::apply(ts[i], r),
                ));
            }
        }
    }
}

} // verus!
