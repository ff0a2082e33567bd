//! How the types of a group of functions are found: the bodies one after the
//! other, and then each with the variable of its function.

use crate::diagnostics::{Diags, Msg, Org, Severity};
use crate::fun::book::Bk;
use crate::fun::check::infer_state;
use crate::fun::check::infer_state::{Er, St};
use crate::fun::check::inference;
use crate::fun::check::inference_laws;
use crate::fun::check::scheme::Sch;
use crate::fun::check::type_check;
use crate::fun::check::type_check::Types;
use crate::fun::check::unify;
use crate::fun::check::unify::Clash;
use crate::fun::term;
use crate::fun::term::Tm;
use crate::fun::ty;
use crate::fun::ty::{Head, Ty};
use crate::name;
use crate::name::Str;
use vstd::prelude::*;

verus! {

/// The bodies of the functions of a group.
pub open spec fn bodies(bk: Bk, group: Seq<Str>) -> Seq<Tm> {
    Seq::new(group.len(), |i: int| term::body_of(bk.defs[group[i]]))
}

/// The environment in which each function has the variable of its place as its
/// type.
pub open spec fn with_group(env: Map<Str, Sch>, group: Seq<Str>) -> Map<Str, Sch> {
    inference_laws::with_new_vars(
        env,
        Seq::new(group.len(), |i: int| Some(group[i])),
        St { sub: Map::empty(), next: 0 },
    )
}

proof fn lemma_with_group(env: Map<Str, Sch>, group: Seq<Str>)
    ensures
        with_group(env, group) == type_check::group_env(env, group),
{
    let xs = Seq::new(group.len(), |i: int| Some(group[i]));
    assert(xs =~= type_check::some_names(group));
    inference_laws::lemma_with_new_vars(env, xs, St { sub: Map::empty(), next: 0 });
}

proof fn lemma_bodies(
    bk: Bk,
    env: Map<Str, Sch>,
    types: Types,
    group: Seq<Str>,
    i: int,
    sts: Seq<St>,
    done: Seq<Ty>,
)
    requires
        0 <= i <= group.len(),
        inference_laws::is_inferred_in_turn(
            bk,
            with_group(env, group),
            types,
            bodies(bk, group).take(i),
            done,
            sts,
        ),
    ensures
        match type_check::infer_bodies(bk, env, types, group, i, sts.last(), done) {
            Ok((ts, st1)) => inference_laws::infers_all(
                bk,
                with_group(env, group),
                types,
                bodies(bk, group),
                ts,
                sts[0],
                st1,
            ),
            Err((x, e)) => fails_first(bk, env, types, group, sts[0], x, e),
        },
    decreases group.len() - i,
{
    let ks = bodies(bk, group);
    let inner = with_group(env, group);
    lemma_with_group(env, group);
    if i < group.len() {
        match inference::infer(bk, inner, types, ks[i], sts.last()) {
            Ok((u, st1)) => {
                let (ts1, sts1) = (done.push(u), sts.push(st1));
                let (k0, k1) = (ks.take(i), ks.take(i + 1));
                assert forall|j: int|
                    #![trigger ts1[j]]
                    0 <= j < k1.len() implies inference::infer(bk, inner, types, k1[j], sts1[j])
                    == Ok::<_, Er>((ts1[j], sts1[j + 1])) by {
                    if j < i {
                        assert(done[j] == ts1[j]);
                        assert(k0[j] == k1[j]);
                    }
                }
                assert(sts1[0] == sts[0]);
                lemma_bodies(bk, env, types, group, i + 1, sts1, ts1);
            },
            Err(e) => {
                assert(inference_laws::infers_all(
                    bk,
                    inner,
                    types,
                    ks.take(i),
                    done,
                    sts[0],
                    sts.last(),
                ));
                assert(fails_first(bk, env, types, group, sts[0], group[i], e));
            },
        }
    } else {
        assert(ks.take(i) =~= ks);
        assert(inference_laws::infers_all(bk, inner, types, ks, done, sts[0], sts.last()));
    }
}

/// The bodies before that of the function are inferred, and that one fails.
pub open spec fn fails_first(
    bk: Bk,
    env: Map<Str, Sch>,
    types: Types,
    group: Seq<Str>,
    st: St,
    x: Str,
    e: Er,
) -> bool {
    exists|k: int, ts: Seq<Ty>, st1: St|
        {
            &&& 0 <= k < group.len()
            &&& group[k] == x
            &&& #[trigger] inference_laws::infers_all(
                bk,
                with_group(env, group),
                types,
                bodies(bk, group).take(k),
                ts,
                st,
                st1,
            )
            &&& inference::infer(
                bk,
                with_group(env, group),
                types,
                term::body_of(bk.defs[x]),
                st1,
            ) == Err::<(Ty, St), _>(e)
        }
}

/// The bodies of a group are inferred one after the other, each function of the
/// group with a new variable as its type.
pub proof fn law_group_bodies(bk: Bk, env: Map<Str, Sch>, types: Types, group: Seq<Str>)
    ensures
        ({
            let st = St { sub: Map::empty(), next: group.len() };
            match type_check::infer_bodies(bk, env, types, group, 0, st, Seq::empty()) {
                Ok((ts, st1)) => inference_laws::infers_all(
                    bk,
                    with_group(env, group),
                    types,
                    bodies(bk, group),
                    ts,
                    st,
                    st1,
                ),
                Err((x, e)) => fails_first(bk, env, types, group, st, x, e),
            }
        }),
{
    let st = St { sub: Map::empty(), next: group.len() };
    let (none, sts) = (Seq::<Ty>::empty(), seq![st]);
    assert(inference_laws::is_inferred_in_turn(
        bk,
        with_group(env, group),
        types,
        bodies(bk, group).take(0),
        none,
        sts,
    ));
    lemma_bodies(bk, env, types, group, 0, sts, none);
}

/// The variable of each of the first functions, as it is by then, unifies with the
/// type of its body.
pub open spec fn is_unified_run(
    inf: Seq<Ty>,
    n: int,
    ts: Seq<Ty>,
    ss: Seq<Map<Str, Ty>>,
) -> bool {
    &&& 0 <= n <= inf.len()
    &&& ts.len() == n
    &&& ss.len() == n + 1
    &&& forall|i: int|
        #![trigger ts[i]]
        0 <= i < n ==> unify::unify(
            ss[i],
            ty::apply(ty::leaf(Head::Var(name::base26(i as nat))), ss[i]),
            inf[i],
        ) == Ok::<_, Clash>((ts[i], ss[i + 1]))
}

/// All of them unify, from one substitution to another.
pub open spec fn unifies_all(
    inf: Seq<Ty>,
    ts: Seq<Ty>,
    s: Map<Str, Ty>,
    s1: Map<Str, Ty>,
) -> bool {
    exists|ss: Seq<Map<Str, Ty>>|
        #![trigger is_unified_run(inf, inf.len() as int, ts, ss)]
        is_unified_run(inf, inf.len() as int, ts, ss) && ss[0] == s && ss.last() == s1
}

/// The first one that does not unify is the error, in the body of that function.
pub open spec fn unifies_not_all(
    bk: Bk,
    group: Seq<Str>,
    inf: Seq<Ty>,
    s: Map<Str, Ty>,
    e: Er,
) -> bool {
    exists|n: int, ts: Seq<Ty>, ss: Seq<Map<Str, Ty>>|
        {
            let tv = ty::apply(ty::leaf(Head::Var(name::base26(n as nat))), ss[n]);
            &&& #[trigger] is_unified_run(inf, n, ts, ss)
            &&& n < inf.len()
            &&& ss[0] == s
            &&& unify::unify(ss[n], tv, inf[n]) == Err::<(Ty, Map<Str, Ty>), _>(e.cause)
            &&& inference_laws::is_about(e, term::body_of(bk.defs[group[n]]), tv, inf[n])
        }
}

proof fn lemma_unified(
    bk: Bk,
    group: Seq<Str>,
    inf: Seq<Ty>,
    i: int,
    next: nat,
    ss: Seq<Map<Str, Ty>>,
    done: Seq<Ty>,
)
    requires
        inf.len() == group.len(),
        is_unified_run(inf, i, done, ss),
    ensures
        match type_check::unify_bodies(bk, group, inf, i, St { sub: ss.last(), next }, done) {
            Ok((ts, st1)) => unifies_all(inf, ts, ss[0], st1.sub) && st1.next == next,
            Err(e) => unifies_not_all(bk, group, inf, ss[0], e),
        },
    decreases group.len() - i,
{
    let st = St { sub: ss.last(), next };
    if i < group.len() {
        let tv = ty::apply(ty::ty_var(name::base26(i as nat)), st.sub);
        let body = term::body_of(bk.defs[group[i]]);
        assert(ss[i] == ss.last());
        match infer_state::unify_in(st, tv, inf[i], body) {
            Ok((t, st1)) => {
                let (ts1, ss1) = (done.push(t), ss.push(st1.sub));
                assert forall|j: int|
                    #![trigger ts1[j]]
                    0 <= j < i + 1 implies unify::unify(
                    ss1[j],
                    ty::apply(ty::leaf(Head::Var(name::base26(j as nat))), ss1[j]),
                    inf[j],
                ) == Ok::<_, Clash>((ts1[j], ss1[j + 1])) by {
                    if j < i {
                        assert(done[j] == ts1[j]);
                    }
                }
                assert(is_unified_run(inf, i + 1, ts1, ss1));
                assert(ss1[0] == ss[0]);
                lemma_unified(bk, group, inf, i + 1, next, ss1, ts1);
            },
            Err(e) => {
                assert(is_unified_run(inf, i, done, ss) && inference_laws::is_about(
                    e,
                    body,
                    tv,
                    inf[i],
                ));
                assert(unifies_not_all(bk, group, inf, ss[0], e));
            },
        }
    } else {
        assert(unifies_all(inf, done, ss[0], ss.last()));
    }
}

/// The types of the bodies are unified with the variables of their own functions,
/// one after the other.
pub proof fn law_group_unified(bk: Bk, group: Seq<Str>, inf: Seq<Ty>, st: St)
    requires
        inf.len() == group.len(),
    ensures
        match type_check::unify_bodies(bk, group, inf, 0, st, Seq::empty()) {
            Ok((ts, st1)) => unifies_all(inf, ts, st.sub, st1.sub) && st1.next == st.next,
            Err(e) => unifies_not_all(bk, group, inf, st.sub, e),
        },
{
    let (none, ss) = (Seq::<Ty>::empty(), seq![st.sub]);
    assert(is_unified_run(inf, 0, none, ss));
    assert(St { sub: ss.last(), next: st.next } == st);
    lemma_unified(bk, group, inf, 0, st.next, ss, none);
}

/// What is reported of a group whose types are not found. If a body cannot be
/// inferred, this is an error in its function, after what was reported before. If
/// the type of a body does not unify with the variable of its function, this is an
/// error in the program and all that is reported, and what was reported before is
/// left.
pub proof fn law_group_errors(
    bk: Bk,
    env: Map<Str, Sch>,
    types: Types,
    group: Seq<Str>,
    ds: Diags,
)
    ensures
        ({
            let st = St { sub: Map::empty(), next: group.len() };
            let found = type_check::inferred_group(bk, env, types, group, ds);
            match type_check::infer_bodies(bk, env, types, group, 0, st, Seq::empty()) {
                Err((x, e)) => match found {
                    Err((reported, left)) => {
                        let d = reported.items.last();
                        &&& reported.items == ds.items.push(d)
                        &&& reported.config == ds.config
                        &&& d.message == Msg::Type(e)
                        &&& d.severity == Severity::Error
                        &&& d.origin == Org::Function(x)
                        &&& d.source == bk.defs[x].source
                        &&& left.items.len() == 0
                    },
                    Ok(_) => false,
                },
                Ok((inf, st1)) => match type_check::unify_bodies(
                    bk,
                    group,
                    inf,
                    0,
                    st1,
                    Seq::empty(),
                ) {
                    Err(e) => match found {
                        Err((reported, left)) => {
                            let d = reported.items[0];
                            &&& reported.items.len() == 1
                            &&& d.message == Msg::Type(e)
                            &&& d.severity == Severity::Error
                            &&& d.origin == Org::Book
                            &&& left == ds
                        },
                        Ok(_) => false,
                    },
                    Ok(_) => true,
                },
            }
        }),
{
}

/// The groups are inferred one after the other, each with the types that are
/// stored by then, and the first one that fails is what is reported.
pub proof fn law_groups_in_turn(bk: Bk, types: Types, gs: Seq<Seq<Str>>, k: int, ds: Diags)
    ensures
        0 <= k < gs.len() ==> match type_check::inferred_group(
            bk,
            Map::empty(),
            types,
            gs[k],
            ds,
        ) {
            Ok(types1) => type_check::inferred_groups(bk, types, gs, k, ds)
                == type_check::inferred_groups(bk, types1, gs, k + 1, ds),
            Err(e) => type_check::inferred_groups(bk, types, gs, k, ds) == Err::<Types, _>(e),
        },
        k == gs.len() ==> type_check::inferred_groups(bk, types, gs, k, ds) == Ok::<
            _,
            (Diags, Diags),
        >(types),
{
}

} // verus!
