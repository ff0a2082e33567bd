//! What the annotations of functions do to the types that are stored: each
//! function goes by its own.

use crate::diagnostics;
use crate::diagnostics::{Diags, Msg, Org, Severity};
use crate::fun::book::Bk;
use crate::fun::check::infer_state;
use crate::fun::check::infer_state::St;
use crate::fun::check::inference;
use crate::fun::check::rec_groups;
use crate::fun::check::scheme;
use crate::fun::check::scheme::Sch;
use crate::fun::check::specialize;
use crate::fun::check::specialize::Unfit;
use crate::fun::check::specialize_laws;
use crate::fun::check::stored_types;
use crate::fun::check::type_check;
use crate::fun::check::type_check::Types;
use crate::fun::term;
use crate::fun::ty;
use crate::fun::ty::Ty;
use crate::name;
use crate::name::Str;
use crate::name_graph;
use vstd::prelude::*;

verus! {

/* Groups */

/// The type of a function, made to fit the annotation of that function, is
/// stored with all its variables bound.
pub open spec fn is_stored(bk: Bk, x: Str, inf: Ty, types: Types) -> bool {
    &&& types.contains_key(x)
    &&& specialize::specialized(inf, bk.defs[x].typ) == Ok::<_, Unfit>(types[x].typ)
    &&& types[x].vars == name::in_order(ty::fv(types[x].typ))
}

/// What is stored under a name stays.
pub open spec fn is_kept(types: Types, types1: Types, x: Str) -> bool {
    types1.contains_key(x) == types.contains_key(x) && types1[x] == types[x]
}

/// The first function of the group whose type cannot be made to fit its own
/// annotation.
pub open spec fn is_first_unfit(bk: Bk, group: Seq<Str>, ts: Seq<Ty>, i: int, e: Unfit) -> bool {
    &&& 0 <= i < group.len()
    &&& specialize::specialized(ts[i], bk.defs[group[i]].typ) == Err::<Ty, _>(e)
    &&& forall|j: int|
        0 <= j < i ==> #[trigger] specialize::specialized(ts[j], bk.defs[group[j]].typ) is Ok
}

proof fn lemma_specialize_all(bk: Bk, group: Seq<Str>, ts: Seq<Ty>, i: int, types: Types)
    requires
        0 <= i <= group.len(),
        group.no_duplicates(),
        forall|j: int|
            0 <= j < i ==> #[trigger] specialize::specialized(ts[j], bk.defs[group[j]].typ) is Ok,
    ensures
        match type_check::specialize_all(bk, group, ts, i, types) {
            Ok(types1) => {
                &&& forall|j: int|
                    i <= j < group.len() ==> is_stored(bk, #[trigger] group[j], ts[j], types1)
                &&& forall|x: Str|
                    (forall|j: int| i <= j < group.len() ==> #[trigger] group[j] != x)
                        ==> #[trigger] is_kept(types, types1, x)
            },
            Err((x, e)) => exists|j: int|
                #[trigger] is_first_unfit(bk, group, ts, j, e) && group[j] == x,
        },
    decreases group.len() - i,
{
    if i < group.len() {
        match specialize::specialized(ts[i], bk.defs[group[i]].typ) {
            Ok(t) => {
                let next = types.insert(group[i], scheme::closed_scheme(t));
                lemma_specialize_all(bk, group, ts, i + 1, next);
                if let Ok(types1) = type_check::specialize_all(bk, group, ts, i, types) {
                    assert forall|j: int| i <= j < group.len() implies is_stored(
                        bk,
                        #[trigger] group[j],
                        ts[j],
                        types1,
                    ) by {
                        if j == i {
                            assert(next.contains_key(group[i]));
                            assert(is_kept(next, types1, group[i]));
                        }
                    }
                    assert forall|x: Str|
                        (forall|j: int| i <= j < group.len() ==> #[trigger] group[j] != x) implies #[trigger] is_kept(
                        types,
                        types1,
                        x,
                    ) by {
                        assert(group[i] != x);
                        assert(is_kept(next, types1, x));
                    }
                }
            },
            Err(e) => {
                assert(is_first_unfit(bk, group, ts, i, e));
            },
        }
    }
}

proof fn lemma_bodies_len(
    bk: Bk,
    env: Map<Str, Sch>,
    types: Types,
    group: Seq<Str>,
    i: int,
    st: St,
    done: Seq<Ty>,
)
    requires
        0 <= i <= group.len(),
        done.len() == i,
    ensures
        match type_check::infer_bodies(bk, env, types, group, i, st, done) {
            Ok((ts, _)) => ts.len() == group.len(),
            Err(_) => true,
        },
    decreases group.len() - i,
{
    if i < group.len() {
        if let Ok((t, st1)) = inference::infer(
            bk,
            type_check::group_env(env, group),
            types,
            term::body_of(bk.defs[group[i]]),
            st,
        ) {
            lemma_bodies_len(bk, env, types, group, i + 1, st1, done.push(t));
        }
    }
}

proof fn lemma_unified_len(bk: Bk, group: Seq<Str>, inf: Seq<Ty>, i: int, st: St, done: Seq<Ty>)
    requires
        0 <= i <= group.len(),
        done.len() == i,
    ensures
        match type_check::unify_bodies(bk, group, inf, i, st, done) {
            Ok((ts, _)) => ts.len() == group.len(),
            Err(_) => true,
        },
    decreases group.len() - i,
{
    if i < group.len() {
        let tv = ty::apply(ty::ty_var(name::base26(i as nat)), st.sub);
        if let Ok((t, st1)) = infer_state::unify_in(
            st,
            tv,
            inf[i],
            term::body_of(bk.defs[group[i]]),
        ) {
            lemma_unified_len(bk, group, inf, i + 1, st1, done.push(t));
        }
    }
}

/// The types of the bodies of a group, unified with the variables of their
/// functions and as the substitution makes them in the end.
pub open spec fn body_types(
    bk: Bk,
    env: Map<Str, Sch>,
    types: Types,
    group: Seq<Str>,
) -> Option<Seq<Ty>> {
    match type_check::infer_bodies(
        bk,
        env,
        types,
        group,
        0,
        St { sub: Map::empty(), next: group.len() },
        Seq::empty(),
    ) {
        Ok((inf, st)) => match type_check::unify_bodies(bk, group, inf, 0, st, Seq::empty()) {
            Ok((ts, st1)) => Some(Seq::new(ts.len(), |i: int| ty::apply(ts[i], st1.sub))),
            Err(_) => None,
        },
        Err(_) => None,
    }
}

/// The last diagnostic is an error in a function: its type cannot be made to fit
/// the annotation.
pub open spec fn ends_unfit(ds: Diags, x: Str, e: Unfit) -> bool {
    &&& ds.items.len() > 0
    &&& ds.items.last().message == Msg::Specialize(e)
    &&& ds.items.last().origin == Org::Function(x)
    &&& ds.items.last().severity == Severity::Error
}

/// What is stored for each function of the group is its type, made to fit its own
/// annotation, and nothing else is stored.
pub open spec fn is_group_stored(
    bk: Bk,
    group: Seq<Str>,
    ts: Seq<Ty>,
    types: Types,
    types1: Types,
) -> bool {
    &&& ts.len() == group.len()
    &&& forall|i: int| 0 <= i < group.len() ==> is_stored(bk, #[trigger] group[i], ts[i], types1)
    &&& forall|x: Str| !group.contains(x) ==> #[trigger] is_kept(types, types1, x)
}

/// The report ends with the first function whose type cannot be made to fit its
/// own annotation.
pub open spec fn is_unfit_report(
    bk: Bk,
    group: Seq<Str>,
    ts: Seq<Ty>,
    ds: Diags,
    reported: Diags,
) -> bool {
    exists|i: int, e: Unfit| #[trigger]
        is_first_unfit(bk, group, ts, i, e) && ends_unfit(reported, group[i], e)
            && reported.items.last().source == bk.defs[group[i]].source
            && reported.items.drop_last() == ds.items
}

/// All types can be made to fit the annotations of their functions, but one of
/// the diagnostics was an error before.
pub open spec fn is_error_before(
    bk: Bk,
    group: Seq<Str>,
    ts: Seq<Ty>,
    ds: Diags,
    reported: Diags,
) -> bool {
    &&& reported == ds
    &&& exists|i: int|
        0 <= i < ds.items.len() && (#[trigger] ds.items[i]).severity == Severity::Error
    &&& forall|j: int|
        0 <= j < group.len() ==> #[trigger] specialize::specialized(
            ts[j],
            bk.defs[group[j]].typ,
        ) is Ok
}

/// Every function of a group goes by its own annotation.
///
/// If the check of the group succeeds, then what is stored for each function is
/// the type of its body, made to fit the annotation of that function, and
/// nothing else is stored. If the types of the bodies are found, then the check
/// fails if and only if the type of one of the functions cannot be made to fit
/// the annotation of that function or there was an error before, and it is the
/// first such function that is reported.
pub proof fn law_group_annotations(
    bk: Bk,
    env: Map<Str, Sch>,
    types: Types,
    group: Seq<Str>,
    ds: Diags,
)
    requires
        group.no_duplicates(),
    ensures
        match type_check::inferred_group(bk, env, types, group, ds) {
            Ok(types1) => match body_types(bk, env, types, group) {
                Some(ts) => is_group_stored(bk, group, ts, types, types1),
                None => false,
            },
            Err((reported, left)) => match body_types(bk, env, types, group) {
                Some(ts) => left.items.len() == 0 && (is_unfit_report(bk, group, ts, ds, reported)
                    || is_error_before(bk, group, ts, ds, reported)),
                None => true,
            },
        },
{
    let st0 = type_check::group_state(group);
    lemma_bodies_len(bk, env, types, group, 0, st0, Seq::empty());
    if let Ok((inf, st)) = type_check::infer_bodies(bk, env, types, group, 0, st0, Seq::empty()) {
        lemma_unified_len(bk, group, inf, 0, st, Seq::empty());
        if let Ok((us, st1)) = type_check::unify_bodies(bk, group, inf, 0, st, Seq::empty()) {
            let ts = body_types(bk, env, types, group)->0;
            assert(ts =~= ty::apply_all(us, st1.sub));
            lemma_specialize_all(bk, group, ts, 0, types);
            match type_check::specialize_all(bk, group, ts, 0, types) {
                Ok(types1) => {
                    assert forall|x: Str| !group.contains(x) implies #[trigger] is_kept(
                        types,
                        types1,
                        x,
                    ) by {
                        assert forall|j: int| 0 <= j < group.len() implies #[trigger] group[j] != x by {
                            assert(group.contains(group[j]));
                        }
                    }
                    assert forall|j: int| 0 <= j < group.len() implies #[trigger] specialize::specialized(
                        ts[j],
                        bk.defs[group[j]].typ,
                    ) is Ok by {
                        assert(is_stored(bk, group[j], ts[j], types1));
                    }
                    if diagnostics::any_error(ds) {
                        assert(is_error_before(bk, group, ts, ds, ds));
                    }
                    assert(is_group_stored(bk, group, ts, types, types1));
                },
                Err((x, e)) => {
                    let i = choose|i: int|
                        #[trigger] is_first_unfit(bk, group, ts, i, e) && group[i] == x;
                    let d = diagnostics::function_error(Msg::Specialize(e), x, bk.defs[x].source);
                    let reported = diagnostics::with_item(ds, d);
                    assert(reported.items.drop_last() =~= ds.items);
                    assert(is_first_unfit(bk, group, ts, i, e) && ends_unfit(reported, group[i], e));
                    assert(is_unfit_report(bk, group, ts, ds, reported));
                },
            }
        }
    }
}

/* Programs */

/// What is stored for each function whose type is inferred is its own
/// annotation, with something in place of the holes.
pub open spec fn fits_annotations(bk: Bk, types: Types) -> bool {
    forall|x: Str| #[trigger]
        types.contains_key(x) && rec_groups::is_inferred(bk, x) ==> specialize_laws::is_filling(
            types[x].typ,
            bk.defs[x].typ,
        )
}

/// Holds of the types of the functions of the first groups.
spec fn fit_so_far(bk: Bk, gs: Seq<Seq<Str>>, k: int, types: Types) -> bool {
    forall|l: int, x: Str|
        0 <= l < k && #[trigger] gs[l].contains(x) ==> types.contains_key(x)
            && specialize_laws::is_filling(types[x].typ, bk.defs[x].typ)
}

proof fn lemma_groups_fit(bk: Bk, types: Types, gs: Seq<Seq<Str>>, k: int, ds: Diags)
    requires
        name_graph::is_groups(rec_groups::deps_of(bk), gs),
        0 <= k <= gs.len(),
        fit_so_far(bk, gs, k, types),
    ensures
        match type_check::inferred_groups(bk, types, gs, k, ds) {
            Ok(types1) => fit_so_far(bk, gs, gs.len() as int, types1),
            Err(_) => true,
        },
    decreases gs.len() - k,
{
    if k < gs.len() {
        let group = gs[k];
        if let Ok(next) = type_check::inferred_group(bk, Map::empty(), types, group, ds) {
            name::lemma_sorted_no_duplicates(group);
            law_group_annotations(bk, Map::empty(), types, group, ds);
            let ts = body_types(bk, Map::empty(), types, group)->0;
            assert forall|l: int, x: Str| 0 <= l < k + 1 && #[trigger] gs[l].contains(x) implies next.contains_key(
                x,
            ) && specialize_laws::is_filling(next[x].typ, bk.defs[x].typ) by {
                if group.contains(x) {
                    let i = choose|i: int| 0 <= i < group.len() && group[i] == x;
                    assert(is_stored(bk, group[i], ts[i], next));
                    specialize_laws::law_specialize_fills(ts[i], bk.defs[x].typ);
                } else {
                    assert(is_kept(types, next, x));
                }
            }
            lemma_groups_fit(bk, next, gs, k + 1, ds);
        }
    }
}

/// A program that passes the check has, for each function whose type is
/// inferred, the annotation of that function with something in place of the
/// holes, or the annotation itself if it has none.
pub proof fn law_annotations_stay(bk: Bk, ds: Diags, x: Str)
    requires
        name_graph::is_groups(rec_groups::deps_of(bk), rec_groups::rec_groups(bk)),
        rec_groups::is_inferred(bk, x),
    ensures
        match type_check::inferred_book(bk, ds) {
            Ok(types) => {
                &&& types.contains_key(x)
                &&& specialize_laws::is_filling(types[x].typ, bk.defs[x].typ)
                &&& specialize_laws::is_filled(bk.defs[x].typ) ==> types[x].typ == bk.defs[x].typ
            },
            Err(_) => true,
        },
{
    let gs = rec_groups::rec_groups(bk);
    let d = rec_groups::deps_of(bk);
    lemma_groups_fit(bk, type_check::given_types(bk), gs, 0, ds);
    if let Ok(types) = type_check::inferred_book(bk, ds) {
        assert(d.contains_key(x));
        assert(name_graph::nodes(d).contains(x));
        let l = choose|l: int| 0 <= l < gs.len() && #[trigger] gs[l].contains(x);
        assert(gs[l].contains(x));
        if specialize_laws::is_filled(bk.defs[x].typ) {
            specialize_laws::lemma_filling_filled(types[x].typ, bk.defs[x].typ);
        }
    }
}

/// All functions of a program that passes the check go by their annotations.
pub proof fn lemma_fits_annotations(bk: Bk, ds: Diags)
    requires
        name_graph::is_groups(rec_groups::deps_of(bk), rec_groups::rec_groups(bk)),
    ensures
        match type_check::inferred_book(bk, ds) {
            Ok(types) => fits_annotations(bk, types),
            Err(_) => true,
        },
{
    if let Ok(types) = type_check::inferred_book(bk, ds) {
        assert forall|x: Str| #[trigger]
            types.contains_key(x) && rec_groups::is_inferred(bk, x) implies specialize_laws::is_filling(
            types[x].typ,
            bk.defs[x].typ,
        ) by {
            law_annotations_stay(bk, ds, x);
        }
    }
}

/// Every function whose type is inferred keeps an annotation without holes, with
/// its variables renamed from the first name on.
pub open spec fn keeps_annotations(bk: Bk, new: Bk) -> bool {
    forall|x: Str| #[trigger]
        rec_groups::is_inferred(bk, x) && specialize_laws::is_filled(bk.defs[x].typ)
            ==> new.defs.contains_key(x) && new.defs[x].typ == stored_types::normal(
            bk.defs[x].typ,
        )
}

/// In the program that is stored, each function whose type is inferred keeps its
/// own annotation if it has no holes, with its variables renamed one to one.
pub proof fn law_annotations_are_stored(bk: Bk, types: Types)
    requires
        stored_types::are_closed(types),
        fits_annotations(bk, types),
        forall|x: Str| #[trigger]
            bk.defs.contains_key(x) ==> bk.defs[x].name == x && types.contains_key(x),
    ensures
        keeps_annotations(bk, type_check::with_types(bk, types)),
{
    let new = type_check::with_types(bk, types);
    assert forall|x: Str| #[trigger]
        rec_groups::is_inferred(bk, x) && specialize_laws::is_filled(bk.defs[x].typ) implies new.defs.contains_key(
        x,
    ) && new.defs[x].typ == stored_types::normal(bk.defs[x].typ) by {
        assert(bk.defs.contains_key(x));
        assert(types.contains_key(x));
        specialize_laws::lemma_filling_filled(types[x].typ, bk.defs[x].typ);
    }
}

} // verus!
