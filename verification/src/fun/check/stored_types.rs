//! The types that a type check stores in a program.

use crate::diagnostics::Diags;
use crate::fun::book::{Am, Bk, Cm, Hm};
use crate::fun::check::rec_groups;
use crate::fun::check::scheme;
use crate::fun::check::specialize;
use crate::fun::check::specialize_laws;
use crate::fun::check::type_check;
use crate::fun::check::type_check::Types;
use crate::fun::term::Dm;
use crate::fun::ty;
use crate::fun::ty::Ty;
use crate::name;
use crate::name::Str;
use vstd::prelude::*;

verus! {

/// Every scheme binds its variables in their order.
pub open spec fn are_closed(types: Types) -> bool {
    forall|x: Str| #[trigger]
        types.contains_key(x) ==> types[x] == scheme::closed_scheme(types[x].typ)
}

/// The functions whose types are not inferred have the types that are given.
pub open spec fn keeps_given(bk: Bk, types: Types) -> bool {
    forall|x: Str| #[trigger]
        types.contains_key(x) && !rec_groups::is_inferred(bk, x)
            ==> type_check::given_types(bk).contains_key(x) && types[x]
            == type_check::given_types(bk)[x]
}

proof fn lemma_ctrs_closed(types: Types, ctrs: Map<Str, Cm>, names: Seq<Str>)
    requires
        are_closed(types),
    ensures
        are_closed(type_check::add_ctrs(types, ctrs, names)),
    decreases names.len(),
{
    if names.len() > 0 {
        let c = ctrs[names[0]];
        let next = types.insert(c.name, scheme::closed_scheme(c.typ));
        assert(are_closed(next));
        lemma_ctrs_closed(next, ctrs, names.drop_first());
    }
}

proof fn lemma_adts_closed(types: Types, adts: Map<Str, Am>, names: Seq<Str>)
    requires
        are_closed(types),
    ensures
        are_closed(type_check::add_adts(types, adts, names)),
    decreases names.len(),
{
    if names.len() > 0 {
        let ctrs = adts[names[0]].ctrs;
        lemma_ctrs_closed(types, ctrs, name::in_order(ctrs.dom()));
        lemma_adts_closed(
            type_check::add_ctrs(types, ctrs, name::in_order(ctrs.dom())),
            adts,
            names.drop_first(),
        );
    }
}

/// The unchecked functions get the types that they are given.
proof fn lemma_unchecked(types: Types, defs: Map<Str, Dm>, names: Seq<Str>)
    requires
        are_closed(types),
        forall|i: int| 0 <= i < names.len() ==> defs[#[trigger] names[i]].name == names[i],
    ensures
        ({
            let r = type_check::add_unchecked(types, defs, names);
            &&& are_closed(r)
            &&& forall|x: Str| #[trigger]
                r.contains_key(x) ==> if names.contains(x) && !defs[x].check {
                    r[x] == scheme::closed_scheme(defs[x].typ)
                } else {
                    types.contains_key(x) && r[x] == types[x]
                }
        }),
    decreases names.len(),
{
    if names.len() > 0 {
        let d = defs[names[0]];
        let rest = names.drop_first();
        let next = if d.check {
            types
        } else {
            types.insert(d.name, scheme::closed_scheme(d.typ))
        };
        assert(are_closed(next));
        assert forall|i: int| 0 <= i < rest.len() implies defs[#[trigger] rest[i]].name == rest[i] by {
            assert(rest[i] == names[i + 1]);
        }
        lemma_unchecked(next, defs, rest);
        assert forall|x: Str| names.contains(x) <==> rest.contains(x) || x == names[0] by {
            if names.contains(x) && x != names[0] {
                let i = choose|i: int| 0 <= i < names.len() && names[i] == x;
                assert(rest[i - 1] == x);
            }
            if rest.contains(x) {
                let i = choose|i: int| 0 <= i < rest.len() && rest[i] == x;
                assert(names[i + 1] == x);
            }
        }
    }
}

proof fn lemma_hvm(types: Types, defs: Map<Str, Hm>, names: Seq<Str>)
    requires
        are_closed(types),
    ensures
        ({
            let r = type_check::add_hvm(types, defs, names);
            &&& are_closed(r)
            &&& forall|x: Str| #[trigger]
                r.contains_key(x) && !is_net_name(defs, names, x) ==> types.contains_key(x) && r[x]
                    == types[x]
        }),
    decreases names.len(),
{
    if names.len() > 0 {
        let d = defs[names[0]];
        let rest = names.drop_first();
        let next = types.insert(d.name, scheme::closed_scheme(d.typ));
        assert(are_closed(next));
        lemma_hvm(next, defs, rest);
        let r = type_check::add_hvm(types, defs, names);
        assert forall|x: Str| #[trigger] r.contains_key(x) && !is_net_name(defs, names, x) implies types.contains_key(
            x,
        ) && r[x] == types[x] by {
            if is_net_name(defs, rest, x) {
                let i = choose|i: int| 0 <= i < rest.len() && defs[#[trigger] rest[i]].name == x;
                assert(rest[i] == names[i + 1]);
                assert(defs[names[i + 1]].name == x);
            }
            assert(defs[names[0]].name != x);
            assert(next.contains_key(x));
        }
    }
}

/// One of these functions has the name.
spec fn is_net_name(defs: Map<Str, Hm>, names: Seq<Str>, x: Str) -> bool {
    exists|i: int| 0 <= i < names.len() && defs[#[trigger] names[i]].name == x
}

/// The given types are closed, and keep what is given.
pub proof fn lemma_given(bk: Bk)
    requires
        type_check::is_checkable(bk),
        bk.defs.dom().finite(),
    ensures
        are_closed(type_check::given_types(bk)),
        keeps_given(bk, type_check::given_types(bk)),
{
    let e = Map::<Str, scheme::Sch>::empty();
    let adts = name::in_order(bk.adts.dom());
    let defs = name::in_order(bk.defs.dom());
    assert(are_closed(e));
    lemma_adts_closed(e, bk.adts, adts);
    lemma_def_names(bk);
    lemma_unchecked(type_check::add_adts(e, bk.adts, adts), bk.defs, defs);
    lemma_hvm(
        type_check::add_unchecked(type_check::add_adts(e, bk.adts, adts), bk.defs, defs),
        bk.hvm_defs,
        name::in_order(bk.hvm_defs.dom()),
    );
}

proof fn lemma_def_names(bk: Bk)
    requires
        type_check::is_checkable(bk),
        bk.defs.dom().finite(),
    ensures
        forall|i: int|
            0 <= i < name::in_order(bk.defs.dom()).len() ==> bk.defs[#[trigger] name::in_order(
                bk.defs.dom(),
            )[i]].name == name::in_order(bk.defs.dom())[i],
        forall|x: Str| #[trigger]
            name::in_order(bk.defs.dom()).contains(x) <==> bk.defs.contains_key(x),
{
    let ns = name::in_order(bk.defs.dom());
    name::lemma_finite_in_order(bk.defs.dom());
    assert forall|x: Str| #[trigger] ns.contains(x) <==> bk.defs.contains_key(x) by {
        assert(ns.to_set().contains(x) <==> bk.defs.dom().contains(x));
    }
    assert forall|i: int| 0 <= i < ns.len() implies bk.defs[#[trigger] ns[i]].name == ns[i] by {
        assert(ns.contains(ns[i]));
        assert(bk.defs.contains_key(ns[i]));
    }
}

proof fn lemma_specialize_stores(bk: Bk, group: Seq<Str>, ts: Seq<Ty>, i: int, types: Types)
    requires
        are_closed(types),
        keeps_given(bk, types),
        0 <= i <= group.len(),
        forall|j: int| 0 <= j < group.len() ==> rec_groups::is_inferred(bk, #[trigger] group[j]),
    ensures
        match type_check::specialize_all(bk, group, ts, i, types) {
            Ok(types1) => are_closed(types1) && keeps_given(bk, types1),
            Err(_) => true,
        },
    decreases group.len() - i,
{
    if i < group.len() {
        if let Ok(t) = specialize::specialized(ts[i], bk.defs[group[i]].typ) {
            let next = types.insert(group[i], scheme::closed_scheme(t));
            assert(are_closed(next));
            assert(rec_groups::is_inferred(bk, group[i]));
            lemma_specialize_stores(bk, group, ts, i + 1, next);
        }
    }
}

/// A group only stores the types of its functions.
pub proof fn lemma_group_stores(bk: Bk, types: Types, group: Seq<Str>, ds: Diags)
    requires
        are_closed(types),
        keeps_given(bk, types),
        forall|j: int| 0 <= j < group.len() ==> rec_groups::is_inferred(bk, #[trigger] group[j]),
    ensures
        match type_check::inferred_group(bk, Map::empty(), types, group, ds) {
            Ok(types1) => are_closed(types1) && keeps_given(bk, types1),
            Err(_) => true,
        },
{
    let st0 = type_check::group_state(group);
    let none = Map::<Str, scheme::Sch>::empty();
    if let Ok((inf, st)) = type_check::infer_bodies(bk, none, types, group, 0, st0, Seq::empty()) {
        if let Ok((ts, st1)) = type_check::unify_bodies(bk, group, inf, 0, st, Seq::empty()) {
            lemma_specialize_stores(bk, group, ty::apply_all(ts, st1.sub), 0, types);
        }
    }
}

/* Laws */

/// The type with its variables renamed from the first name on.
pub open spec fn normal(t: Ty) -> Ty {
    scheme::instance(scheme::closed_scheme(t), 0)
}

/// The variables of a type that is stored are the first names, as many as there
/// are variables.
pub proof fn law_stored_names(t: Ty, x: Str)
    ensures
        ty::fv(normal(t)).contains(x) <==> exists|k: nat|
            k < ty::fv(t).len() && x == #[trigger] name::base26(k),
{
    let vars = name::in_order(ty::fv(t));
    let m = scheme::fresh_map(vars, 0);
    specialize_laws::lemma_vars_of(t, x);
    ty::lemma_fv_finite(t);
    vars.unique_seq_to_set();
    name::lemma_finite_in_order(ty::fv(t));
    if ty::fv(normal(t)).contains(x) {
        specialize_laws::lemma_instance_vars(t, 0, x);
        let k = choose|k: nat| 0 <= k < 0 + vars.len() && x == #[trigger] name::base26(k);
        assert(k < ty::fv(t).len());
    }
    if exists|k: nat| k < ty::fv(t).len() && x == #[trigger] name::base26(k) {
        let k = choose|k: nat| k < ty::fv(t).len() && x == #[trigger] name::base26(k);
        let v = vars[k as int];
        assert(vars.contains(v));
        specialize_laws::lemma_vars_of(t, v);
        lemma_fresh_at(vars, 0, k as int);
        specialize_laws::lemma_apply_holds(t, m, v, x);
    }
}

/// Renaming the variables of a type that is stored can be undone.
pub proof fn law_stored_renames(t: Ty)
    requires
        ty::is_formed(t),
    ensures
        specialize_laws::is_superset(normal(t), t),
        specialize_laws::is_superset(t, normal(t)),
{
    specialize_laws::lemma_renamed_back(t, 0);
    let back = specialize_laws::names_back(specialize_laws::vars_of(t), 0);
    assert(ty::apply(normal(t), back) == t);
    assert(ty::apply(t, scheme::fresh_map(name::in_order(ty::fv(t)), 0)) == normal(t));
}

/// Each variable gets the name of its place.
pub proof fn lemma_fresh_at(vars: Seq<Str>, next: nat, i: int)
    requires
        vars.no_duplicates(),
        0 <= i < vars.len(),
    ensures
        scheme::fresh_map(vars, next).contains_key(vars[i]),
        scheme::fresh_map(vars, next)[vars[i]] == ty::ty_var(name::base26((next + i) as nat)),
    decreases vars.len(),
{
    if i < vars.len() - 1 {
        lemma_fresh_at(vars.drop_last(), next, i);
        assert(vars.drop_last()[i] == vars[i]);
    }
}

/// A type check changes nothing but types. A function that is not checked keeps
/// its type, with its variables renamed one to one.
pub proof fn law_only_types_change(bk: Bk, types: Types, x: Str)
    requires
        type_check::is_checkable(bk),
        bk.defs.dom().finite(),
        bk.hvm_defs.dom().finite(),
        keeps_given(bk, types),
        bk.defs.contains_key(x),
        types.contains_key(x),
    ensures
        ({
            let new = type_check::with_types(bk, types);
            &&& new == Bk { defs: new.defs, ..bk }
            &&& new.defs.dom() == bk.defs.dom()
            &&& new.defs[x] == Dm { typ: new.defs[x].typ, ..bk.defs[x] }
            &&& !bk.defs[x].check && !type_check::is_net(bk, x) ==> new.defs[x].typ == normal(bk.defs[x].typ)
        }),
{
    let new = type_check::with_types(bk, types);
    assert(new.defs.dom() =~= bk.defs.dom());
    if !bk.defs[x].check && !type_check::is_net(bk, x) {
        let e = Map::<Str, scheme::Sch>::empty();
        let adts = name::in_order(bk.adts.dom());
        let defs = name::in_order(bk.defs.dom());
        let nets = name::in_order(bk.hvm_defs.dom());
        let a = type_check::add_adts(e, bk.adts, adts);
        let b = type_check::add_unchecked(a, bk.defs, defs);
        assert(are_closed(e));
        lemma_adts_closed(e, bk.adts, adts);
        lemma_def_names(bk);
        lemma_unchecked(a, bk.defs, defs);
        lemma_hvm(b, bk.hvm_defs, nets);
        assert(defs.contains(x));
        name::lemma_finite_in_order(bk.hvm_defs.dom());
        if is_net_name(bk.hvm_defs, nets, x) {
            let i = choose|i: int| 0 <= i < nets.len() && bk.hvm_defs[#[trigger] nets[i]].name == x;
            assert(nets.to_set().contains(nets[i]));
            assert(bk.hvm_defs.contains_key(nets[i]));
        }
        assert(!rec_groups::is_inferred(bk, x));
    }
}

} // verus!
