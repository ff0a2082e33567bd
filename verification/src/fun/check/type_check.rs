//! Optional Hindley-Milner-like type system.

use crate::diagnostics;
use crate::diagnostics::{Diagnostics, Diags, Message, Msg};
use crate::fun::book::{AdtCtr, Am, Bk, Book, Cm, Ctx, Hm};
use crate::fun::check::annotation_laws;
use crate::fun::check::frame;
use crate::fun::check::infer;
use crate::fun::check::infer_state;
use crate::fun::check::infer_state::{Er, InferState, St};
use crate::fun::check::inference;
use crate::fun::check::program_typing;
use crate::fun::check::rec_groups;
use crate::fun::check::rec_groups::RecGroups;
use crate::fun::check::scheme;
use crate::fun::check::scheme::{Bind, Sch, Scheme, TypeEnv, VarGen};
use crate::fun::check::specialize;
use crate::fun::check::specialize::Unfit;
use crate::fun::check::stored_types;
use crate::fun::check::unify;
use crate::fun::term;
use crate::fun::term::{Dm, Tm};
use crate::fun::ty;
use crate::fun::ty::{Ty, Type};
use crate::name;
use crate::name::{Name, Str};
use crate::name_graph;
use crate::name_map::NameMap;
use vstd::prelude::*;

verus! {

/// The types of the functions of a program.
pub type Types = Map<Str, Sch>;

/* Types that are given */

/// The types with those of the named constructors.
pub open spec fn add_ctrs(types: Types, ctrs: Map<Str, Cm>, names: Seq<Str>) -> Types
    decreases names.len(),
{
    if names.len() == 0 {
        types
    } else {
        let c = ctrs[names[0]];
        add_ctrs(types.insert(c.name, scheme::closed_scheme(c.typ)), ctrs, names.drop_first())
    }
}

/// The types with those of the constructors of the named datatypes.
pub open spec fn add_adts(types: Types, adts: Map<Str, Am>, names: Seq<Str>) -> Types
    decreases names.len(),
{
    if names.len() == 0 {
        types
    } else {
        let ctrs = adts[names[0]].ctrs;
        add_adts(add_ctrs(types, ctrs, name::in_order(ctrs.dom())), adts, names.drop_first())
    }
}

/// The types with those of the named functions that are not checked.
pub open spec fn add_unchecked(types: Types, defs: Map<Str, Dm>, names: Seq<Str>) -> Types
    decreases names.len(),
{
    if names.len() == 0 {
        types
    } else {
        let d = defs[names[0]];
        add_unchecked(
            if d.check {
                types
            } else {
                types.insert(d.name, scheme::closed_scheme(d.typ))
            },
            defs,
            names.drop_first(),
        )
    }
}

/// The types with those of the named functions that are nets.
pub open spec fn add_hvm(types: Types, defs: Map<Str, Hm>, names: Seq<Str>) -> Types
    decreases names.len(),
{
    if names.len() == 0 {
        types
    } else {
        let d = defs[names[0]];
        add_hvm(types.insert(d.name, scheme::closed_scheme(d.typ)), defs, names.drop_first())
    }
}

/// The types that are not inferred: those of constructors, unchecked functions
/// and nets.
pub open spec fn given_types(bk: Bk) -> Types {
    let a = add_adts(Map::empty(), bk.adts, name::in_order(bk.adts.dom()));
    let b = add_unchecked(a, bk.defs, name::in_order(bk.defs.dom()));
    add_hvm(b, bk.hvm_defs, name::in_order(bk.hvm_defs.dom()))
}

/* Groups */

/// The names of a group as names to bind.
pub open spec fn some_names(group: Seq<Str>) -> Seq<Option<Str>> {
    Seq::new(group.len(), |i: int| Some(group[i]))
}

/// The environment in which each function of the group has a new variable as its
/// type.
pub open spec fn group_env(env: Map<Str, Sch>, group: Seq<Str>) -> Map<Str, Sch> {
    scheme::bind_all(
        env,
        inference::mono_binds(some_names(group), inference::new_vars(group.len(), 0)),
    )
}

/// The state before the bodies of a group are inferred.
pub open spec fn group_state(group: Seq<Str>) -> St {
    St { sub: Map::empty(), next: group.len() }
}

/// The types of the bodies of the functions from one on.
pub open spec fn infer_bodies(
    bk: Bk,
    env: Map<Str, Sch>,
    types: Types,
    group: Seq<Str>,
    i: int,
    st: St,
    done: Seq<Ty>,
) -> Result<(Seq<Ty>, St), (Str, Er)>
    decreases group.len() - i,
{
    if 0 <= i < group.len() {
        match inference::infer(
            bk,
            group_env(env, group),
            types,
            term::body_of(bk.defs[group[i]]),
            st,
        ) {
            Ok((t, st1)) => infer_bodies(bk, env, types, group, i + 1, st1, done.push(t)),
            Err(e) => Err((group[i], e)),
        }
    } else {
        Ok((done, st))
    }
}

/// Unifies the types of the bodies with the variables of their functions.
pub open spec fn unify_bodies(
    bk: Bk,
    group: Seq<Str>,
    inf: Seq<Ty>,
    i: int,
    st: St,
    done: Seq<Ty>,
) -> Result<(Seq<Ty>, St), Er>
    decreases group.len() - i,
{
    if 0 <= i < group.len() {
        let tv = ty::apply(ty::ty_var(name::base26(i as nat)), st.sub);
        match infer_state::unify_in(st, tv, inf[i], term::body_of(bk.defs[group[i]])) {
            Ok((t, st1)) => unify_bodies(bk, group, inf, i + 1, st1, done.push(t)),
            Err(e) => Err(e),
        }
    } else {
        Ok((done, st))
    }
}

/// Makes the inferred types fit the annotations and stores them.
pub open spec fn specialize_all(bk: Bk, group: Seq<Str>, ts: Seq<Ty>, i: int, types: Types) -> Result<
    Types,
    (Str, Unfit),
>
    decreases group.len() - i,
{
    if 0 <= i < group.len() {
        match specialize::specialized(ts[i], bk.defs[group[i]].typ) {
            Ok(t) => specialize_all(
                bk,
                group,
                ts,
                i + 1,
                types.insert(group[i], scheme::closed_scheme(t)),
            ),
            Err(e) => Err((group[i], e)),
        }
    } else {
        Ok(types)
    }
}

/// The types with those of a group, or the diagnostics of the failure and
/// those that are left.
pub open spec fn inferred_group(
    bk: Bk,
    env: Map<Str, Sch>,
    types: Types,
    group: Seq<Str>,
    ds: Diags,
) -> Result<Types, (Diags, Diags)> {
    match infer_bodies(bk, env, types, group, 0, group_state(group), Seq::empty()) {
        Err((x, e)) => Err(
            (
                diagnostics::with_item(
                    ds,
                    diagnostics::function_error(Msg::Type(e), x, bk.defs[x].source),
                ),
                diagnostics::no_diagnostics(),
            ),
        ),
        Ok((inf, st)) => match unify_bodies(bk, group, inf, 0, st, Seq::empty()) {
            Err(e) => Err((diagnostics::only_error(Msg::Type(e)), ds)),
            Ok((ts, st1)) => match specialize_all(bk, group, ty::apply_all(ts, st1.sub), 0, types) {
                Err((x, e)) => Err(
                    (
                        diagnostics::with_item(
                            ds,
                            diagnostics::function_error(Msg::Specialize(e), x, bk.defs[x].source),
                        ),
                        diagnostics::no_diagnostics(),
                    ),
                ),
                Ok(types1) => if diagnostics::any_error(ds) {
                    Err((ds, diagnostics::no_diagnostics()))
                } else {
                    Ok(types1)
                },
            },
        },
    }
}

/// The types with those of the groups from one on.
pub open spec fn inferred_groups(bk: Bk, types: Types, gs: Seq<Seq<Str>>, k: int, ds: Diags) -> Result<
    Types,
    (Diags, Diags),
>
    decreases gs.len() - k,
{
    if 0 <= k < gs.len() {
        match inferred_group(bk, Map::empty(), types, gs[k], ds) {
            Ok(types1) => inferred_groups(bk, types1, gs, k + 1, ds),
            Err(e) => Err(e),
        }
    } else {
        Ok(types)
    }
}

/// The types of all functions of a program, or the diagnostics of the first
/// failure and those that are left.
pub open spec fn inferred_book(bk: Bk, ds: Diags) -> Result<Types, (Diags, Diags)> {
    inferred_groups(bk, given_types(bk), rec_groups::rec_groups(bk), 0, ds)
}

/// The program with the given types of its functions, with their variables
/// renamed from the first name on.
pub open spec fn with_types(bk: Bk, types: Types) -> Bk {
    Bk {
        defs: Map::new(
            |x: Str| bk.defs.contains_key(x),
            |x: Str| Dm { typ: scheme::instance(types[bk.defs[x].name], 0), ..bk.defs[x] },
        ),
        ..bk
    }
}

/* What can be checked */

/// The names of what has a type.
pub open spec fn globals(bk: Bk) -> Set<Str> {
    Set::new(|x: Str| given_types(bk).contains_key(x) || rec_groups::is_inferred(bk, x))
}

/// A program that can be checked: functions go by their names, those whose
/// types are inferred only hold terms that have a type, and the other ones
/// and the nets have a given type.
pub open spec fn is_checkable(bk: Bk) -> bool {
    &&& inference::fields_closed(bk)
    &&& rec_groups::defs_ready(bk)
    &&& forall|x: Str| #[trigger]
        bk.defs.contains_key(x) ==> bk.defs[x].name == x && globals(bk).contains(x)
    &&& forall|x: Str| #[trigger]
        bk.hvm_defs.contains_key(x) ==> given_types(bk).contains_key(x)
    &&& forall|x: Str| #[trigger]
        rec_groups::is_inferred(bk, x) ==> inference::checkable(
            bk,
            Set::empty(),
            globals(bk),
            term::body_of(bk.defs[x]),
        )
}

/* Names that have a type */

/// One of the constructors has the name.
pub open spec fn is_ctr_in(ctrs: Map<Str, Cm>, x: Str) -> bool {
    exists|c: Str| #[trigger] ctrs.contains_key(c) && ctrs[c].name == x
}

/// A constructor of the program has the name.
pub open spec fn is_ctr(bk: Bk, x: Str) -> bool {
    exists|a: Str| #[trigger] bk.adts.contains_key(a) && is_ctr_in(bk.adts[a].ctrs, x)
}

/// A function that is not checked has the name.
pub open spec fn is_unchecked(bk: Bk, x: Str) -> bool {
    exists|d: Str| #[trigger] bk.defs.contains_key(d) && !bk.defs[d].check && bk.defs[d].name == x
}

/// A function that is a net has the name.
pub open spec fn is_net(bk: Bk, x: Str) -> bool {
    exists|d: Str| #[trigger] bk.hvm_defs.contains_key(d) && bk.hvm_defs[d].name == x
}

/// Constructors, unchecked functions, nets and functions whose types are inferred
/// have a type, and nothing else.
pub open spec fn is_typed(bk: Bk, x: Str) -> bool {
    is_ctr(bk, x) || is_unchecked(bk, x) || is_net(bk, x) || rec_groups::is_inferred(bk, x)
}

proof fn lemma_ctrs_dom(types: Types, ctrs: Map<Str, Cm>, names: Seq<Str>, x: Str)
    ensures
        add_ctrs(types, ctrs, names).contains_key(x) <==> types.contains_key(x) || exists|i: int|
            0 <= i < names.len() && ctrs[#[trigger] names[i]].name == x,
    decreases names.len(),
{
    if names.len() > 0 {
        let c = ctrs[names[0]];
        let rest = names.drop_first();
        let next = types.insert(c.name, scheme::closed_scheme(c.typ));
        lemma_ctrs_dom(next, ctrs, rest, x);
        if exists|i: int| 0 <= i < names.len() && ctrs[#[trigger] names[i]].name == x {
            let i = choose|i: int| 0 <= i < names.len() && ctrs[#[trigger] names[i]].name == x;
            if i > 0 {
                assert(rest[i - 1] == names[i]);
                assert(ctrs[rest[i - 1]].name == x);
            }
        }
        if exists|i: int| 0 <= i < rest.len() && ctrs[#[trigger] rest[i]].name == x {
            let i = choose|i: int| 0 <= i < rest.len() && ctrs[#[trigger] rest[i]].name == x;
            assert(ctrs[names[i + 1]].name == x);
        }
        if c.name == x {
            assert(ctrs[names[0]].name == x);
        }
    }
}

proof fn lemma_unchecked_dom(types: Types, defs: Map<Str, Dm>, names: Seq<Str>, x: Str)
    ensures
        add_unchecked(types, defs, names).contains_key(x) <==> types.contains_key(x) || exists|i: int|
            0 <= i < names.len() && !defs[#[trigger] names[i]].check && defs[names[i]].name == x,
    decreases names.len(),
{
    if names.len() > 0 {
        let d = defs[names[0]];
        let rest = names.drop_first();
        let next = if d.check {
            types
        } else {
            types.insert(d.name, scheme::closed_scheme(d.typ))
        };
        lemma_unchecked_dom(next, defs, rest, x);
        if exists|i: int|
            0 <= i < names.len() && !defs[#[trigger] names[i]].check && defs[names[i]].name == x {
            let i = choose|i: int|
                0 <= i < names.len() && !defs[#[trigger] names[i]].check && defs[names[i]].name == x;
            if i > 0 {
                assert(rest[i - 1] == names[i]);
                assert(!defs[rest[i - 1]].check);
            }
        }
        if exists|i: int|
            0 <= i < rest.len() && !defs[#[trigger] rest[i]].check && defs[rest[i]].name == x {
            let i = choose|i: int|
                0 <= i < rest.len() && !defs[#[trigger] rest[i]].check && defs[rest[i]].name == x;
            assert(!defs[names[i + 1]].check);
        }
        if !d.check && d.name == x {
            assert(!defs[names[0]].check);
        }
    }
}

proof fn lemma_hvm_dom(types: Types, defs: Map<Str, Hm>, names: Seq<Str>, x: Str)
    ensures
        add_hvm(types, defs, names).contains_key(x) <==> types.contains_key(x) || exists|i: int|
            0 <= i < names.len() && defs[#[trigger] names[i]].name == x,
    decreases names.len(),
{
    if names.len() > 0 {
        let d = defs[names[0]];
        let rest = names.drop_first();
        lemma_hvm_dom(types.insert(d.name, scheme::closed_scheme(d.typ)), defs, rest, x);
        if exists|i: int| 0 <= i < names.len() && defs[#[trigger] names[i]].name == x {
            let i = choose|i: int| 0 <= i < names.len() && defs[#[trigger] names[i]].name == x;
            if i > 0 {
                assert(rest[i - 1] == names[i]);
                assert(defs[rest[i - 1]].name == x);
            }
        }
        if exists|i: int| 0 <= i < rest.len() && defs[#[trigger] rest[i]].name == x {
            let i = choose|i: int| 0 <= i < rest.len() && defs[#[trigger] rest[i]].name == x;
            assert(defs[names[i + 1]].name == x);
        }
        if d.name == x {
            assert(defs[names[0]].name == x);
        }
    }
}

/* Closed types */

proof fn lemma_closed_scheme(t: Ty, v: Str)
    requires
        ty::fv(t).contains(v),
    ensures
        scheme::closed_scheme(t).vars.contains(v),
{
    ty::lemma_fv_finite(t);
    name::lemma_finite_in_order(ty::fv(t));
    assert(name::in_order(ty::fv(t)).to_set().contains(v));
}

proof fn lemma_insert_closed(types: Types, x: Str, t: Ty)
    requires
        inference::types_closed(types),
    ensures
        inference::types_closed(types.insert(x, scheme::closed_scheme(t))),
{
    let new = types.insert(x, scheme::closed_scheme(t));
    assert forall|y: Str, v: Str|
        #![trigger new.contains_key(y), new[y].vars.contains(v)]
        new.contains_key(y) && ty::fv(new[y].typ).contains(v) implies new[y].vars.contains(v) by {
        if y == x {
            lemma_closed_scheme(t, v);
        } else {
            assert(types.contains_key(y));
            assert(types[y].vars.contains(v));
        }
    }
}

/* Execution */

fn ctr_types(types: &mut NameMap<Scheme>, ctrs: &NameMap<AdtCtr>)
    requires
        inference::types_closed(old(types)@),
    ensures
        inference::types_closed(final(types)@),
        final(types)@ == add_ctrs(old(types)@, ctrs@, name::in_order(ctrs@.dom())),
        forall|x: Str| #[trigger]
            final(types)@.contains_key(x) <==> old(types)@.contains_key(x) || is_ctr_in(ctrs@, x),
{
    let n: usize = ctrs.len();
    let ghost names = ctrs.names();
    let mut i: usize = 0;
    proof {
        name::lemma_in_order(names);
        assert(names.skip(0) =~= names);
    }
    while i < n
        invariant
            i <= n,
            names == ctrs.names(),
            n == names.len(),
            inference::types_closed(types@),
            names.to_set() == ctrs@.dom(),
            add_ctrs(old(types)@, ctrs@, names) == add_ctrs(types@, ctrs@, names.skip(i as int)),
        decreases n - i,
    {
        let ctr = ctrs.value_at(i);
        proof {
            let rest = names.skip(i as int);
            assert(rest[0] == names[i as int]);
            assert(rest.drop_first() =~= names.skip(i + 1));
            lemma_insert_closed(types@, ctr.name@, ctr.typ@);
        }
        types.insert(ctr.name.clone(), ctr.typ.generalize_closed());
        i += 1;
    }
    proof {
        assert forall|x: Str| #[trigger] types@.contains_key(x) <==> old(types)@.contains_key(x)
            || is_ctr_in(ctrs@, x) by {
            lemma_ctrs_dom(old(types)@, ctrs@, names, x);
            if is_ctr_in(ctrs@, x) {
                let c = choose|c: Str| #[trigger] ctrs@.contains_key(c) && ctrs@[c].name == x;
                assert(names.to_set().contains(c));
                let j = choose|j: int| 0 <= j < names.len() && names[j] == c;
                assert(ctrs@[names[j]].name == x);
            }
            if exists|j: int| 0 <= j < names.len() && ctrs@[#[trigger] names[j]].name == x {
                let j = choose|j: int| 0 <= j < names.len() && ctrs@[#[trigger] names[j]].name == x;
                assert(names.to_set().contains(names[j]));
                assert(ctrs@.contains_key(names[j]));
            }
        }
    }
}

/// The types that are not inferred.
fn initial_types(book: &Book) -> (r: NameMap<Scheme>)
    ensures
        inference::types_closed(r@),
        r@ == given_types(book@),
        forall|x: Str| #[trigger]
            r@.contains_key(x) <==> is_ctr(book@, x) || is_unchecked(book@, x) || is_net(book@, x),
{
    let ghost bk = book@;
    let mut types: NameMap<Scheme> = NameMap::new();
    // Add the constructors to the environment.
    let n: usize = book.adts.len();
    let ghost names = book.adts.names();
    let mut i: usize = 0;
    proof {
        name::lemma_in_order(names);
        assert(names.skip(0) =~= names);
    }
    while i < n
        invariant
            i <= n,
            bk == book@,
            names == book.adts.names(),
            n == names.len(),
            names.to_set() == bk.adts.dom(),
            inference::types_closed(types@),
            add_adts(Map::empty(), bk.adts, names) == add_adts(types@, bk.adts, names.skip(i as int)),
            forall|x: Str| #[trigger]
                types@.contains_key(x) <==> exists|j: int|
                    0 <= j < i && is_ctr_in(bk.adts[#[trigger] names[j]].ctrs, x),
        decreases n - i,
    {
        let adt = book.adts.value_at(i);
        let ghost before = types@;
        proof {
            let rest = names.skip(i as int);
            assert(rest[0] == names[i as int]);
            assert(rest.drop_first() =~= names.skip(i + 1));
        }
        ctr_types(&mut types, &adt.ctrs);
        proof {
            assert forall|x: Str| #[trigger] types@.contains_key(x) <==> exists|j: int|
                0 <= j < i + 1 && is_ctr_in(bk.adts[#[trigger] names[j]].ctrs, x) by {
                if types@.contains_key(x) {
                    if before.contains_key(x) {
                        let j = choose|j: int|
                            0 <= j < i && is_ctr_in(bk.adts[#[trigger] names[j]].ctrs, x);
                        assert(is_ctr_in(bk.adts[names[j]].ctrs, x));
                    } else {
                        assert(is_ctr_in(bk.adts[names[i as int]].ctrs, x));
                    }
                }
                if exists|j: int|
                    0 <= j < i + 1 && is_ctr_in(bk.adts[#[trigger] names[j]].ctrs, x) {
                    let j = choose|j: int|
                        0 <= j < i + 1 && is_ctr_in(bk.adts[#[trigger] names[j]].ctrs, x);
                    if j < i {
                        assert(before.contains_key(x));
                    }
                }
            }
        }
        i += 1;
    }
    proof {
        assert forall|x: Str| #[trigger] types@.contains_key(x) <==> is_ctr(bk, x) by {
            if types@.contains_key(x) {
                let j = choose|j: int| 0 <= j < n && is_ctr_in(bk.adts[#[trigger] names[j]].ctrs, x);
                assert(names.to_set().contains(names[j]));
                assert(bk.adts.contains_key(names[j]));
            }
            if is_ctr(bk, x) {
                let a = choose|a: Str| #[trigger]
                    bk.adts.contains_key(a) && is_ctr_in(bk.adts[a].ctrs, x);
                assert(names.to_set().contains(a));
                let j = choose|j: int| 0 <= j < names.len() && names[j] == a;
                assert(is_ctr_in(bk.adts[names[j]].ctrs, x));
            }
        }
    }
    // Add the types of unchecked functions to the environment.
    let ghost a = types@;
    let n: usize = book.defs.len();
    let ghost names = book.defs.names();
    let mut i: usize = 0;
    proof {
        name::lemma_in_order(names);
        assert(names.skip(0) =~= names);
    }
    while i < n
        invariant
            i <= n,
            bk == book@,
            names == book.defs.names(),
            n == names.len(),
            names.to_set() == bk.defs.dom(),
            inference::types_closed(types@),
            add_unchecked(a, bk.defs, names) == add_unchecked(types@, bk.defs, names.skip(i as int)),
        decreases n - i,
    {
        let def = book.defs.value_at(i);
        proof {
            let rest = names.skip(i as int);
            assert(rest[0] == names[i as int]);
            assert(rest.drop_first() =~= names.skip(i + 1));
            lemma_insert_closed(types@, def.name@, def.typ@);
        }
        if !def.check {
            types.insert(def.name.clone(), def.typ.generalize_closed());
        }
        i += 1;
    }
    proof {
        assert forall|x: Str| #[trigger] types@.contains_key(x) <==> a.contains_key(x)
            || is_unchecked(bk, x) by {
            lemma_unchecked_dom(a, bk.defs, names, x);
            if exists|j: int|
                0 <= j < names.len() && !bk.defs[#[trigger] names[j]].check && bk.defs[names[j]].name
                    == x {
                let j = choose|j: int|
                    0 <= j < names.len() && !bk.defs[#[trigger] names[j]].check
                        && bk.defs[names[j]].name == x;
                assert(names.to_set().contains(names[j]));
                assert(bk.defs.contains_key(names[j]));
            }
            if is_unchecked(bk, x) {
                let d = choose|d: Str| #[trigger]
                    bk.defs.contains_key(d) && !bk.defs[d].check && bk.defs[d].name == x;
                assert(names.to_set().contains(d));
                let j = choose|j: int| 0 <= j < names.len() && names[j] == d;
                assert(!bk.defs[names[j]].check);
            }
        }
    }
    // Add the types of hvm functions to the environment.
    let ghost b = types@;
    let n: usize = book.hvm_defs.len();
    let ghost names = book.hvm_defs.names();
    let mut i: usize = 0;
    proof {
        name::lemma_in_order(names);
        assert(names.skip(0) =~= names);
    }
    while i < n
        invariant
            i <= n,
            bk == book@,
            names == book.hvm_defs.names(),
            n == names.len(),
            names.to_set() == bk.hvm_defs.dom(),
            inference::types_closed(types@),
            add_hvm(b, bk.hvm_defs, names) == add_hvm(types@, bk.hvm_defs, names.skip(i as int)),
        decreases n - i,
    {
        let def = book.hvm_defs.value_at(i);
        proof {
            let rest = names.skip(i as int);
            assert(rest[0] == names[i as int]);
            assert(rest.drop_first() =~= names.skip(i + 1));
            lemma_insert_closed(types@, def.name@, def.typ@);
        }
        types.insert(def.name.clone(), def.typ.generalize_closed());
        i += 1;
    }
    proof {
        assert forall|x: Str| #[trigger] types@.contains_key(x) <==> is_ctr(bk, x) || is_unchecked(
            bk,
            x,
        ) || is_net(bk, x) by {
            lemma_hvm_dom(b, bk.hvm_defs, names, x);
            assert(b.contains_key(x) <==> a.contains_key(x) || is_unchecked(bk, x));
            if exists|j: int| 0 <= j < names.len() && bk.hvm_defs[#[trigger] names[j]].name == x {
                let j = choose|j: int|
                    0 <= j < names.len() && bk.hvm_defs[#[trigger] names[j]].name == x;
                assert(names.to_set().contains(names[j]));
                assert(bk.hvm_defs.contains_key(names[j]));
            }
            if is_net(bk, x) {
                let d = choose|d: Str| #[trigger]
                    bk.hvm_defs.contains_key(d) && bk.hvm_defs[d].name == x;
                assert(names.to_set().contains(d));
                let j = choose|j: int| 0 <= j < names.len() && names[j] == d;
                assert(bk.hvm_defs[names[j]].name == x);
            }
        }
    }
    types
}

/// The bodies of the functions of a group can be inferred.
pub open spec fn group_ready(
    bk: Bk,
    env: Map<Str, Sch>,
    types: Types,
    group: Seq<Str>,
) -> bool {
    &&& frame::clean(env, St { sub: Map::empty(), next: 0 })
    &&& inference::fields_closed(bk)
    &&& inference::types_closed(types)
    &&& forall|i: int|
        0 <= i < group.len() ==> {
            let names = inference::known(group_env(env, group), types);
            &&& bk.defs.contains_key(#[trigger] group[i])
            &&& term::has_one_rule(bk.defs[group[i]])
            &&& inference::checkable(bk, names, names, term::body_of(bk.defs[group[i]]))
        }
}

pub proof fn lemma_group_clean(e: Map<Str, Sch>, group: Seq<Str>)
    requires
        frame::clean(e, St { sub: Map::empty(), next: 0 }),
    ensures
        frame::clean(group_env(e, group), group_state(group)),
{
    let st = St { sub: Map::empty(), next: 0 };
    let names = some_names(group);
    let bs = inference::mono_binds(names, inference::new_vars(group.len(), 0));
    frame::lemma_step_refl(e, st);
    inference::lemma_new_binds(e, st, st, names);
    frame::lemma_bind_clean(e, st, inference::after(st, group.len()), bs);
    assert(inference::after(st, group.len()) == group_state(group));
}

/// Generates fresh type variables for each function in the group.
fn bind_group(group: &Vec<Name>, env: &mut TypeEnv, state: &mut InferState) -> (r: Vec<Type>)
    requires
        old(state).wf(),
        old(state)@ == (St { sub: Map::empty(), next: 0 }),
    ensures
        final(state).wf(),
        final(env)@ == group_env(old(env)@, name::texts(group@)),
        final(state)@ == group_state(name::texts(group@)),
        ty::models(r@) == inference::new_vars(group@.len(), 0),
{
    let ghost names = name::texts(group@);
    let ghost bs = inference::mono_binds(
        some_names(names),
        inference::new_vars(names.len(), 0),
    );
    let mut tvs: Vec<Type> = Vec::new();
    let n: usize = group.len();
    let mut i: usize = 0;
    assert(bs.take(0) =~= Seq::empty());
    while i < n
        invariant
            i <= n,
            n == group@.len(),
            names == name::texts(group@),
            bs == inference::mono_binds(some_names(names), inference::new_vars(names.len(), 0)),
            state.wf(),
            state@ == (St { sub: Map::empty(), next: i as nat }),
            env@ == scheme::bind_all(old(env)@, bs.take(i as int)),
            tvs@.len() == i,
            forall|j: int| 0 <= j < i ==> (#[trigger] tvs@[j])@ == ty::ty_var(name::base26(j as nat)),
        decreases n - i,
    {
        let tv = state.fresh();
        env.insert(group[i].clone(), Scheme::mono(tv.clone()));
        tvs.push(tv);
        proof {
            let b1 = bs.take(i + 1);
            assert(b1.drop_last() =~= bs.take(i as int));
            assert(b1.last() == bs[i as int]);
            assert(bs[i as int] == (Some(names[i as int]), scheme::mono(ty::ty_var(name::base26(i as nat)))));
        }
        i += 1;
    }
    proof {
        assert(bs.take(n as int) =~= bs);
        assert(ty::models(tvs@) =~= inference::new_vars(group@.len(), 0)) by {
            assert forall|j: int| 0 <= j < n implies ty::models(tvs@)[j] == inference::new_vars(
                group@.len(),
                0,
            )[j] by {
                assert(tvs@[j]@ == ty::ty_var(name::base26(j as nat)));
            }
        }
    }
    tvs
}

/// Infers the types of the functions in the group.
fn infer_group_bodies(
    env: &mut TypeEnv,
    book: &Book,
    group: &Vec<Name>,
    types: &NameMap<Scheme>,
    state: &mut InferState,
    diags: &mut Diagnostics,
    Ghost(outer): Ghost<Map<Str, Sch>>,
) -> (r: Result<Vec<Type>, Diagnostics>)
    requires
        old(state).wf(),
        old(env)@ == group_env(outer, name::texts(group@)),
        old(state)@ == group_state(name::texts(group@)),
        group_ready(book@, outer, types@, name::texts(group@)),
    ensures
        final(state).wf(),
        match r {
            Ok(ts) => {
                &&& ts@.len() == group@.len()
                &&& infer_bodies(
                    book@,
                    outer,
                    types@,
                    name::texts(group@),
                    0,
                    old(state)@,
                    Seq::empty(),
                ) == Ok::<_, (Str, Er)>((ty::models(ts@), final(state)@))
                &&& final(env)@ == old(env)@
                &&& final(diags)@ == old(diags)@
            },
            Err(ds) => match infer_bodies(
                book@,
                outer,
                types@,
                name::texts(group@),
                0,
                old(state)@,
                Seq::empty(),
            ) {
                Ok(_) => false,
                Err((x, e)) => {
                    &&& ds@ == diagnostics::with_item(
                        old(diags)@,
                        diagnostics::function_error(Msg::Type(e), x, book@.defs[x].source),
                    )
                    &&& final(diags)@ == diagnostics::no_diagnostics()
                },
            },
        },
{
    let ghost bk = book@;
    let ghost names = name::texts(group@);
    let ghost env0 = env@;
    let ghost st0 = state@;
    let mut inf_ts: Vec<Type> = Vec::new();
    let n: usize = group.len();
    let mut i: usize = 0;
    proof {
        lemma_group_clean(outer, names);
        frame::lemma_step_refl(env0, st0);
        assert(ty::models(inf_ts@) =~= Seq::<Ty>::empty());
    }
    while i < n
        invariant
            i <= n,
            n == group@.len(),
            bk == book@,
            names == name::texts(group@),
            env0 == group_env(outer, names),
            env0 == old(env)@,
            env@ == env0,
            st0 == old(state)@,
            state.wf(),
            frame::clean(env0, st0),
            frame::step(env0, st0, state@),
            group_ready(bk, outer, types@, names),
            diags@ == old(diags)@,
            inf_ts@.len() == i,
            infer_bodies(bk, outer, types@, names, 0, st0, Seq::empty()) == infer_bodies(
                bk,
                outer,
                types@,
                names,
                i as int,
                state@,
                ty::models(inf_ts@),
            ),
        decreases n - i,
    {
        let ghost before = inf_ts@;
        assert(names[i as int] == group@[i as int]@);
        let def = book.defs.get(&group[i]).unwrap();
        let rule = def.rule();
        proof {
            inference::lemma_steps(env0, st0, state@);
            inference::lemma_frame_next(bk, env0, types@, rule.body@, st0, state@);
            lemma_inferred_pruned(bk, env0, types@, rule.body@, state@);
        }
        match infer::infer(env, book, types, &rule.body, state) {
            Ok(t) => {
                proof {
                    state.lemma_wf();
                }
                let t = state.prune(&t);
                inf_ts.push(t);
                assert(ty::models(inf_ts@) =~= ty::models(before).push(t@));
            },
            Err(e) => {
                diags.add_function_error(
                    Message::Type(e),
                    group[i].clone(),
                    def.source.clone(),
                );
                return Err(diags.take());
            },
        }
        i += 1;
    }
    Ok(inf_ts)
}

/// Unifies the inferred bodies with the corresponding type variables.
fn unify_group_bodies(
    book: &Book,
    group: &Vec<Name>,
    tvs: &Vec<Type>,
    inf_ts: &Vec<Type>,
    state: &mut InferState,
) -> (r: Result<Vec<Type>, Diagnostics>)
    requires
        old(state).wf(),
        ty::models(tvs@) == inference::new_vars(group@.len(), 0),
        inf_ts@.len() == group@.len(),
        forall|i: int|
            0 <= i < group@.len() ==> book@.defs.contains_key((#[trigger] group@[i])@)
                && term::has_one_rule(book@.defs[group@[i]@]),
    ensures
        final(state).wf(),
        match r {
            Ok(ts) => {
                &&& ts@.len() == group@.len()
                &&& unify_bodies(
                    book@,
                    name::texts(group@),
                    ty::models(inf_ts@),
                    0,
                    old(state)@,
                    Seq::empty(),
                ) == Ok::<_, Er>((ty::models(ts@), final(state)@))
            },
            Err(ds) => match unify_bodies(
                book@,
                name::texts(group@),
                ty::models(inf_ts@),
                0,
                old(state)@,
                Seq::empty(),
            ) {
                Ok(_) => false,
                Err(e) => ds@ == diagnostics::only_error(Msg::Type(e)),
            },
        },
{
    let ghost bk = book@;
    let ghost names = name::texts(group@);
    let ghost inf = ty::models(inf_ts@);
    let ghost st0 = state@;
    let mut ts: Vec<Type> = Vec::new();
    let n: usize = group.len();
    let mut i: usize = 0;
    assert(ty::models(ts@) =~= Seq::<Ty>::empty());
    assert(tvs@.len() == ty::models(tvs@).len());
    while i < n
        invariant
            i <= n,
            n == group@.len(),
            n == inf_ts@.len(),
            n == tvs@.len(),
            bk == book@,
            names == name::texts(group@),
            inf == ty::models(inf_ts@),
            ty::models(tvs@) == inference::new_vars(group@.len(), 0),
            forall|j: int|
                0 <= j < group@.len() ==> bk.defs.contains_key((#[trigger] group@[j])@)
                    && term::has_one_rule(bk.defs[group@[j]@]),
            st0 == old(state)@,
            state.wf(),
            ts@.len() == i,
            unify_bodies(bk, names, inf, 0, st0, Seq::empty()) == unify_bodies(
                bk,
                names,
                inf,
                i as int,
                state@,
                ty::models(ts@),
            ),
        decreases n - i,
    {
        let ghost before = ts@;
        proof {
            assert(names[i as int] == group@[i as int]@);
            assert(ty::models(tvs@)[i as int] == tvs@[i as int]@);
            assert(inf[i as int] == inf_ts@[i as int]@);
            state.lemma_wf();
        }
        let tv = state.prune(&tvs[i]);
        let def = book.defs.get(&group[i]).unwrap();
        proof {
            unify::lemma_unify(state@.sub, tv@, inf[i as int]);
        }
        match state.unify_term(&tv, &inf_ts[i], &def.rule().body) {
            Ok(t) => {
                let t = state.prune(&t);
                ts.push(t);
                assert(ty::models(ts@) =~= ty::models(before).push(t@));
            },
            Err(e) => {
                return Err(Diagnostics::from_error(Message::Type(e)));
            },
        }
        i += 1;
    }
    Ok(ts)
}

/// Specializes the types of a group against the expected types, then
/// generalizes and stores them.
fn specialize_group(
    book: &Book,
    group: &Vec<Name>,
    ts: &Vec<Type>,
    types: &mut NameMap<Scheme>,
    diags: &mut Diagnostics,
) -> (r: Result<(), Diagnostics>)
    requires
        ts@.len() == group@.len(),
        inference::types_closed(old(types)@),
        forall|i: int| 0 <= i < group@.len() ==> book@.defs.contains_key((#[trigger] group@[i])@),
    ensures
        inference::types_closed(final(types)@),
        match r {
            Ok(()) => {
                &&& specialize_all(
                    book@,
                    name::texts(group@),
                    ty::models(ts@),
                    0,
                    old(types)@,
                ) == Ok::<_, (Str, Unfit)>(final(types)@)
                &&& final(diags)@ == old(diags)@
            },
            Err(ds) => match specialize_all(
                book@,
                name::texts(group@),
                ty::models(ts@),
                0,
                old(types)@,
            ) {
                Ok(_) => false,
                Err((x, e)) => {
                    &&& ds@ == diagnostics::with_item(
                        old(diags)@,
                        diagnostics::function_error(Msg::Specialize(e), x, book@.defs[x].source),
                    )
                    &&& final(diags)@ == diagnostics::no_diagnostics()
                },
            },
        },
{
    let ghost bk = book@;
    let ghost names = name::texts(group@);
    let ghost us = ty::models(ts@);
    let n: usize = group.len();
    let mut i: usize = 0;
    while i < n
        invariant
            i <= n,
            n == group@.len(),
            n == ts@.len(),
            bk == book@,
            names == name::texts(group@),
            us == ty::models(ts@),
            forall|j: int| 0 <= j < group@.len() ==> bk.defs.contains_key((#[trigger] group@[j])@),
            inference::types_closed(types@),
            diags@ == old(diags)@,
            specialize_all(bk, names, us, 0, old(types)@) == specialize_all(
                bk,
                names,
                us,
                i as int,
                types@,
            ),
        decreases n - i,
    {
        proof {
            assert(names[i as int] == group@[i as int]@);
            assert(us[i as int] == ts@[i as int]@);
        }
        let def = book.defs.get(&group[i]).unwrap();
        match specialize::specialize(&ts[i], &def.typ) {
            Ok(t) => {
                proof {
                    lemma_insert_closed(types@, names[i as int], t@);
                }
                types.insert(group[i].clone(), t.generalize_closed());
            },
            Err(e) => {
                diags.add_function_error(
                    Message::Specialize(e),
                    group[i].clone(),
                    def.source.clone(),
                );
                return Err(diags.take());
            },
        }
        i += 1;
    }
    Ok(())
}

/// An inferred type is as the substitution makes it.
proof fn lemma_inferred_pruned(bk: Bk, env: Map<Str, Sch>, types: Types, t: Tm, st: St)
    ensures
        match inference::infer(bk, env, types, t, st) {
            Ok((u, st1)) => unify::idempotent(st1.sub) ==> ty::apply(u, st1.sub) == u,
            Err(_) => true,
        },
{
    if let Ok((v, st1)) = inference::infer_raw(bk, env, types, t, st) {
        if unify::idempotent(st1.sub) {
            unify::lemma_idempotent_apply(st1.sub, v);
        }
    }
}

/// Removes the functions of the group from the environment.
fn unbind_group(group: &Vec<Name>, env: &mut TypeEnv)
    ensures
        final(env)@ == old(env)@.remove_keys(name::texts(group@).to_set()),
{
    let ghost names = name::texts(group@);
    let n: usize = group.len();
    let mut i: usize = 0;
    assert(env@.remove_keys(names.take(0).to_set()) =~= env@);
    while i < n
        invariant
            i <= n,
            n == group@.len(),
            names == name::texts(group@),
            env@ == old(env)@.remove_keys(names.take(i as int).to_set()),
        decreases n - i,
    {
        let ghost before = env@;
        env.0.remove(&group[i]);
        proof {
            let (a, b) = (names.take(i as int), names.take(i + 1));
            assert forall|x: Str| b.to_set().contains(x) <==> a.to_set().contains(x) || x
                == names[i as int] by {
                if a.contains(x) {
                    let j = choose|j: int| 0 <= j < a.len() && a[j] == x;
                    assert(b[j] == x);
                }
                assert(b[i as int] == names[i as int]);
                if b.contains(x) && x != names[i as int] {
                    let j = choose|j: int| 0 <= j < b.len() && b[j] == x;
                    assert(a[j] == x);
                }
            }
            assert(env@ =~= old(env)@.remove_keys(b.to_set()));
        }
        i += 1;
    }
    assert(names.take(n as int) =~= names);
}

/// The environment of a group binds the functions of the group too, and nothing
/// else changes.
proof fn lemma_group_env(env: Map<Str, Sch>, group: Seq<Str>)
    ensures
        forall|x: Str| #[trigger]
            group_env(env, group).contains_key(x) <==> env.contains_key(x) || group.contains(x),
        group_env(env, group).remove_keys(group.to_set()) == env.remove_keys(group.to_set()),
{
    let none = Map::<Str, Sch>::empty();
    let xs = some_names(group);
    let bs = inference::mono_binds(xs, inference::new_vars(group.len(), 0));
    inference::lemma_known(env, none, bs, xs);
    assert forall|x: Str| xs.contains(Some(x)) <==> group.contains(x) by {
        if group.contains(x) {
            let j = choose|j: int| 0 <= j < group.len() && group[j] == x;
            assert(xs[j] == Some(x));
        }
        if xs.contains(Some(x)) {
            let j = choose|j: int| 0 <= j < xs.len() && xs[j] == Some(x);
            assert(group[j] == x);
        }
    }
    assert forall|x: Str| #[trigger] group_env(env, group).contains_key(x) <==> env.contains_key(x)
        || group.contains(x) by {
        assert(inference::known(group_env(env, group), none).contains(x) <==> inference::with_names(
            inference::known(env, none),
            xs,
        ).contains(x));
    }
    assert forall|x: Str| #[trigger] env.contains_key(x) && !group.contains(x) implies group_env(
        env,
        group,
    )[x] == env[x] by {
        lemma_bind_others(env, bs, xs, x);
    }
    assert(group_env(env, group).remove_keys(group.to_set()) =~= env.remove_keys(group.to_set()));
}

/// Names that are not bound keep their schemes.
proof fn lemma_bind_others(env: Map<Str, Sch>, bs: Seq<Bind>, xs: Seq<Option<Str>>, x: Str)
    requires
        xs.len() == bs.len(),
        forall|i: int| 0 <= i < bs.len() ==> (#[trigger] bs[i]).0 == xs[i],
        !xs.contains(Some(x)),
    ensures
        scheme::lookup(scheme::bind_all(env, bs), x) == scheme::lookup(env, x),
    decreases bs.len(),
{
    if bs.len() > 0 {
        let (b0, x0) = (bs.drop_last(), xs.drop_last());
        assert forall|i: int| 0 <= i < b0.len() implies (#[trigger] b0[i]).0 == x0[i] by {
            assert(b0[i] == bs[i]);
        }
        if x0.contains(Some(x)) {
            let i = choose|i: int| 0 <= i < x0.len() && x0[i] == Some(x);
            assert(xs[i] == Some(x));
        }
        lemma_bind_others(env, b0, x0, x);
        assert(bs[bs.len() - 1].0 == xs[bs.len() - 1]);
    }
}

/// Infers the types of a group of functions that call each other.
pub fn infer_group(
    env: &mut TypeEnv,
    book: &Book,
    group: &Vec<Name>,
    types: &mut NameMap<Scheme>,
    diags: &mut Diagnostics,
) -> (r: Result<(), Diagnostics>)
    requires
        group_ready(book@, old(env)@, old(types)@, name::texts(group@)),
    ensures
        inference::types_closed(final(types)@),
        match r {
            Ok(()) => {
                &&& inferred_group(
                    book@,
                    old(env)@,
                    old(types)@,
                    name::texts(group@),
                    old(diags)@,
                ) == Ok::<_, (Diags, Diags)>(final(types)@)
                &&& name::texts(group@).no_duplicates() ==> match annotation_laws::body_types(
                    book@,
                    old(env)@,
                    old(types)@,
                    name::texts(group@),
                ) {
                    Some(ts) => annotation_laws::is_group_stored(
                        book@,
                        name::texts(group@),
                        ts,
                        old(types)@,
                        final(types)@,
                    ),
                    None => false,
                }
                &&& final(env)@ == old(env)@.remove_keys(name::texts(group@).to_set())
                &&& final(diags)@ == old(diags)@
            },
            Err(ds) => inferred_group(
                book@,
                old(env)@,
                old(types)@,
                name::texts(group@),
                old(diags)@,
            ) == Err::<Types, _>((ds@, final(diags)@)),
        },
{
    let ghost names = name::texts(group@);
    proof {
        assert forall|i: int| 0 <= i < group@.len() implies book@.defs.contains_key((#[trigger] group@[i])@)
            && term::has_one_rule(book@.defs[group@[i]@]) by {
            assert(names[i] == group@[i]@);
        }
    }
    proof {
        if names.no_duplicates() {
            annotation_laws::law_group_annotations(
                book@,
                old(env)@,
                old(types)@,
                names,
                old(diags)@,
            );
        }
    }
    let mut state = InferState::new();
    // Generate fresh type variables for each function in the group.
    let tvs = bind_group(group, env, &mut state);
    // Infer the types of the functions in the group.
    let ghost outer = old(env)@;
    let inf_ts = match infer_group_bodies(
        env,
        book,
        group,
        types,
        &mut state,
        diags,
        Ghost(outer),
    ) {
        Ok(ts) => ts,
        Err(ds) => {
            return Err(ds);
        },
    };
    // Remove the type variables of the group from the environment.
    // This avoids cloning of already generalized types.
    unbind_group(group, env);
    proof {
        lemma_group_env(outer, names);
    }
    // Unify the inferred body with the corresponding type variable.
    let ts = match unify_group_bodies(book, group, &tvs, &inf_ts, &mut state) {
        Ok(ts) => ts,
        Err(ds) => {
            return Err(ds);
        },
    };
    // After all group constraints are known, re-prune every inferred type
    // through the final group state.
    let ps = infer::prune_all(&ts, &mut state);
    proof {
        assert(ty::models(ps@).len() == ty::models(ts@).len());
    }
    // Specialize against the expected type, then generalize and store. Any
    // remaining substitutions from the recursive group are local to this group.
    match specialize_group(book, group, &ps, types, diags) {
        Ok(()) => {},
        Err(ds) => {
            return Err(ds);
        },
    }
    diags.fatal()
}

/// What a group adds to the types.
proof fn lemma_specialize_dom(bk: Bk, group: Seq<Str>, ts: Seq<Ty>, i: int, types: Types)
    requires
        0 <= i <= group.len(),
    ensures
        match specialize_all(bk, group, ts, i, types) {
            Ok(types1) => forall|x: Str| #[trigger]
                types1.contains_key(x) <==> types.contains_key(x) || exists|j: int|
                    i <= j < group.len() && #[trigger] group[j] == x,
            Err(_) => true,
        },
    decreases group.len() - i,
{
    if i < group.len() {
        if let Ok(t) = specialize::specialized(ts[i], bk.defs[group[i]].typ) {
            let mid = types.insert(group[i], scheme::closed_scheme(t));
            lemma_specialize_dom(bk, group, ts, i + 1, mid);
            if let Ok(types1) = specialize_all(bk, group, ts, i, types) {
                assert forall|x: Str| #[trigger] types1.contains_key(x) <==> types.contains_key(x)
                    || exists|j: int| i <= j < group.len() && #[trigger] group[j] == x by {
                    if types1.contains_key(x) && !types.contains_key(x) {
                        if x == group[i] {
                            assert(group[i] == x);
                        } else {
                            let j = choose|j: int| i + 1 <= j < group.len() && #[trigger] group[j] == x;
                            assert(i <= j < group.len() && group[j] == x);
                        }
                    }
                    if exists|j: int| i <= j < group.len() && #[trigger] group[j] == x {
                        let j = choose|j: int| i <= j < group.len() && #[trigger] group[j] == x;
                        if j != i {
                            assert(i + 1 <= j < group.len() && group[j] == x);
                        }
                        assert(mid.contains_key(x) || exists|j: int|
                            i + 1 <= j < group.len() && #[trigger] group[j] == x);
                    }
                }
            }
        }
    }
}

/// The types hold those that are given and those of the first groups.
spec fn has_types(bk: Bk, gs: Seq<Seq<Str>>, k: int, types: Types) -> bool {
    &&& inference::types_closed(types)
    &&& forall|x: Str| #[trigger] given_types(bk).contains_key(x) ==> types.contains_key(x)
    &&& forall|l: int, x: Str|
        0 <= l < k && #[trigger] gs[l].contains(x) ==> types.contains_key(x)
    &&& forall|x: Str| #[trigger] types.contains_key(x) ==> globals(bk).contains(x)
}

proof fn lemma_group_ready(bk: Bk, gs: Seq<Seq<Str>>, k: int, types: Types)
    requires
        is_checkable(bk),
        name_graph::is_groups(rec_groups::deps_of(bk), gs),
        0 <= k < gs.len(),
        has_types(bk, gs, k, types),
    ensures
        group_ready(bk, Map::empty(), types, gs[k]),
{
    let d = rec_groups::deps_of(bk);
    let none = Map::<Str, Sch>::empty();
    let names = inference::known(group_env(none, gs[k]), types);
    lemma_group_env(none, gs[k]);
    assert forall|i: int| 0 <= i < gs[k].len() implies {
        &&& bk.defs.contains_key(#[trigger] gs[k][i])
        &&& term::has_one_rule(bk.defs[gs[k][i]])
        &&& inference::checkable(bk, names, names, term::body_of(bk.defs[gs[k][i]]))
    } by {
        let x = gs[k][i];
        assert(gs[k].contains(x));
        assert(name_graph::nodes(d).contains(x));
        lemma_node(bk, x);
        let body = term::body_of(bk.defs[x]);
        assert forall|y: Str| #[trigger] globals(bk).contains(y) && term::all_refs(body).contains(y) implies names.contains(
            y,
        ) by {
            if !given_types(bk).contains_key(y) {
                assert(rec_groups::is_dep(bk, y));
                assert(name_graph::dep(d, x, y));
                assert(name_graph::nodes(d).contains(y));
                let l = choose|l: int| 0 <= l < gs.len() && #[trigger] gs[l].contains(y);
                assert(l <= k);
                if l == k {
                    assert(group_env(none, gs[k]).contains_key(y));
                }
            } else {
                assert(types.contains_key(y));
            }
        }
        inference::lemma_checkable(bk, Set::empty(), globals(bk), names, names, body);
    }
}

/// A name in the dependency graph is that of a function that is inferred.
proof fn lemma_node(bk: Bk, x: Str)
    requires
        name_graph::nodes(rec_groups::deps_of(bk)).contains(x),
    ensures
        rec_groups::is_inferred(bk, x),
{
    let d = rec_groups::deps_of(bk);
    if !d.contains_key(x) {
        let y = choose|y: Str| #[trigger] name_graph::dep(d, y, x);
        assert(d[y].contains(x));
    }
}

/// Infers the types of all functions of a program.
pub fn infer_book(book: &Book, diags: &mut Diagnostics) -> (r: Result<
    NameMap<Scheme>,
    Diagnostics,
>)
    requires
        is_checkable(book@),
    ensures
        match r {
            Ok(types) => {
                &&& inferred_book(book@, old(diags)@) == Ok::<_, (Diags, Diags)>(types@)
                &&& final(diags)@ == old(diags)@
                &&& forall|x: Str| #[trigger] types@.contains_key(x) <==> is_typed(book@, x)
                &&& forall|x: Str| #[trigger] book@.defs.contains_key(x) ==> types@.contains_key(x)
                &&& stored_types::are_closed(types@)
                &&& stored_types::keeps_given(book@, types@)
                &&& annotation_laws::fits_annotations(book@, types@)
                &&& program_typing::is_typed_groups(
                    book@,
                    given_types(book@),
                    rec_groups::rec_groups(book@),
                    0,
                    old(diags)@,
                )
            },
            Err(ds) => inferred_book(book@, old(diags)@) == Err::<Types, _>((ds@, final(diags)@)),
        },
{
    let ghost bk = book@;
    let groups = RecGroups::from_book(book);
    let ghost gs = groups@;
    let mut env = TypeEnv::new();
    // Note: We store the inferred and generalized types in a separate
    // environment, to avoid unnecessary cloning (since no immutable data).
    let mut types = initial_types(book);
    // Infer the types of regular functions.
    let n: usize = groups.0.len();
    let mut k: usize = 0;
    proof {
        book.defs.lemma_finite();
        stored_types::lemma_given(bk);
    }
    while k < n
        invariant
            k <= n,
            bk == book@,
            gs == groups@,
            n == groups.0@.len(),
            n == gs.len(),
            gs == rec_groups::rec_groups(bk),
            name_graph::is_groups(rec_groups::deps_of(bk), gs),
            is_checkable(bk),
            env@ == Map::<Str, Sch>::empty(),
            has_types(bk, gs, k as int, types@),
            forall|x: Str| #[trigger]
                given_types(bk).contains_key(x) <==> is_ctr(bk, x) || is_unchecked(bk, x) || is_net(
                    bk,
                    x,
                ),
            stored_types::are_closed(types@),
            stored_types::keeps_given(bk, types@),
            diags@ == old(diags)@,
            inferred_book(bk, old(diags)@) == inferred_groups(bk, types@, gs, k as int, old(diags)@),
            program_typing::is_typed_groups(bk, types@, gs, k as int, old(diags)@)
                ==> program_typing::is_typed_groups(bk, given_types(bk), gs, 0, old(diags)@),
        decreases n - k,
    {
        let ghost before = types@;
        proof {
            lemma_group_ready(bk, gs, k as int, before);
            program_typing::law_group_typed(bk, Map::empty(), before, gs[k as int]);
            assert forall|j: int| 0 <= j < gs[k as int].len() implies rec_groups::is_inferred(
                bk,
                #[trigger] gs[k as int][j],
            ) by {
                assert(gs[k as int].contains(gs[k as int][j]));
                lemma_node(bk, gs[k as int][j]);
            }
            stored_types::lemma_group_stores(bk, before, gs[k as int], old(diags)@);
            assert(gs[k as int] == name::texts(groups.0@[k as int]@));
        }
        match infer_group(&mut env, book, &groups.0[k], &mut types, diags) {
            Ok(()) => {
                proof {
                    assert(env@ =~= Map::<Str, Sch>::empty());
                    lemma_group_adds(bk, gs, k as int, before, types@, old(diags)@);
                }
            },
            Err(ds) => {
                return Err(ds);
            },
        }
        k += 1;
    }
    proof {
        assert forall|x: Str| #[trigger] bk.defs.contains_key(x) implies types@.contains_key(x) by {
            assert(globals(bk).contains(x));
            if !given_types(bk).contains_key(x) {
                let d = rec_groups::deps_of(bk);
                assert(d.contains_key(x));
                assert(name_graph::nodes(d).contains(x));
                let l = choose|l: int| 0 <= l < gs.len() && #[trigger] gs[l].contains(x);
                assert(gs[l].contains(x));
            }
        }
        annotation_laws::lemma_fits_annotations(bk, old(diags)@);
        assert forall|x: Str| #[trigger] types@.contains_key(x) <==> is_typed(bk, x) by {
            assert(given_types(bk).contains_key(x) ==> types@.contains_key(x));
            assert(bk.defs.contains_key(x) ==> types@.contains_key(x));
            assert(types@.contains_key(x) ==> globals(bk).contains(x));
        }
    }
    Ok(types)
}

/// A group adds the types of its functions.
proof fn lemma_group_adds(bk: Bk, gs: Seq<Seq<Str>>, k: int, types: Types, types1: Types, ds: Diags)
    requires
        0 <= k < gs.len(),
        has_types(bk, gs, k, types),
        forall|j: int| 0 <= j < gs[k].len() ==> rec_groups::is_inferred(bk, #[trigger] gs[k][j]),
        inference::types_closed(types1),
        inferred_group(bk, Map::empty(), types, gs[k], ds) == Ok::<_, (Diags, Diags)>(types1),
    ensures
        has_types(bk, gs, k + 1, types1),
{
    let group = gs[k];
    let none = Map::<Str, Sch>::empty();
    if let Ok((inf, st)) = infer_bodies(bk, none, types, group, 0, group_state(group), Seq::empty()) {
        if let Ok((ts, st1)) = unify_bodies(bk, group, inf, 0, st, Seq::empty()) {
            lemma_specialize_dom(bk, group, ty::apply_all(ts, st1.sub), 0, types);
            assert forall|l: int, x: Str| 0 <= l < k + 1 && #[trigger] gs[l].contains(x) implies types1.contains_key(
                x,
            ) by {
                if l == k {
                    let j = choose|j: int| 0 <= j < group.len() && group[j] == x;
                    assert(0 <= j < group.len() && group[j] == x);
                } else {
                    assert(types.contains_key(x));
                }
            }
        }
    }
}

/// Gives every function of the program its type.
fn store_types(book: &mut Book, types: &NameMap<Scheme>)
    requires
        forall|x: Str| #[trigger]
            old(book)@.defs.contains_key(x) ==> old(book)@.defs[x].name == x && types@.contains_key(x),
    ensures
        final(book)@ == with_types(old(book)@, types@),
{
    let ghost bk = book@;
    let ghost goal = with_types(bk, types@);
    let names = book.defs.keys();
    let ghost all = name::texts(names@);
    let n: usize = names.len();
    let mut i: usize = 0;
    while i < n
        invariant
            i <= n,
            n == names@.len(),
            all == name::texts(names@),
            all.to_set() == bk.defs.dom(),
            name::sorted(all),
            bk == old(book)@,
            goal == with_types(bk, types@),
            forall|x: Str| #[trigger]
                bk.defs.contains_key(x) ==> bk.defs[x].name == x && types@.contains_key(x),
            book@ == (Bk { defs: book@.defs, ..bk }),
            book@.defs.dom() == bk.defs.dom(),
            forall|j: int| 0 <= j < i ==> book@.defs[#[trigger] all[j]] == goal.defs[all[j]],
            forall|j: int| i <= j < n ==> book@.defs[#[trigger] all[j]] == bk.defs[all[j]],
        decreases n - i,
    {
        let ghost before = book@.defs;
        let ghost x = all[i as int];
        proof {
            assert(names@[i as int]@ == x);
            assert(all.to_set().contains(x));
            assert(bk.defs.contains_key(x));
            assert(before.dom().contains(x));
            assert(before[all[i as int]] == bk.defs[x]);
            name::lemma_sorted_no_duplicates(all);
        }
        let mut def = book.defs.remove(&names[i]).unwrap();
        let ghost old_def = def@;
        let mut var_gen = VarGen::new();
        def.typ = types.get(&def.name).unwrap().instantiate(&mut var_gen);
        proof {
            assert(def@ == (Dm { typ: def.typ@, ..old_def }));
            assert(def@ == goal.defs[x]);
        }
        book.defs.insert(names[i].clone(), def);
        proof {
            assert(book@.defs =~= before.insert(x, goal.defs[x]));
            assert(book@.defs.dom() =~= bk.defs.dom());
        }
        i += 1;
    }
    proof {
        assert forall|x: Str| bk.defs.contains_key(x) implies book@.defs[x] == goal.defs[x] by {
            assert(all.to_set().contains(x));
            let j = choose|j: int| 0 <= j < all.len() && all[j] == x;
            assert(book@.defs[all[j]] == goal.defs[all[j]]);
        }
        assert(book@.defs =~= goal.defs);
    }
}

impl<'book> Ctx<'book> {
    /// Infers the types of all functions and stores them in the program.
    pub fn type_check(&mut self) -> (r: Result<(), Diagnostics>)
        requires
            is_checkable(old(self).book@),
        ensures
            *final(final(self).book) == *final(old(self).book),
            match r {
                Ok(()) => match inferred_book(old(self).book@, old(self).info@) {
                    Ok(types) => {
                        &&& final(self).book@ == with_types(old(self).book@, types)
                        &&& stored_types::are_closed(types)
                        &&& stored_types::keeps_given(old(self).book@, types)
                        &&& annotation_laws::fits_annotations(old(self).book@, types)
                        &&& annotation_laws::keeps_annotations(old(self).book@, final(self).book@)
                        &&& forall|x: Str| #[trigger]
                            types.contains_key(x) <==> is_typed(old(self).book@, x)
                        &&& forall|x: Str| #[trigger]
                            old(self).book@.defs.contains_key(x) ==> types.contains_key(x)
                        &&& final(self).info@ == old(self).info@
                    },
                    Err(_) => false,
                },
                Err(ds) => {
                    &&& inferred_book(old(self).book@, old(self).info@) == Err::<Types, _>(
                        (ds@, final(self).info@),
                    )
                    &&& final(self).book@ == old(self).book@
                },
            },
    {
        let ghost bk = self.book@;
        let types = match infer_book(self.book, &mut self.info) {
            Ok(types) => types,
            Err(ds) => {
                return Err(ds);
            },
        };
        store_types(self.book, &types);
        proof {
            annotation_laws::law_annotations_are_stored(bk, types@);
        }
        Ok(())
    }
}

} // verus!
