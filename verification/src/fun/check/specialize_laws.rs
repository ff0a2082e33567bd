//! Which annotations fit an inferred type.

use crate::fun::check::inference;
use crate::fun::check::scheme;
use crate::fun::check::specialize;
use crate::fun::check::unify;
use crate::fun::check::unify_laws;
use crate::fun::ty;
use crate::fun::ty::{Head, Ty};
use crate::name;
use crate::name::Str;
use vstd::prelude::*;

verus! {

/// The second type comes from the first one by replacing variables.
pub open spec fn is_superset(a: Ty, b: Ty) -> bool {
    exists|r: Map<Str, Ty>| #[trigger] ty::apply(a, r) == b
}

/* Merging */

/// The first map does what the second one does.
spec fn covers(m: Map<Str, Ty>, s: Map<Str, Ty>) -> bool {
    forall|x: Str| #[trigger] s.contains_key(x) ==> s[x] == ty::image(m, x)
}

/// The second map holds the first one.
spec fn is_within(s: Map<Str, Ty>, m: Map<Str, Ty>) -> bool {
    forall|x: Str| #[trigger] s.contains_key(x) ==> m.contains_key(x) && m[x] == s[x]
}

/// A type merges with every type that it can become.
proof fn lemma_merge_succeeds(t: Ty, exp: Ty, s: Map<Str, Ty>, m: Map<Str, Ty>)
    requires
        unify_laws::plain(t),
        unify_laws::plain(exp),
        ty::apply(t, m) == exp,
        covers(m, s),
    ensures
        match specialize::merge(t, exp, s) {
            Ok(s1) => covers(m, s1),
            Err(_) => false,
        },
    decreases t, 0nat,
{
    if let Head::Var(x) = t.head {
        assert(t.kids =~= Seq::empty());
        assert(t == ty::ty_var(x));
        assert(ty::image(m, x) == exp);
    } else {
        ty::lemma_apply_kids(t, m);
        assert forall|i: int| 0 <= i < t.kids.len() implies ty::apply(#[trigger] t.kids[i], m)
            == exp.kids[i] && unify_laws::plain(t.kids[i]) && unify_laws::plain(exp.kids[i]) by {
            assert(unify_laws::plain(exp.kids[i]));
        }
        lemma_merge_all_succeeds(t.kids, exp.kids, s, m);
    }
}

proof fn lemma_merge_all_succeeds(xs: Seq<Ty>, ys: Seq<Ty>, s: Map<Str, Ty>, m: Map<Str, Ty>)
    requires
        xs.len() == ys.len(),
        forall|i: int|
            0 <= i < xs.len() ==> ty::apply(#[trigger] xs[i], m) == ys[i] && unify_laws::plain(
                xs[i],
            ) && unify_laws::plain(ys[i]),
        covers(m, s),
    ensures
        match specialize::merge_all(xs, ys, s) {
            Ok(s1) => covers(m, s1),
            Err(_) => false,
        },
    decreases xs, xs.len(),
{
    if xs.len() > 0 {
        assert(ty::apply(xs[0], m) == ys[0]);
        lemma_merge_succeeds(xs[0], ys[0], s, m);
        if let Ok(s1) = specialize::merge(xs[0], ys[0], s) {
            let (xr, yr) = (xs.drop_first(), ys.drop_first());
            assert forall|i: int| 0 <= i < xr.len() implies ty::apply(#[trigger] xr[i], m) == yr[i]
                && unify_laws::plain(xr[i]) && unify_laws::plain(yr[i]) by {
                assert(xr[i] == xs[i + 1]);
            }
            lemma_merge_all_succeeds(xr, yr, s1, m);
        }
    }
}

/// What merging finds out makes the first type the second one.
proof fn lemma_merge_sound(t: Ty, exp: Ty, s: Map<Str, Ty>)
    requires
        unify_laws::plain(t),
        unify_laws::plain(exp),
    ensures
        match specialize::merge(t, exp, s) {
            Ok(s1) => {
                &&& is_within(s, s1)
                &&& forall|m: Map<Str, Ty>| #[trigger]
                    is_within(s1, m) ==> ty::apply(t, m) == exp
            },
            Err(_) => true,
        },
    decreases t, 0nat,
{
    if let Ok(s1) = specialize::merge(t, exp, s) {
        if let Head::Var(x) = t.head {
            assert(s1.contains_key(x) && s1[x] == exp);
            assert forall|m: Map<Str, Ty>| #[trigger] is_within(s1, m) implies ty::apply(t, m) == exp by {
                assert(m.contains_key(x) && m[x] == exp);
            }
        } else {
            assert forall|i: int| 0 <= i < t.kids.len() implies unify_laws::plain(
                #[trigger] t.kids[i],
            ) && unify_laws::plain(exp.kids[i]) by {
                assert(unify_laws::plain(exp.kids[i]));
            }
            lemma_merge_all_sound(t.kids, exp.kids, s);
            assert forall|m: Map<Str, Ty>| #[trigger] is_within(s1, m) implies ty::apply(t, m) == exp by {
                ty::lemma_apply_kids(t, m);
                assert(ty::apply_all(t.kids, m) =~= exp.kids);
            }
        }
    }
}

proof fn lemma_merge_all_sound(xs: Seq<Ty>, ys: Seq<Ty>, s: Map<Str, Ty>)
    requires
        xs.len() == ys.len(),
        forall|i: int|
            0 <= i < xs.len() ==> unify_laws::plain(#[trigger] xs[i]) && unify_laws::plain(ys[i]),
    ensures
        match specialize::merge_all(xs, ys, s) {
            Ok(s1) => {
                &&& is_within(s, s1)
                &&& forall|m: Map<Str, Ty>| #[trigger]
                    is_within(s1, m) ==> ty::apply_all(xs, m) == ys
            },
            Err(_) => true,
        },
    decreases xs, xs.len(),
{
    if xs.len() > 0 {
        assert(unify_laws::plain(xs[0]) && unify_laws::plain(ys[0]));
        lemma_merge_sound(xs[0], ys[0], s);
        if let Ok(s1) = specialize::merge(xs[0], ys[0], s) {
            let (xr, yr) = (xs.drop_first(), ys.drop_first());
            assert forall|i: int| 0 <= i < xr.len() implies unify_laws::plain(#[trigger] xr[i])
                && unify_laws::plain(yr[i]) by {
                assert(xr[i] == xs[i + 1]);
            }
            lemma_merge_all_sound(xr, yr, s1);
            if let Ok(s2) = specialize::merge_all(xr, yr, s1) {
                assert(is_within(s, s2));
                assert forall|m: Map<Str, Ty>| #[trigger] is_within(s2, m) implies ty::apply_all(
                    xs,
                    m,
                ) == ys by {
                    assert(is_within(s1, m));
                    assert(ty::apply_all(xr, m) == yr);
                    assert forall|i: int| 0 <= i < xs.len() implies ty::apply(xs[i], m)
                        == #[trigger] ys[i] by {
                        if i > 0 {
                            assert(ty::apply_all(xr, m)[i - 1] == yr[i - 1]);
                        }
                    }
                    assert(ty::apply_all(xs, m) =~= ys);
                }
            }
        }
    } else {
        assert forall|m: Map<Str, Ty>| #[trigger] is_within(s, m) implies ty::apply_all(xs, m) == ys by {
            assert(ty::apply_all(xs, m) =~= ys);
        }
    }
}

/* Renaming */

/// The names that the new variables stand for.
pub open spec fn names_back(vars: Seq<Str>, next: nat) -> Map<Str, Ty>
    decreases vars.len(),
{
    if vars.len() == 0 {
        Map::empty()
    } else {
        names_back(vars.drop_last(), next).insert(
            name::base26((next + vars.len() - 1) as nat),
            ty::ty_var(vars.last()),
        )
    }
}

proof fn lemma_names_back(vars: Seq<Str>, next: nat, x: Str)
    ensures
        names_back(vars, next).contains_key(x) <==> exists|k: nat|
            next <= k < next + vars.len() && x == #[trigger] name::base26(k),
    decreases vars.len(),
{
    if vars.len() > 0 {
        let k = (next + vars.len() - 1) as nat;
        lemma_names_back(vars.drop_last(), next, x);
        if x == name::base26(k) {
            assert(next <= k < next + vars.len());
        }
        if exists|j: nat| next <= j < next + vars.len() && x == #[trigger] name::base26(j) {
            let j = choose|j: nat| next <= j < next + vars.len() && x == #[trigger] name::base26(j);
            if j != k {
                assert(next <= j < next + vars.drop_last().len());
            }
        }
        if names_back(vars.drop_last(), next).contains_key(x) {
            let j = choose|j: nat|
                next <= j < next + vars.drop_last().len() && x == #[trigger] name::base26(j);
            assert(next <= j < next + vars.len());
        }
    }
}

/// Each variable becomes a new one, which stands for it.
proof fn lemma_there_and_back(vars: Seq<Str>, next: nat, v: Str)
    requires
        vars.no_duplicates(),
        vars.contains(v),
    ensures
        ({
            let m = scheme::fresh_map(vars, next);
            let b = names_back(vars, next);
            &&& m.contains_key(v)
            &&& m[v].head is Var
            &&& m[v] == ty::ty_var(m[v].head->Var_0)
            &&& b.contains_key(m[v].head->Var_0)
            &&& b[m[v].head->Var_0] == ty::ty_var(v)
        }),
    decreases vars.len(),
{
    let last = vars.last();
    let init = vars.drop_last();
    let k = (next + vars.len() - 1) as nat;
    let i = choose|i: int| 0 <= i < vars.len() && vars[i] == v;
    if i < init.len() {
        assert(init[i] == v);
        assert(v != last);
        lemma_there_and_back(init, next, v);
        inference::lemma_fresh_map(init, next, v);
        let j = choose|j: nat|
            next <= j < next + init.len() && scheme::fresh_map(init, next)[v] == ty::ty_var(
                #[trigger] name::base26(j),
            );
        if name::base26(j) == name::base26(k) {
            name::lemma_base26_injective(j, k);
        }
    }
}

/// The variables of a type.
pub open spec fn vars_of(t: Ty) -> Seq<Str> {
    name::in_order(ty::fv(t))
}

pub proof fn lemma_vars_of(t: Ty, v: Str)
    ensures
        vars_of(t).no_duplicates(),
        vars_of(t).contains(v) <==> ty::fv(t).contains(v),
{
    ty::lemma_fv_finite(t);
    name::lemma_finite_in_order(ty::fv(t));
    name::lemma_sorted_no_duplicates(vars_of(t));
    assert(vars_of(t).to_set().contains(v) <==> ty::fv(t).contains(v));
}

proof fn lemma_apply_none(t: Ty)
    ensures
        ty::apply(t, Map::<Str, Ty>::empty()) == t,
{
    ty::lemma_apply_disjoint(t, Map::empty());
}

proof fn lemma_plain_formed(t: Ty)
    requires
        unify_laws::plain(t),
    ensures
        ty::is_formed(t),
    decreases t,
{
    assert forall|i: int| 0 <= i < t.kids.len() implies ty::is_formed(#[trigger] t.kids[i]) by {
        lemma_plain_formed(t.kids[i]);
    }
}

/// Only what becomes of the variables counts.
proof fn lemma_formed_images(t: Ty, m1: Map<Str, Ty>, m2: Map<Str, Ty>)
    requires
        ty::is_formed(t),
        forall|x: Str| #[trigger] ty::fv(t).contains(x) ==> ty::image(m1, x) == ty::image(m2, x),
    ensures
        ty::apply(t, m1) == ty::apply(t, m2),
    decreases t,
{
    if let Head::Var(x) = t.head {
        assert(ty::fv(t).contains(x));
        assert(t.kids =~= Seq::empty());
        assert(t == ty::ty_var(x));
    } else {
        ty::lemma_apply_kids(t, m1);
        ty::lemma_apply_kids(t, m2);
        assert forall|i: int| 0 <= i < t.kids.len() implies ty::apply(#[trigger] t.kids[i], m1)
            == ty::apply(t.kids[i], m2) by {
            assert forall|x: Str| #[trigger] ty::fv(t.kids[i]).contains(x) implies ty::image(m1, x)
                == ty::image(m2, x) by {
                assert(ty::fv(t).contains(x));
            }
            lemma_formed_images(t.kids[i], m1, m2);
        }
        assert(ty::apply_all(t.kids, m1) =~= ty::apply_all(t.kids, m2));
    }
}

/// Renaming and renaming back makes no difference.
pub proof fn lemma_renamed_back(t: Ty, next: nat)
    requires
        ty::is_formed(t),
    ensures
        ty::apply(
            scheme::instance(scheme::closed_scheme(t), next),
            names_back(vars_of(t), next),
        ) == t,
{
    let m = scheme::fresh_map(vars_of(t), next);
    let b = names_back(vars_of(t), next);
    let none = Map::<Str, Ty>::empty();
    ty::lemma_apply_compose(t, m, b);
    assert forall|x: Str| #[trigger] ty::fv(t).contains(x) implies ty::image(ty::compose(m, b), x)
        == ty::image(none, x) by {
        lemma_vars_of(t, x);
        lemma_there_and_back(vars_of(t), next, x);
    }
    lemma_formed_images(t, ty::compose(m, b), none);
    lemma_apply_none(t);
}

proof fn lemma_instance_plain(t: Ty, next: nat)
    requires
        unify_laws::plain(t),
    ensures
        unify_laws::plain(scheme::instance(scheme::closed_scheme(t), next)),
{
    let m = scheme::fresh_map(vars_of(t), next);
    assert forall|x: Str| #[trigger] m.contains_key(x) implies unify_laws::plain(m[x]) by {
        inference::lemma_fresh_map(vars_of(t), next, x);
    }
    unify_laws::lemma_plain_apply(t, m);
}

/// What takes the place of a variable is in the type afterwards.
pub proof fn lemma_apply_holds(t: Ty, m: Map<Str, Ty>, v: Str, w: Str)
    requires
        ty::fv(t).contains(v),
        ty::fv(ty::image(m, v)).contains(w),
    ensures
        ty::fv(ty::apply(t, m)).contains(w),
    decreases t,
{
    if let Head::Var(x) = t.head {
        assert(x == v);
    } else {
        let i = choose|i: int| 0 <= i < t.kids.len() && ty::fv(#[trigger] t.kids[i]).contains(v);
        lemma_apply_holds(t.kids[i], m, v, w);
        ty::lemma_apply_kids(t, m);
        assert(ty::apply(t, m).kids[i] == ty::apply(t.kids[i], m));
        assert(ty::fv(ty::apply(t, m).kids[i]).contains(w));
    }
}

/// The variables of a renamed type are new ones.
pub proof fn lemma_instance_vars(t: Ty, next: nat, w: Str)
    requires
        ty::fv(scheme::instance(scheme::closed_scheme(t), next)).contains(w),
    ensures
        exists|k: nat| next <= k < next + vars_of(t).len() && w == #[trigger] name::base26(k),
{
    let m = scheme::fresh_map(vars_of(t), next);
    ty::lemma_apply_fv(t, m, w);
    let v = choose|v: Str| #[trigger] ty::fv(t).contains(v) && ty::fv(ty::image(m, v)).contains(w);
    lemma_vars_of(t, v);
    inference::lemma_fresh_map(vars_of(t), next, v);
    let k = choose|k: nat|
        next <= k < next + vars_of(t).len() && m[v] == ty::ty_var(#[trigger] name::base26(k));
    assert(w == name::base26(k));
}

/// The fresh variables have different names that are not taken.
proof fn lemma_fresh_apart(vars: Seq<Str>, taken: Set<Str>, next: nat)
    requires
        taken.finite(),
        vars.no_duplicates(),
    ensures
        ({
            let (m, n) = scheme::fresh_apart(vars, taken, next);
            &&& next <= n
            &&& forall|x: Str| #[trigger] m.contains_key(x) <==> vars.contains(x)
            &&& forall|x: Str| #[trigger] vars.contains(x) ==> is_new(m[x], taken, next, n)
            &&& forall|x: Str, y: Str| #[trigger]
                vars.contains(x) && #[trigger] vars.contains(y) && m[x] == m[y] ==> x == y
        }),
    decreases vars.len(),
{
    let (m, n) = scheme::fresh_apart(vars, taken, next);
    if vars.len() > 0 {
        let init = vars.drop_last();
        let last = vars.last();
        let (m0, n0) = scheme::fresh_apart(init, taken, next);
        let k = scheme::next_free(taken, n0);
        lemma_fresh_apart(init, taken, next);
        scheme::lemma_next_free(taken, n0);
        assert forall|x: Str| vars.contains(x) <==> init.contains(x) || x == last by {
            if vars.contains(x) && x != last {
                let i = choose|i: int| 0 <= i < vars.len() && vars[i] == x;
                assert(init[i] == x);
            }
            if init.contains(x) {
                let i = choose|i: int| 0 <= i < init.len() && init[i] == x;
                assert(vars[i] == x);
            }
            assert(vars[vars.len() - 1] == last);
        }
        assert forall|x: Str| init.contains(x) implies x != last by {
            let i = choose|i: int| 0 <= i < init.len() && init[i] == x;
            assert(vars[i] == x && vars[vars.len() - 1] == last);
        }
        assert forall|x: Str| #[trigger] vars.contains(x) implies is_new(m[x], taken, next, n) && (x
            != last ==> m[x] != m[last]) by {
            if x == last {
                assert(m[x] == ty::ty_var(name::base26(k)));
                assert(is_new(m[x], taken, next, n));
            } else {
                assert(is_new(m0[x], taken, next, n0));
                let j = choose|j: nat|
                    next <= j < n0 && m0[x] == ty::ty_var(#[trigger] name::base26(j))
                        && !taken.contains(name::base26(j));
                assert(next <= j < n);
                assert(is_new(m[x], taken, next, n));
                if m[x] == m[last] {
                    assert(name::base26(j) == name::base26(k));
                    name::lemma_base26_injective(j, k);
                }
            }
        }
    }
}

/// The variable has a number between the two and a name that is not taken.
spec fn is_new(t: Ty, taken: Set<Str>, next: nat, n: nat) -> bool {
    exists|k: nat|
        next <= k < n && t == ty::ty_var(#[trigger] name::base26(k)) && !taken.contains(
            name::base26(k),
        )
}

/* Laws */

/// The type is the annotation, with something in place of its holes.
pub open spec fn is_filling(t: Ty, ann: Ty) -> bool
    decreases ann,
{
    ||| ann.head is Hole
    ||| {
        &&& t.head == ann.head
        &&& t.kids.len() == ann.kids.len()
        &&& forall|i: int| 0 <= i < ann.kids.len() ==> is_filling(t.kids[i], #[trigger] ann.kids[i])
    }
}

proof fn lemma_filling_same(t: Ty)
    ensures
        is_filling(t, t),
    decreases t,
{
    assert forall|i: int| 0 <= i < t.kids.len() implies is_filling(
        t.kids[i],
        #[trigger] t.kids[i],
    ) by {
        lemma_filling_same(t.kids[i]);
    }
}

proof fn lemma_filled(inf: Ty, exp: Ty, s: Map<Str, Ty>)
    ensures
        is_filling(specialize::filled(inf, exp, s), exp),
    decreases exp,
{
    lemma_filling_same(exp);
    let t = specialize::filled(inf, exp, s);
    if !(exp.head is Hole) && inf.head == exp.head && inf.kids.len() == exp.kids.len() {
        assert forall|i: int| 0 <= i < exp.kids.len() implies is_filling(
            t.kids[i],
            #[trigger] exp.kids[i],
        ) by {
            lemma_filled(inf.kids[i], exp.kids[i], s);
        }
    }
}

/// What comes out is the annotation with its holes filled, whatever names its
/// variables have.
pub proof fn law_specialize_fills(inf: Ty, ann: Ty)
    ensures
        match specialize::specialized(inf, ann) {
            Ok(t) => is_filling(t, ann),
            Err(_) => true,
        },
{
    let e = Map::<Str, Ty>::empty();
    let (a, b) = (specialize::renamed(inf), specialize::renamed_apart(ann, inf));
    if let Ok((t, s)) = unify::unify(e, a, b) {
        if let Ok(m) = specialize::merge(t, ann, e) {
            lemma_filled(t, ann, specialize::new_names(ann, inf).union_prefer_right(m));
        }
    }
}

/// A type without holes.
pub open spec fn is_filled(t: Ty) -> bool
    decreases t,
{
    &&& !(t.head is Hole)
    &&& forall|i: int| 0 <= i < t.kids.len() ==> is_filled(#[trigger] t.kids[i])
}

pub proof fn lemma_filling_filled(t: Ty, ann: Ty)
    requires
        is_filled(ann),
        is_filling(t, ann),
    ensures
        t == ann,
    decreases ann,
{
    assert forall|i: int| 0 <= i < ann.kids.len() implies t.kids[i] == #[trigger] ann.kids[i] by {
        assert(is_filled(ann.kids[i]) && is_filling(t.kids[i], ann.kids[i]));
        lemma_filling_filled(t.kids[i], ann.kids[i]);
    }
    assert(t.kids =~= ann.kids);
}

/// An annotation without holes is what comes out, whatever names its variables
/// have.
pub proof fn law_specialize_annotation(inf: Ty, ann: Ty)
    requires
        is_filled(ann),
    ensures
        match specialize::specialized(inf, ann) {
            Ok(t) => t == ann,
            Err(_) => true,
        },
{
    law_specialize_fills(inf, ann);
    if let Ok(t) = specialize::specialized(inf, ann) {
        lemma_filling_filled(t, ann);
    }
}

/// Inferred variables get new names if and only if variables of the annotation
/// have their names. The new names are different ones, and neither variables of
/// the annotation have them, nor those of the types that are unified.
pub proof fn law_specialize_new_names(inf: Ty, ann: Ty, x: Str)
    ensures
        ({
            let m = specialize::new_names(ann, inf);
            &&& m.contains_key(x) <==> ty::fv(ann).contains(x)
            &&& ty::fv(ann).contains(x) ==> exists|y: Str|
                #![trigger ty::ty_var(y)]
                {
                    &&& m[x] == ty::ty_var(y)
                    &&& !ty::fv(ann).contains(y)
                    &&& !ty::fv(specialize::renamed(inf)).contains(y)
                    &&& !ty::fv(specialize::renamed_apart(ann, inf)).contains(y)
                }
            &&& forall|y: Str|
                ty::fv(ann).contains(x) && #[trigger] ty::fv(ann).contains(y) && m[x] == m[y] ==> x
                    == y
        }),
{
    let next = vars_of(inf).len() + vars_of(ann).len();
    let (m, n) = scheme::fresh_apart(vars_of(ann), ty::fv(ann), next);
    ty::lemma_fv_finite(ann);
    lemma_vars_of(ann, x);
    lemma_fresh_apart(vars_of(ann), ty::fv(ann), next);
    if ty::fv(ann).contains(x) {
        assert(is_new(m[x], ty::fv(ann), next, n));
        let k = choose|k: nat|
            next <= k < n && m[x] == ty::ty_var(#[trigger] name::base26(k)) && !ty::fv(ann).contains(
                name::base26(k),
            );
        let y = name::base26(k);
        if ty::fv(specialize::renamed(inf)).contains(y) {
            lemma_instance_vars(inf, 0, y);
            let j = choose|j: nat| 0 <= j < 0 + vars_of(inf).len() && y == #[trigger] name::base26(j);
            name::lemma_base26_injective(j, k);
        }
        let first = vars_of(inf).len();
        if ty::fv(specialize::renamed_apart(ann, inf)).contains(y) {
            lemma_instance_vars(ann, first, y);
            let j = choose|j: nat|
                first <= j < first + vars_of(ann).len() && y == #[trigger] name::base26(j);
            name::lemma_base26_injective(j, k);
        }
        assert(m[x] == ty::ty_var(y));
        assert forall|y: Str| #[trigger] ty::fv(ann).contains(y) && m[x] == m[y] implies x == y by {
            lemma_vars_of(ann, y);
        }
    }
}

/// What makes the inferred type, renamed, and the annotation, renamed apart,
/// equal.
spec fn matching(inf: Ty, ann: Ty, r: Map<Str, Ty>) -> Map<Str, Ty> {
    let n = vars_of(inf).len();
    let back = names_back(vars_of(inf), 0);
    let there = scheme::fresh_map(vars_of(ann), n);
    Map::new(
        |x: Str| back.contains_key(x),
        |x: Str| ty::apply(ty::apply(back[x], r), there),
    )
}

proof fn lemma_matching(inf: Ty, ann: Ty, r: Map<Str, Ty>)
    requires
        unify_laws::plain(inf),
        unify_laws::plain(ann),
        ty::apply(inf, r) == ann,
    ensures
        ty::apply(specialize::renamed(inf), matching(inf, ann, r)) == specialize::renamed_apart(
            ann,
            inf,
        ),
        ty::apply(specialize::renamed_apart(ann, inf), matching(inf, ann, r))
            == specialize::renamed_apart(ann, inf),
{
    let n = vars_of(inf).len();
    let m = scheme::fresh_map(vars_of(inf), 0);
    let there = scheme::fresh_map(vars_of(ann), n);
    let p = matching(inf, ann, r);
    let ann2 = specialize::renamed_apart(ann, inf);
    ty::lemma_apply_compose(inf, m, p);
    ty::lemma_apply_compose(inf, r, there);
    assert forall|v: Str| #[trigger] ty::fv(inf).contains(v) implies ty::image(ty::compose(m, p), v)
        == ty::image(ty::compose(r, there), v) by {
        lemma_vars_of(inf, v);
        lemma_there_and_back(vars_of(inf), 0, v);
        assert(ty::image(ty::compose(m, p), v) == ty::apply(ty::apply(ty::ty_var(v), r), there));
    }
    unify_laws::lemma_same_images(inf, ty::compose(m, p), ty::compose(r, there));
    assert forall|w: Str| #[trigger] ty::fv(ann2).contains(w) implies !p.contains_key(w) by {
        lemma_instance_vars(ann, n, w);
        lemma_names_back(vars_of(inf), 0, w);
        if p.contains_key(w) {
            let k = choose|k: nat|
                n <= k < n + vars_of(ann).len() && w == #[trigger] name::base26(k);
            let j = choose|j: nat| 0 <= j < 0 + n && w == #[trigger] name::base26(j);
            name::lemma_base26_injective(j, k);
        }
    }
    ty::lemma_apply_disjoint(ann2, p);
}

/// What unification makes of the inferred type and the annotation.
proof fn lemma_unified(inf: Ty, ann: Ty)
    requires
        unify_laws::plain(inf),
        unify_laws::plain(ann),
    ensures
        match unify::unify(
            Map::empty(),
            specialize::renamed(inf),
            specialize::renamed_apart(ann, inf),
        ) {
            Ok((t, s)) => {
                &&& unify_laws::plain(t)
                &&& t == ty::apply(specialize::renamed(inf), s)
            },
            Err(_) => true,
        },
{
    let e = Map::<Str, Ty>::empty();
    let (a, b) = (specialize::renamed(inf), specialize::renamed_apart(ann, inf));
    lemma_instance_plain(inf, 0);
    lemma_instance_plain(ann, vars_of(inf).len());
    assert(unify::idempotent(e));
    unify_laws::lemma_unify_keeps_plain(e, a, b);
    unify_laws::law_unify_joins(e, a, b);
    if let Ok((t, s)) = unify::unify(e, a, b) {
        unify_laws::lemma_plain_apply(a, s);
        unify_laws::lemma_plain_agree(t, ty::apply(a, s));
    }
}

/// An annotation fits an inferred type if and only if it comes from the inferred
/// type by replacing variables, where neither has holes, `Any`, and number and
/// integer types.
pub proof fn law_specialize_superset(inf: Ty, ann: Ty)
    requires
        unify_laws::plain(inf),
        unify_laws::plain(ann),
    ensures
        specialize::specialized(inf, ann) is Ok <==> is_superset(inf, ann),
{
    let e = Map::<Str, Ty>::empty();
    let n = vars_of(inf).len();
    let (a, b) = (specialize::renamed(inf), specialize::renamed_apart(ann, inf));
    lemma_unified(inf, ann);
    lemma_instance_plain(inf, 0);
    lemma_instance_plain(ann, n);
    if is_superset(inf, ann) {
        let r = choose|r: Map<Str, Ty>| #[trigger] ty::apply(inf, r) == ann;
        let p = matching(inf, ann, r);
        let back = names_back(vars_of(ann), n);
        lemma_matching(inf, ann, r);
        unify_laws::law_unify_most_general(e, a, b, p);
        if let Ok((t, s)) = unify::unify(e, a, b) {
            unify_laws::lemma_refines_apply(a, s, p);
            lemma_plain_formed(ann);
            lemma_renamed_back(ann, n);
            ty::lemma_apply_compose(t, p, back);
            lemma_merge_succeeds(t, ann, e, ty::compose(p, back));
        }
    }
    if specialize::specialized(inf, ann) is Ok {
        if let Ok((t, s)) = unify::unify(e, a, b) {
            lemma_merge_sound(t, ann, e);
            if let Ok(m) = specialize::merge(t, ann, e) {
                let f = scheme::fresh_map(vars_of(inf), 0);
                let fs = ty::compose(f, s);
                assert(is_within(m, m));
                ty::lemma_apply_compose(inf, f, s);
                ty::lemma_apply_compose(inf, fs, m);
                assert(ty::apply(inf, ty::compose(fs, m)) == ann);
            }
        }
    }
}

} // verus!
