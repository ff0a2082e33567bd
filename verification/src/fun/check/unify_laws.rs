//! What unification promises: the types agree afterwards, for plain types the
//! substitution is the most general one that makes them equal, and `Any` goes with
//! every type.

use crate::fun::check::unify;
use crate::fun::ty;
use crate::fun::ty::{Head, Ty};
use crate::name::Str;
use vstd::prelude::*;

verus! {

/// Two types agree if they are the same up to holes, `Any` and the numbers
/// that a number or integer type stands for.
pub open spec fn agree(a: Ty, b: Ty) -> bool
    decreases a, b,
{
    ||| a.head is Hole || b.head is Hole
    ||| a.head is Any || b.head is Any
    ||| a.head is Var && a.head == b.head
    ||| a.head == b.head && a.kids.len() == b.kids.len() && forall|i: int|
        0 <= i < a.kids.len() ==> agree(#[trigger] a.kids[i], b.kids[i])
    ||| unify::is_numeric(a) && unify::is_numeric(b) && agree(a.kids[0], b.kids[0])
    ||| unify::is_numeric(a) && unify::is_machine(b.head) && agree(a.kids[0], b)
    ||| unify::is_machine(a.head) && unify::is_numeric(b) && agree(a, b.kids[0])
}

pub proof fn lemma_agree_refl(a: Ty)
    ensures
        agree(a, a),
    decreases a,
{
    assert forall|i: int| 0 <= i < a.kids.len() implies agree(#[trigger] a.kids[i], a.kids[i]) by {
        lemma_agree_refl(a.kids[i]);
    }
}

pub proof fn lemma_agree_sym(a: Ty, b: Ty)
    requires
        agree(a, b),
    ensures
        agree(b, a),
    decreases a, b,
{
    if a.head is Hole || b.head is Hole || a.head is Any || b.head is Any {
    } else if a.head is Var {
    } else if a.head == b.head && a.kids.len() == b.kids.len() && forall|i: int|
        0 <= i < a.kids.len() ==> agree(#[trigger] a.kids[i], b.kids[i]) {
        assert forall|i: int| 0 <= i < b.kids.len() implies agree(#[trigger] b.kids[i], a.kids[i]) by {
            assert(agree(a.kids[i], b.kids[i]));
            lemma_agree_sym(a.kids[i], b.kids[i]);
        }
    } else if unify::is_numeric(a) && unify::is_numeric(b) && agree(a.kids[0], b.kids[0]) {
        lemma_agree_sym(a.kids[0], b.kids[0]);
    } else if unify::is_numeric(a) && unify::is_machine(b.head) {
        lemma_agree_sym(a.kids[0], b);
    } else {
        lemma_agree_sym(a, b.kids[0]);
    }
}

/// Types that agree also agree after a substitution.
pub proof fn lemma_agree_apply(a: Ty, b: Ty, m: Map<Str, Ty>)
    requires
        agree(a, b),
    ensures
        agree(ty::apply(a, m), ty::apply(b, m)),
    decreases a, b,
{
    let (c, d) = (ty::apply(a, m), ty::apply(b, m));
    if a.head is Hole || b.head is Hole || a.head is Any || b.head is Any {
    } else if let Head::Var(x) = a.head {
        if m.contains_key(x) {
            lemma_agree_refl(m[x]);
        }
    } else if a.head == b.head && a.kids.len() == b.kids.len() && forall|i: int|
        0 <= i < a.kids.len() ==> agree(#[trigger] a.kids[i], b.kids[i]) {
        assert forall|i: int| 0 <= i < c.kids.len() implies agree(#[trigger] c.kids[i], d.kids[i]) by {
            assert(agree(a.kids[i], b.kids[i]));
            lemma_agree_apply(a.kids[i], b.kids[i], m);
        }
    } else if unify::is_numeric(a) && unify::is_numeric(b) && agree(a.kids[0], b.kids[0]) {
        lemma_agree_apply(a.kids[0], b.kids[0], m);
    } else if unify::is_numeric(a) && unify::is_machine(b.head) {
        lemma_agree_apply(a.kids[0], b, m);
    } else {
        lemma_agree_apply(a, b.kids[0], m);
    }
}

/// If unification succeeds, the types agree under the substitution.
pub proof fn law_unify_sound(s: Map<Str, Ty>, t1: Ty, t2: Ty)
    requires
        unify::idempotent(s),
    ensures
        match unify::unify(s, t1, t2) {
            Ok((t, s1)) => agree(ty::apply(t1, s1), ty::apply(t2, s1)),
            Err(_) => true,
        },
    decreases unify::work(s, t1, t2).vars, unify::work(s, t1, t2).symbols, 0nat,
{
    let a = ty::apply(t1, s);
    let b = ty::apply(t2, s);
    let vs = unify::vars(s, t1, t2);
    unify::lemma_idempotent_apply(s, t1);
    unify::lemma_idempotent_apply(s, t2);
    unify::lemma_unify(s, t1, t2);
    if let Ok((t, s1)) = unify::unify(s, t1, t2) {
        unify::lemma_grows_apply(s1, s, vs, t1);
        unify::lemma_grows_apply(s1, s, vs, t2);
        let (c, d) = (ty::apply(a, s1), ty::apply(b, s1));
        if b.head is Hole || a.head is Hole {
        } else if let Head::Var(x) = b.head {
            lemma_bind_sound(s, x, a, b, vs);
        } else if let Head::Var(x) = a.head {
            lemma_bind_sound(s, x, b, a, vs);
            lemma_agree_sym(d, c);
        } else if a.head == b.head && a.kids.len() == b.kids.len() {
            unify::lemma_less_same(s, t1, t2);
            lemma_unify_all_sound(s, a.kids, b.kids, Seq::empty());
            assert forall|i: int| 0 <= i < c.kids.len() implies agree(#[trigger] c.kids[i], d.kids[i]) by {
                assert(a.kids[i] == a.kids[i]);
            }
        } else {
            unify::lemma_less_number(s, t1, t2);
            if unify::is_numeric(a) && unify::is_numeric(b) {
                if a.head is Integer {
                    law_unify_sound(s, a.kids[0], b.kids[0]);
                } else {
                    law_unify_sound(s, b.kids[0], a.kids[0]);
                    lemma_agree_sym(d.kids[0], c.kids[0]);
                }
            } else if unify::is_numeric(a) && unify::is_machine(b.head) {
                law_unify_sound(s, a.kids[0], b);
            } else if unify::is_machine(a.head) && unify::is_numeric(b) {
                law_unify_sound(s, b.kids[0], a);
                lemma_agree_sym(d.kids[0], c);
            }
        }
    }
}

proof fn lemma_bind_sound(s: Map<Str, Ty>, x: Str, a: Ty, b: Ty, vs: Set<Str>)
    requires
        unify::idempotent(s),
        !s.contains_key(x),
        b.head == Head::Var(x),
        ty::apply(a, s) == a,
        vs.contains(x),
        forall|v: Str| #[trigger] ty::fv(a).contains(v) ==> vs.contains(v),
    ensures
        match unify::bind(s, x, a) {
            Ok((t, s1)) => agree(ty::apply(a, s1), ty::apply(b, s1)),
            Err(_) => true,
        },
{
    unify::lemma_bind(s, x, a, vs);
    if let Ok((t, s1)) = unify::bind(s, x, a) {
        if a.head != Head::Var(x) {
            assert(ty::apply(ty::ty_var(x), s1) == a);
            assert(s1.contains_key(x));
            lemma_agree_refl(a);
        }
    }
}

proof fn lemma_unify_all_sound(s: Map<Str, Ty>, xs: Seq<Ty>, ys: Seq<Ty>, done: Seq<Ty>)
    requires
        unify::idempotent(s),
        xs.len() == ys.len(),
    ensures
        match unify::unify_all(s, xs, ys, done) {
            Ok((ts, s1)) => forall|i: int|
                0 <= i < xs.len() ==> agree(ty::apply(#[trigger] xs[i], s1), ty::apply(ys[i], s1)),
            Err(_) => true,
        },
    decreases unify::list_work(s, xs, ys).vars, unify::list_work(s, xs, ys).symbols, 1nat,
{
    let vs = unify::list_vars(s, xs, ys);
    if xs.len() > 0 {
        unify::lemma_less_first(s, xs, ys);
        unify::lemma_unify(s, xs[0], ys[0]);
        law_unify_sound(s, xs[0], ys[0]);
        if let Ok((t, s1)) = unify::unify(s, xs[0], ys[0]) {
            unify::lemma_grows_more(s1, s, unify::vars(s, xs[0], ys[0]), vs);
            unify::lemma_less_rest(s, s1, xs, ys);
            let (xr, yr) = (xs.drop_first(), ys.drop_first());
            unify::lemma_unify_all(s1, xr, yr, done.push(t));
            lemma_unify_all_sound(s1, xr, yr, done.push(t));
            if let Ok((ts, s2)) = unify::unify_all(s1, xr, yr, done.push(t)) {
                let ws = unify::list_vars(s1, xr, yr);
                unify::lemma_grows_apply(s2, s1, ws, xs[0]);
                unify::lemma_grows_apply(s2, s1, ws, ys[0]);
                lemma_agree_apply(ty::apply(xs[0], s1), ty::apply(ys[0], s1), s2);
                assert forall|i: int| 0 <= i < xs.len() implies agree(
                    ty::apply(#[trigger] xs[i], s2),
                    ty::apply(ys[i], s2),
                ) by {
                    if i > 0 {
                        assert(xr[i - 1] == xs[i]);
                    }
                }
            }
        }
    }
}

/* The type that unification gives */

/// What unifies with a machine number type gives that type or `Any`.
proof fn lemma_unify_machine(s: Map<Str, Ty>, t1: Ty, t2: Ty)
    requires
        unify::idempotent(s),
        unify::is_machine(t2.head),
    ensures
        match unify::unify(s, t1, t2) {
            Ok((t, s1)) => t.head == t2.head || t.head is Any,
            Err(_) => true,
        },
    decreases unify::work(s, t1, t2).vars, unify::work(s, t1, t2).symbols, 0nat,
{
    let a = ty::apply(t1, s);
    let b = ty::apply(t2, s);
    unify::lemma_idempotent_apply(s, t1);
    unify::lemma_idempotent_apply(s, t2);
    assert(b.head == t2.head);
    if !(a.head is Var) && unify::is_numeric(a) {
        unify::lemma_less_number(s, t1, t2);
        lemma_unify_machine(s, a.kids[0], b);
    }
}

/// If unification succeeds, the type that it gives agrees with both types.
pub proof fn law_unify_joins(s: Map<Str, Ty>, t1: Ty, t2: Ty)
    requires
        unify::idempotent(s),
    ensures
        match unify::unify(s, t1, t2) {
            Ok((t, s1)) => agree(t, ty::apply(t1, s1)) && agree(t, ty::apply(t2, s1)),
            Err(_) => true,
        },
    decreases unify::work(s, t1, t2).vars, unify::work(s, t1, t2).symbols, 0nat,
{
    let a = ty::apply(t1, s);
    let b = ty::apply(t2, s);
    let vs = unify::vars(s, t1, t2);
    unify::lemma_idempotent_apply(s, t1);
    unify::lemma_idempotent_apply(s, t2);
    unify::lemma_unify(s, t1, t2);
    if let Ok((t, s1)) = unify::unify(s, t1, t2) {
        unify::lemma_grows_apply(s1, s, vs, t1);
        unify::lemma_grows_apply(s1, s, vs, t2);
        let (c, d) = (ty::apply(a, s1), ty::apply(b, s1));
        if b.head is Hole || a.head is Hole {
            lemma_agree_refl(a);
            lemma_agree_refl(b);
        } else if let Head::Var(x) = b.head {
            lemma_bind_joins(s, x, a, b, vs);
        } else if let Head::Var(x) = a.head {
            lemma_bind_joins(s, x, b, a, vs);
        } else if a.head == b.head && a.kids.len() == b.kids.len() {
            unify::lemma_less_same(s, t1, t2);
            lemma_unify_all_joins(s, a.kids, b.kids, Seq::empty());
            unify::lemma_unify_all(s, a.kids, b.kids, Seq::empty());
            if let Ok((ts, s2)) = unify::unify_all(s, a.kids, b.kids, Seq::empty()) {
                let u = Ty { head: a.head, kids: ts };
                ty::lemma_apply_kids(u, s1);
                assert forall|i: int| 0 <= i < t.kids.len() implies agree(#[trigger] t.kids[i], c.kids[i])
                    && agree(t.kids[i], d.kids[i]) by {
                    assert(agree(ty::apply(ts[i], s1), ty::apply(a.kids[i], s1)));
                }
            }
        } else {
            unify::lemma_less_number(s, t1, t2);
            if unify::is_numeric(a) && unify::is_numeric(b) {
                if a.head is Integer {
                    law_unify_joins(s, a.kids[0], b.kids[0]);
                } else {
                    law_unify_joins(s, b.kids[0], a.kids[0]);
                }
            } else if unify::is_numeric(a) && unify::is_machine(b.head) {
                law_unify_joins(s, a.kids[0], b);
                lemma_unify_machine(s, a.kids[0], b);
            } else if unify::is_machine(a.head) && unify::is_numeric(b) {
                law_unify_joins(s, b.kids[0], a);
                lemma_unify_machine(s, b.kids[0], a);
            }
        }
    }
}

proof fn lemma_bind_joins(s: Map<Str, Ty>, x: Str, a: Ty, b: Ty, vs: Set<Str>)
    requires
        unify::idempotent(s),
        !s.contains_key(x),
        b.head == Head::Var(x),
        ty::apply(a, s) == a,
        vs.contains(x),
        forall|v: Str| #[trigger] ty::fv(a).contains(v) ==> vs.contains(v),
    ensures
        match unify::bind(s, x, a) {
            Ok((t, s1)) => agree(t, ty::apply(a, s1)) && agree(t, ty::apply(b, s1)),
            Err(_) => true,
        },
{
    unify::lemma_bind(s, x, a, vs);
    if let Ok((t, s1)) = unify::bind(s, x, a) {
        lemma_agree_refl(a);
        if a.head != Head::Var(x) {
            assert(ty::apply(ty::ty_var(x), s1) == a);
            assert(s1.contains_key(x));
        }
    }
}

proof fn lemma_unify_all_joins(s: Map<Str, Ty>, xs: Seq<Ty>, ys: Seq<Ty>, done: Seq<Ty>)
    requires
        unify::idempotent(s),
        xs.len() == ys.len(),
    ensures
        match unify::unify_all(s, xs, ys, done) {
            Ok((ts, s1)) => forall|i: int|
                0 <= i < xs.len() ==> {
                    let t = ty::apply(ts[done.len() + i], s1);
                    agree(t, ty::apply(#[trigger] xs[i], s1)) && agree(t, ty::apply(ys[i], s1))
                },
            Err(_) => true,
        },
    decreases unify::list_work(s, xs, ys).vars, unify::list_work(s, xs, ys).symbols, 1nat,
{
    let vs = unify::list_vars(s, xs, ys);
    if xs.len() > 0 {
        unify::lemma_less_first(s, xs, ys);
        unify::lemma_unify(s, xs[0], ys[0]);
        law_unify_joins(s, xs[0], ys[0]);
        if let Ok((t, s1)) = unify::unify(s, xs[0], ys[0]) {
            unify::lemma_grows_more(s1, s, unify::vars(s, xs[0], ys[0]), vs);
            unify::lemma_less_rest(s, s1, xs, ys);
            let (xr, yr) = (xs.drop_first(), ys.drop_first());
            unify::lemma_unify_all(s1, xr, yr, done.push(t));
            lemma_unify_all_joins(s1, xr, yr, done.push(t));
            if let Ok((ts, s2)) = unify::unify_all(s1, xr, yr, done.push(t)) {
                let ws = unify::list_vars(s1, xr, yr);
                unify::lemma_grows_apply(s2, s1, ws, xs[0]);
                unify::lemma_grows_apply(s2, s1, ws, ys[0]);
                lemma_agree_apply(t, ty::apply(xs[0], s1), s2);
                lemma_agree_apply(t, ty::apply(ys[0], s1), s2);
                assert(ts[done.len() as int] == done.push(t)[done.len() as int]);
                assert forall|i: int| 0 <= i < xs.len() implies {
                    let u = ty::apply(ts[done.len() + i], s2);
                    agree(u, ty::apply(#[trigger] xs[i], s2)) && agree(u, ty::apply(ys[i], s2))
                } by {
                    if i > 0 {
                        assert(xr[i - 1] == xs[i]);
                        assert(done.push(t).len() + (i - 1) == done.len() + i);
                    }
                }
            }
        }
    }
}

/* Plain types */

/// A type without holes, `Any`, and number and integer types.
pub open spec fn plain(t: Ty) -> bool
    decreases t,
{
    &&& !(t.head is Hole || t.head is Any || t.head is Number || t.head is Integer)
    &&& t.head is Var ==> t.kids.len() == 0
    &&& forall|i: int| 0 <= i < t.kids.len() ==> plain(#[trigger] t.kids[i])
}

pub open spec fn plain_map(s: Map<Str, Ty>) -> bool {
    forall|x: Str| #[trigger] s.contains_key(x) ==> plain(s[x])
}

/// Applying the first substitution before the second one makes no difference.
pub open spec fn refines(r: Map<Str, Ty>, s: Map<Str, Ty>) -> bool {
    forall|x: Str| #[trigger] s.contains_key(x) ==> ty::apply(s[x], r) == ty::image(r, x)
}

pub proof fn lemma_plain_apply(t: Ty, s: Map<Str, Ty>)
    requires
        plain(t),
        plain_map(s),
    ensures
        plain(ty::apply(t, s)),
    decreases t,
{
    let u = ty::apply(t, s);
    if !(t.head is Var) {
        assert forall|i: int| 0 <= i < u.kids.len() implies plain(#[trigger] u.kids[i]) by {
            assert(plain(t.kids[i]));
            lemma_plain_apply(t.kids[i], s);
        }
    }
}

/// Only what becomes of the variables counts.
pub proof fn lemma_same_images(t: Ty, m1: Map<Str, Ty>, m2: Map<Str, Ty>)
    requires
        plain(t),
        forall|x: Str| #[trigger] ty::fv(t).contains(x) ==> ty::image(m1, x) == ty::image(m2, x),
    ensures
        ty::apply(t, m1) == ty::apply(t, m2),
    decreases t,
{
    if let Head::Var(x) = t.head {
        assert(ty::fv(t).contains(x));
        assert(t.kids =~= Seq::empty());
        assert(t == ty::ty_var(x));
    } else {
        assert forall|i: int| 0 <= i < t.kids.len() implies ty::apply(#[trigger] t.kids[i], m1) == ty::apply(
            t.kids[i],
            m2,
        ) by {
            assert forall|x: Str| #[trigger] ty::fv(t.kids[i]).contains(x) implies ty::image(m1, x) == ty::image(
                m2,
                x,
            ) by {
                assert(ty::fv(t).contains(x));
            }
            assert(plain(t.kids[i]));
            lemma_same_images(t.kids[i], m1, m2);
        }
        assert(ty::apply(t, m1).kids =~= ty::apply(t, m2).kids);
    }
}

pub proof fn lemma_refines_apply(t: Ty, s: Map<Str, Ty>, r: Map<Str, Ty>)
    requires
        plain(t),
        refines(r, s),
    ensures
        ty::apply(ty::apply(t, s), r) == ty::apply(t, r),
{
    ty::lemma_apply_compose(t, s, r);
    assert forall|x: Str| #[trigger] ty::fv(t).contains(x) implies ty::image(ty::compose(s, r), x) == ty::image(
        r,
        x,
    ) by {
        if s.contains_key(x) {
            assert(ty::compose(s, r).contains_key(x));
        }
    }
    lemma_same_images(t, ty::compose(s, r), r);
}

pub proof fn lemma_weights_kid(ts: Seq<Ty>, i: int)
    requires
        0 <= i < ts.len(),
    ensures
        unify::weight(ts[i]) <= unify::weights(ts),
    decreases ts.len(),
{
    if i > 0 {
        lemma_weights_kid(ts.drop_first(), i - 1);
        assert(ts.drop_first()[i - 1] == ts[i]);
    }
}

/// A variable of a type weighs less than the type, also after a substitution.
proof fn lemma_weight_var(t: Ty, x: Str, r: Map<Str, Ty>)
    requires
        plain(t),
        ty::fv(t).contains(x),
    ensures
        unify::weight(ty::image(r, x)) <= unify::weight(ty::apply(t, r)),
        t.head != Head::Var(x) ==> unify::weight(ty::image(r, x)) < unify::weight(ty::apply(t, r)),
    decreases t,
{
    if let Head::Var(y) = t.head {
        assert(t.kids =~= Seq::empty());
        assert(t == ty::ty_var(x));
    } else {
        let i = choose|i: int| 0 <= i < t.kids.len() && ty::fv(#[trigger] t.kids[i]).contains(x);
        assert(plain(t.kids[i]));
        lemma_weight_var(t.kids[i], x, r);
        let u = ty::apply(t, r);
        lemma_weights_kid(u.kids, i);
        assert(u.kids[i] == ty::apply(t.kids[i], r));
    }
}

proof fn lemma_bind_general(s: Map<Str, Ty>, x: Str, a: Ty, r: Map<Str, Ty>)
    requires
        unify::idempotent(s),
        plain_map(s),
        !s.contains_key(x),
        plain(a),
        ty::apply(a, s) == a,
        refines(r, s),
        ty::apply(a, r) == ty::image(r, x),
    ensures
        match unify::bind(s, x, a) {
            Ok((t, s1)) => refines(r, s1) && plain_map(s1) && t == a,
            Err(_) => false,
        },
{
    if a.head != Head::Var(x) {
        if ty::fv(a).contains(x) {
            lemma_weight_var(a, x, r);
        } else {
            let one = map![x => a];
            let s1 = unify::and_then(s, x, a);
            assert(plain_map(one));
            assert(refines(r, one));
            assert forall|y: Str| #[trigger] s1.contains_key(y) implies ty::apply(s1[y], r) == ty::image(r, y)
                && plain(s1[y]) by {
                if s.contains_key(y) {
                    lemma_refines_apply(s[y], one, r);
                    lemma_plain_apply(s[y], one);
                } else {
                    assert(y == x);
                }
            }
        }
    }
}

/// Plain types that some substitution makes equal unify, and every such
/// substitution does what the one that was found does.
///
/// Any substitution that does what is already known is allowed.
pub proof fn law_unify_most_general(s: Map<Str, Ty>, t1: Ty, t2: Ty, r: Map<Str, Ty>)
    requires
        unify::idempotent(s),
        plain_map(s),
        plain(t1),
        plain(t2),
        refines(r, s),
        ty::apply(t1, r) == ty::apply(t2, r),
    ensures
        match unify::unify(s, t1, t2) {
            Ok((t, s1)) => refines(r, s1) && plain_map(s1),
            Err(_) => false,
        },
    decreases unify::work(s, t1, t2).vars, unify::work(s, t1, t2).symbols, 0nat,
{
    let a = ty::apply(t1, s);
    let b = ty::apply(t2, s);
    unify::lemma_idempotent_apply(s, t1);
    unify::lemma_idempotent_apply(s, t2);
    lemma_plain_apply(t1, s);
    lemma_plain_apply(t2, s);
    lemma_refines_apply(t1, s, r);
    lemma_refines_apply(t2, s, r);
    if let Head::Var(x) = b.head {
        assert(ty::fv(b).contains(x));
        assert(b.kids =~= Seq::empty());
        assert(b == ty::ty_var(x));
        lemma_bind_general(s, x, a, r);
    } else if let Head::Var(x) = a.head {
        assert(ty::fv(a).contains(x));
        assert(a.kids =~= Seq::empty());
        assert(a == ty::ty_var(x));
        lemma_bind_general(s, x, b, r);
    } else {
        let (c, d) = (ty::apply(a, r), ty::apply(b, r));
        assert(c == d);
        assert(c.head == a.head && c.kids.len() == a.kids.len());
        assert(d.head == b.head && d.kids.len() == b.kids.len());
        unify::lemma_less_same(s, t1, t2);
        assert forall|i: int| 0 <= i < a.kids.len() implies ty::apply(#[trigger] a.kids[i], r) == ty::apply(
            b.kids[i],
            r,
        ) by {
            assert(c.kids[i] == d.kids[i]);
        }
        lemma_unify_all_general(s, a.kids, b.kids, Seq::empty(), r);
    }
}

proof fn lemma_unify_all_general(
    s: Map<Str, Ty>,
    xs: Seq<Ty>,
    ys: Seq<Ty>,
    done: Seq<Ty>,
    r: Map<Str, Ty>,
)
    requires
        unify::idempotent(s),
        plain_map(s),
        xs.len() == ys.len(),
        forall|i: int| 0 <= i < xs.len() ==> plain(#[trigger] xs[i]),
        forall|i: int| 0 <= i < ys.len() ==> plain(#[trigger] ys[i]),
        refines(r, s),
        forall|i: int| 0 <= i < xs.len() ==> ty::apply(#[trigger] xs[i], r) == ty::apply(ys[i], r),
    ensures
        match unify::unify_all(s, xs, ys, done) {
            Ok((ts, s1)) => refines(r, s1) && plain_map(s1),
            Err(_) => false,
        },
    decreases unify::list_work(s, xs, ys).vars, unify::list_work(s, xs, ys).symbols, 1nat,
{
    let vs = unify::list_vars(s, xs, ys);
    if xs.len() > 0 {
        unify::lemma_less_first(s, xs, ys);
        unify::lemma_unify(s, xs[0], ys[0]);
        law_unify_most_general(s, xs[0], ys[0], r);
        if let Ok((t, s1)) = unify::unify(s, xs[0], ys[0]) {
            unify::lemma_grows_more(s1, s, unify::vars(s, xs[0], ys[0]), vs);
            unify::lemma_less_rest(s, s1, xs, ys);
            let (xr, yr) = (xs.drop_first(), ys.drop_first());
            assert forall|i: int| 0 <= i < xr.len() implies ty::apply(#[trigger] xr[i], r) == ty::apply(yr[i], r) by {
                assert(xr[i] == xs[i + 1]);
            }
            lemma_unify_all_general(s1, xr, yr, done.push(t), r);
        }
    }
}

/// Unifying plain types replaces variables by plain types, and gives one.
pub proof fn lemma_unify_keeps_plain(s: Map<Str, Ty>, t1: Ty, t2: Ty)
    requires
        unify::idempotent(s),
        plain_map(s),
        plain(t1),
        plain(t2),
    ensures
        match unify::unify(s, t1, t2) {
            Ok((t, s1)) => plain_map(s1) && plain(t),
            Err(_) => true,
        },
    decreases unify::work(s, t1, t2).vars, unify::work(s, t1, t2).symbols, 0nat,
{
    let a = ty::apply(t1, s);
    let b = ty::apply(t2, s);
    unify::lemma_idempotent_apply(s, t1);
    unify::lemma_idempotent_apply(s, t2);
    lemma_plain_apply(t1, s);
    lemma_plain_apply(t2, s);
    if let Head::Var(x) = b.head {
        lemma_bind_plain(s, x, a);
    } else if let Head::Var(x) = a.head {
        lemma_bind_plain(s, x, b);
    } else if a.head == b.head && a.kids.len() == b.kids.len() {
        unify::lemma_less_same(s, t1, t2);
        lemma_unify_all_keeps_plain(s, a.kids, b.kids, Seq::empty());
        if let Ok((ts, s1)) = unify::unify_all(s, a.kids, b.kids, Seq::empty()) {
            lemma_plain_apply(Ty { head: a.head, kids: ts }, s1);
        }
    }
}

proof fn lemma_bind_plain(s: Map<Str, Ty>, x: Str, a: Ty)
    requires
        plain_map(s),
        plain(a),
        ty::apply(a, s) == a,
    ensures
        match unify::bind(s, x, a) {
            Ok((t, s1)) => plain_map(s1) && plain(t),
            Err(_) => true,
        },
{
    let one = map![x => a];
    let s1 = unify::and_then(s, x, a);
    assert(plain_map(one));
    assert forall|y: Str| #[trigger] s1.contains_key(y) implies plain(s1[y]) by {
        if s.contains_key(y) {
            lemma_plain_apply(s[y], one);
        } else {
            assert(y == x);
        }
    }
}

proof fn lemma_unify_all_keeps_plain(s: Map<Str, Ty>, xs: Seq<Ty>, ys: Seq<Ty>, done: Seq<Ty>)
    requires
        unify::idempotent(s),
        plain_map(s),
        xs.len() == ys.len(),
        forall|i: int| 0 <= i < xs.len() ==> plain(#[trigger] xs[i]),
        forall|i: int| 0 <= i < ys.len() ==> plain(#[trigger] ys[i]),
        forall|i: int| 0 <= i < done.len() ==> plain(#[trigger] done[i]),
    ensures
        match unify::unify_all(s, xs, ys, done) {
            Ok((ts, s1)) => plain_map(s1) && forall|i: int|
                0 <= i < ts.len() ==> plain(#[trigger] ts[i]),
            Err(_) => true,
        },
    decreases unify::list_work(s, xs, ys).vars, unify::list_work(s, xs, ys).symbols, 1nat,
{
    let vs = unify::list_vars(s, xs, ys);
    if xs.len() > 0 {
        unify::lemma_less_first(s, xs, ys);
        unify::lemma_unify(s, xs[0], ys[0]);
        lemma_unify_keeps_plain(s, xs[0], ys[0]);
        if let Ok((t, s1)) = unify::unify(s, xs[0], ys[0]) {
            unify::lemma_grows_more(s1, s, unify::vars(s, xs[0], ys[0]), vs);
            unify::lemma_less_rest(s, s1, xs, ys);
            lemma_unify_all_keeps_plain(s1, xs.drop_first(), ys.drop_first(), done.push(t));
        }
    }
}

/// Two plain types that agree are equal.
pub proof fn lemma_plain_agree(a: Ty, b: Ty)
    requires
        plain(a),
        plain(b),
        agree(a, b),
    ensures
        a == b,
    decreases a,
{
    assert forall|i: int| 0 <= i < a.kids.len() implies a.kids[i] == #[trigger] b.kids[i] by {
        assert(agree(a.kids[i], b.kids[i]));
        assert(plain(a.kids[i]) && plain(b.kids[i]));
        lemma_plain_agree(a.kids[i], b.kids[i]);
    }
    assert(a.kids =~= b.kids);
}

/// Plain types are equal after they were unified, and failure means that no
/// substitution makes them equal.
pub proof fn law_unify_plain(s: Map<Str, Ty>, t1: Ty, t2: Ty)
    requires
        unify::idempotent(s),
        plain_map(s),
        plain(t1),
        plain(t2),
    ensures
        match unify::unify(s, t1, t2) {
            Ok((t, s1)) => ty::apply(t1, s1) == ty::apply(t2, s1),
            Err(_) => forall|r: Map<Str, Ty>|
                refines(r, s) ==> #[trigger] ty::apply(t1, r) != ty::apply(t2, r),
        },
{
    law_unify_sound(s, t1, t2);
    lemma_unify_keeps_plain(s, t1, t2);
    match unify::unify(s, t1, t2) {
        Ok((t, s1)) => {
            lemma_plain_apply(t1, s1);
            lemma_plain_apply(t2, s1);
            lemma_plain_agree(ty::apply(t1, s1), ty::apply(t2, s1));
        },
        Err(_) => {
            assert forall|r: Map<Str, Ty>| refines(r, s) implies #[trigger] ty::apply(t1, r) != ty::apply(t2, r) by {
                if ty::apply(t1, r) == ty::apply(t2, r) {
                    law_unify_most_general(s, t1, t2, r);
                }
            }
        },
    }
}

/* `Any` */

/// Each of the variables is `Any`.
pub open spec fn anys(vs: Set<Str>) -> Map<Str, Ty> {
    Map::new(|x: Str| vs.contains(x), |x: Str| ty::leaf(Head::Any))
}

/// What is left of the variables of a type when some are `Any`.
proof fn lemma_anys_fv(t: Ty, vs: Set<Str>, v: Str)
    ensures
        ty::fv(ty::apply(t, anys(vs))).contains(v) <==> ty::fv(t).contains(v) && !vs.contains(v),
{
    let m = anys(vs);
    ty::lemma_apply_fv(t, m, v);
    if ty::fv(t).contains(v) && !vs.contains(v) {
        assert(ty::image(m, v) == ty::ty_var(v));
        assert(ty::fv(ty::image(m, v)).contains(v));
    }
    if exists|x: Str| #[trigger] ty::fv(t).contains(x) && ty::fv(ty::image(m, x)).contains(v) {
        let x = choose|x: Str| #[trigger] ty::fv(t).contains(x) && ty::fv(ty::image(m, x)).contains(v);
        if vs.contains(x) {
            assert(ty::fv(ty::leaf(Head::Any)) =~= Set::empty());
        }
    }
}

/// First some variables are `Any`, then some more.
proof fn lemma_anys_more(s: Map<Str, Ty>, vs: Set<Str>, ws: Set<Str>)
    ensures
        ty::compose(ty::compose(s, anys(vs)), anys(ws)) == ty::compose(s, anys(vs.union(ws))),
{
    let any = ty::leaf(Head::Any);
    let (a, b) = (ty::compose(ty::compose(s, anys(vs)), anys(ws)), ty::compose(s, anys(vs.union(ws))));
    ty::lemma_apply_disjoint(any, anys(ws));
    assert(ty::compose(anys(vs), anys(ws)) =~= anys(vs.union(ws)));
    assert forall|x: Str| #[trigger] s.contains_key(x) implies a[x] == b[x] by {
        ty::lemma_apply_compose(s[x], anys(vs), anys(ws));
    }
    assert(a =~= b);
}

/// Unifying with `Any` never fails, gives `Any`, and makes every variable below
/// `Any`.
pub proof fn law_unify_any(s: Map<Str, Ty>, t: Ty)
    requires
        unify::idempotent(s),
        ty::is_formed_map(s),
        ty::is_formed(t),
    ensures
        ({
            let any = ty::leaf(Head::Any);
            let s1 = ty::compose(s, anys(ty::fv(ty::apply(t, s))));
            &&& unify::unify(s, any, t) == Ok::<_, unify::Clash>((any, s1))
            &&& unify::unify(s, t, any) == Ok::<_, unify::Clash>((any, s1))
        }),
    decreases
        unify::work(s, ty::leaf(Head::Any), t).vars,
        unify::work(s, ty::leaf(Head::Any), t).symbols,
        0nat,
{
    let any = ty::leaf(Head::Any);
    let b = ty::apply(t, s);
    let vs = ty::fv(b);
    ty::lemma_apply_disjoint(any, s);
    ty::lemma_formed_apply(t, s);
    unify::lemma_idempotent_apply(s, t);
    if let Head::Var(x) = b.head {
        assert(!ty::fv(any).contains(x));
        assert(map![x => any] =~= anys(vs));
    } else {
        unify::lemma_less_any(s, any, t);
        unify::lemma_less_any(s, t, any);
        unify::lemma_less_same(s, any, t);
        unify::lemma_less_same(s, t, any);
        ty::lemma_fv_kids(b);
        if b.kids.len() == 0 {
            assert(vs =~= Set::empty());
            lemma_no_anys(s);
            assert(b.kids =~= any.kids);
            assert(unify::unify_any(s, any.kids) == Ok::<_, unify::Clash>(s));
            assert(unify::unify_all(s, any.kids, any.kids, Seq::empty()) == Ok::<_, unify::Clash>(
                (Seq::<Ty>::empty(), s),
            ));
        } else {
            assert forall|i: int| 0 <= i < b.kids.len() implies ty::is_formed(#[trigger] b.kids[i]) && ty::apply(
                b.kids[i],
                s,
            ) == b.kids[i] by {
                assert(ty::apply(b, s).kids[i] == ty::apply(b.kids[i], s));
            }
            assert(ty::apply_all(b.kids, s) =~= b.kids);
            lemma_unify_any_kids(s, b.kids);
        }
    }
}

pub proof fn lemma_no_anys(s: Map<Str, Ty>)
    ensures
        ty::compose(s, anys(Set::empty())) == s,
{
    let none = anys(Set::empty());
    assert forall|x: Str| #[trigger] s.contains_key(x) implies ty::apply(s[x], none) == s[x] by {
        ty::lemma_apply_disjoint(s[x], none);
    }
    assert(ty::compose(s, none) =~= s);
}

proof fn lemma_unify_any_kids(s: Map<Str, Ty>, ts: Seq<Ty>)
    requires
        unify::idempotent(s),
        ty::is_formed_map(s),
        forall|i: int| 0 <= i < ts.len() ==> ty::is_formed(#[trigger] ts[i]),
    ensures
        unify::unify_any(s, ts) == Ok::<_, unify::Clash>(
            ty::compose(s, anys(ty::fvs(ty::apply_all(ts, s)))),
        ),
    decreases unify::any_work(s, ts).vars, unify::any_work(s, ts).symbols, 1nat,
{
    let all = ty::fvs(ty::apply_all(ts, s));
    if ts.len() == 0 {
        assert(all =~= Set::empty());
        lemma_no_anys(s);
    } else {
        let any = ty::leaf(Head::Any);
        let rest = ts.drop_first();
        let vs = ty::fv(ty::apply(ts[0], s));
        unify::lemma_less_any_first(s, ts);
        unify::lemma_unify(s, any, ts[0]);
        assert(ty::is_formed(ts[0]));
        law_unify_any(s, ts[0]);
        let s1 = ty::compose(s, anys(vs));
        assert(unify::unify(s, any, ts[0]) == Ok::<_, unify::Clash>((any, s1)));
        assert(unify::vars(s, any, ts[0]).subset_of(all)) by {
            ty::lemma_apply_disjoint(any, s);
            assert forall|v: Str| unify::vars(s, any, ts[0]).contains(v) implies all.contains(v) by {
                assert(ty::fv(any) =~= Set::empty());
                assert(ty::fv(ty::apply_all(ts, s)[0]).contains(v));
            }
        }
        unify::lemma_grows_more(s1, s, unify::vars(s, any, ts[0]), all);
        unify::lemma_less_any_rest(s, s1, ts);
        assert forall|x: Str| #[trigger] s1.contains_key(x) implies ty::is_formed(s1[x]) by {
            if s.contains_key(x) {
                ty::lemma_formed_apply(s[x], anys(vs));
            }
        }
        assert forall|i: int| 0 <= i < rest.len() implies ty::is_formed(#[trigger] rest[i]) by {
            assert(rest[i] == ts[i + 1]);
        }
        lemma_unify_any_kids(s1, rest);
        let ws = ty::fvs(ty::apply_all(rest, s1));
        assert forall|v: Str| vs.union(ws).contains(v) <==> all.contains(v) by {
            if vs.contains(v) {
                assert(ty::fv(ty::apply_all(ts, s)[0]).contains(v));
            }
            if ws.contains(v) {
                let i = choose|i: int|
                    0 <= i < rest.len() && ty::fv(#[trigger] ty::apply_all(rest, s1)[i]).contains(v);
                ty::lemma_apply_compose(rest[i], s, anys(vs));
                lemma_anys_fv(ty::apply(rest[i], s), vs, v);
                assert(ty::apply_all(ts, s)[i + 1] == ty::apply(rest[i], s));
                assert(ty::fv(ty::apply_all(ts, s)[i + 1]).contains(v));
            }
            if all.contains(v) && !vs.contains(v) {
                let i = choose|i: int|
                    0 <= i < ts.len() && ty::fv(#[trigger] ty::apply_all(ts, s)[i]).contains(v);
                assert(i > 0);
                assert(rest[i - 1] == ts[i]);
                ty::lemma_apply_compose(ts[i], s, anys(vs));
                lemma_anys_fv(ty::apply(ts[i], s), vs, v);
                assert(ty::fv(ty::apply_all(rest, s1)[i - 1]).contains(v));
            }
        }
        assert(vs.union(ws) =~= all);
        lemma_anys_more(s, vs, ws);
    }
}

} // verus!
