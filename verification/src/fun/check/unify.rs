//! What it means to unify two types.
//!
//! A substitution is idempotent here: no variable that it replaces occurs in
//! the types that it puts in their place.

use crate::fun::ty;
use crate::fun::ty::{Head, Ty};
use crate::name::Str;
use vstd::prelude::*;

verus! {

/// Why two types do not unify.
pub enum Clash {
    /// The types have different tops.
    Mismatch,
    /// The variable occurs in the type that it would have to be.
    Occurs(Str, Ty),
}

pub open spec fn idempotent(s: Map<Str, Ty>) -> bool {
    forall|x: Str, v: Str|
        #![trigger s.contains_key(x), ty::fv(s[x]).contains(v)]
        s.contains_key(x) && ty::fv(s[x]).contains(v) ==> !s.contains_key(v)
}

/// The substitution that also replaces a variable.
pub open spec fn and_then(s: Map<Str, Ty>, x: Str, t: Ty) -> Map<Str, Ty> {
    ty::compose(s, map![x => t])
}

/// Replaces a variable by a type, unless the type holds the variable.
pub open spec fn bind(s: Map<Str, Ty>, x: Str, t: Ty) -> Result<(Ty, Map<Str, Ty>), Clash> {
    let u = ty::apply(t, s);
    if u.head == Head::Var(x) {
        Ok((u, s))
    } else if ty::fv(u).contains(x) {
        Err(Clash::Occurs(x, u))
    } else {
        Ok((u, and_then(s, x, u)))
    }
}

/// The number of symbols of a type.
pub open spec fn weight(t: Ty) -> nat
    decreases t, 0nat,
{
    1 + weights(t.kids)
}

pub open spec fn weights(ts: Seq<Ty>) -> nat
    decreases ts, ts.len(),
{
    if ts.len() == 0 {
        0
    } else {
        weight(ts[0]) + weights(ts.drop_first())
    }
}

/// How much is left to do: the variables that are not replaced, then the
/// symbols, then whether types or lists of types are compared.
pub struct Work {
    pub vars: nat,
    pub symbols: nat,
    pub kind: nat,
}

pub open spec fn less(a: Work, b: Work) -> bool {
    ||| a.vars < b.vars
    ||| a.vars == b.vars && a.symbols < b.symbols
    ||| a.vars == b.vars && a.symbols == b.symbols && a.kind < b.kind
}

/// The variables of two types under a substitution.
pub open spec fn vars(s: Map<Str, Ty>, t1: Ty, t2: Ty) -> Set<Str> {
    ty::fv(ty::apply(t1, s)).union(ty::fv(ty::apply(t2, s)))
}

/// The variables of two lists of types under a substitution.
pub open spec fn list_vars(s: Map<Str, Ty>, xs: Seq<Ty>, ys: Seq<Ty>) -> Set<Str> {
    ty::fvs(ty::apply_all(xs, s)).union(ty::fvs(ty::apply_all(ys, s)))
}

pub open spec fn work(s: Map<Str, Ty>, t1: Ty, t2: Ty) -> Work {
    Work {
        vars: vars(s, t1, t2).len(),
        symbols: weight(ty::apply(t1, s)) + weight(ty::apply(t2, s)),
        kind: 0,
    }
}

pub open spec fn list_work(s: Map<Str, Ty>, xs: Seq<Ty>, ys: Seq<Ty>) -> Work {
    Work {
        vars: list_vars(s, xs, ys).len(),
        symbols: weights(ty::apply_all(xs, s)) + weights(ty::apply_all(ys, s)),
        kind: 1,
    }
}

pub open spec fn any_work(s: Map<Str, Ty>, ts: Seq<Ty>) -> Work {
    Work {
        vars: ty::fvs(ty::apply_all(ts, s)).len(),
        symbols: weights(ty::apply_all(ts, s)) + 1,
        kind: 1,
    }
}

pub open spec fn is_machine(h: Head) -> bool {
    h is U24 || h is I24 || h is F24
}

pub open spec fn is_numeric(t: Ty) -> bool {
    (t.head is Number || t.head is Integer) && t.kids.len() == 1
}

/// Finds the substitution that makes two types agree, and the type that they
/// then both stand for.
///
/// A hole agrees with every type. A variable is replaced by the other type,
/// the one on the right first. Types with the same top agree if the types
/// below do. A number or integer type agrees with a machine number type if
/// its argument does. `Any` agrees with a type if it agrees with the types
/// below.
///
/// Each use is on less work than before; this is so for every idempotent
/// substitution (see `lemma_unify`).
pub open spec fn unify(s: Map<Str, Ty>, t1: Ty, t2: Ty) -> Result<(Ty, Map<Str, Ty>), Clash>
    decreases work(s, t1, t2).vars, work(s, t1, t2).symbols, 0nat,
{
    let a = ty::apply(t1, s);
    let b = ty::apply(t2, s);
    let w = work(s, t1, t2);
    if b.head is Hole {
        Ok((a, s))
    } else if a.head is Hole {
        Ok((b, s))
    } else if let Head::Var(x) = b.head {
        bind(s, x, a)
    } else if let Head::Var(x) = a.head {
        bind(s, x, b)
    } else if a.head == b.head && a.kids.len() == b.kids.len() {
        if less(list_work(s, a.kids, b.kids), w) {
            match unify_all(s, a.kids, b.kids, Seq::empty()) {
                Ok((ts, s1)) => Ok((ty::apply(Ty { head: a.head, kids: ts }, s1), s1)),
                Err(e) => Err(e),
            }
        } else {
            Err(Clash::Mismatch)
        }
    } else if is_numeric(a) && is_numeric(b) {
        let (i, n) = if a.head is Integer {
            (a.kids[0], b.kids[0])
        } else {
            (b.kids[0], a.kids[0])
        };
        if less(work(s, i, n), w) {
            match unify(s, i, n) {
                Ok((t, s1)) => Ok((Ty { head: Head::Integer, kids: seq![t] }, s1)),
                Err(e) => Err(e),
            }
        } else {
            Err(Clash::Mismatch)
        }
    } else if is_numeric(a) && is_machine(b.head) {
        if less(work(s, a.kids[0], b), w) {
            unify(s, a.kids[0], b)
        } else {
            Err(Clash::Mismatch)
        }
    } else if is_machine(a.head) && is_numeric(b) {
        if less(work(s, b.kids[0], a), w) {
            unify(s, b.kids[0], a)
        } else {
            Err(Clash::Mismatch)
        }
    } else if a.head is Any || b.head is Any {
        let ts = if a.head is Any {
            b.kids
        } else {
            a.kids
        };
        if less(any_work(s, ts), w) {
            match unify_any(s, ts) {
                Ok(s1) => Ok((ty::leaf(Head::Any), s1)),
                Err(e) => Err(e),
            }
        } else {
            Err(Clash::Mismatch)
        }
    } else {
        Err(Clash::Mismatch)
    }
}

/// Unifies two lists of types, one pair after the other, and puts the results
/// behind those that are there.
pub open spec fn unify_all(s: Map<Str, Ty>, xs: Seq<Ty>, ys: Seq<Ty>, done: Seq<Ty>) -> Result<
    (Seq<Ty>, Map<Str, Ty>),
    Clash,
>
    decreases list_work(s, xs, ys).vars, list_work(s, xs, ys).symbols, 1nat,
{
    if xs.len() == 0 || ys.len() == 0 {
        Ok((done, s))
    } else if less(work(s, xs[0], ys[0]), list_work(s, xs, ys)) {
        match unify(s, xs[0], ys[0]) {
            Ok((t, s1)) => if less(
                list_work(s1, xs.drop_first(), ys.drop_first()),
                list_work(s, xs, ys),
            ) {
                unify_all(s1, xs.drop_first(), ys.drop_first(), done.push(t))
            } else {
                Err(Clash::Mismatch)
            },
            Err(e) => Err(e),
        }
    } else {
        Err(Clash::Mismatch)
    }
}

/// Unifies each type with `Any`.
pub open spec fn unify_any(s: Map<Str, Ty>, ts: Seq<Ty>) -> Result<Map<Str, Ty>, Clash>
    decreases any_work(s, ts).vars, any_work(s, ts).symbols, 1nat,
{
    if ts.len() == 0 {
        Ok(s)
    } else if less(work(s, ty::leaf(Head::Any), ts[0]), any_work(s, ts)) {
        match unify(s, ty::leaf(Head::Any), ts[0]) {
            Ok((_, s1)) => if less(any_work(s1, ts.drop_first()), any_work(s, ts)) {
                unify_any(s1, ts.drop_first())
            } else {
                Err(Clash::Mismatch)
            },
            Err(e) => Err(e),
        }
    } else {
        Err(Clash::Mismatch)
    }
}

/* Growing substitutions */

/// A substitution that does at least what another does, and replaces only
/// given variables more, by types of given variables.
pub open spec fn grows(s1: Map<Str, Ty>, s: Map<Str, Ty>, vs: Set<Str>) -> bool {
    &&& idempotent(s1)
    &&& ty::compose(s, s1) == s1
    &&& forall|x: Str| #[trigger] s1.contains_key(x) && !s.contains_key(x) ==> vs.contains(x)
    &&& forall|x: Str, v: Str|
        #![trigger s1.contains_key(x), ty::fv(s1[x]).contains(v)]
        s1.contains_key(x) && !s.contains_key(x) && ty::fv(s1[x]).contains(v) ==> vs.contains(v)
}

/// An idempotent substitution leaves none of its variables.
pub proof fn lemma_idempotent_apply(s: Map<Str, Ty>, t: Ty)
    requires
        idempotent(s),
    ensures
        forall|v: Str| #[trigger] ty::fv(ty::apply(t, s)).contains(v) ==> !s.contains_key(v),
        ty::apply(ty::apply(t, s), s) == ty::apply(t, s),
{
    assert forall|v: Str| #[trigger] ty::fv(ty::apply(t, s)).contains(v) implies !s.contains_key(v) by {
        ty::lemma_apply_fv(t, s, v);
        let x = choose|x: Str| #[trigger] ty::fv(t).contains(x) && ty::fv(ty::image(s, x)).contains(v);
        if s.contains_key(x) {
            assert(ty::fv(s[x]).contains(v));
        }
    }
    ty::lemma_apply_disjoint(ty::apply(t, s), s);
}

pub proof fn lemma_grows_refl(s: Map<Str, Ty>, vs: Set<Str>)
    requires
        idempotent(s),
    ensures
        grows(s, s, vs),
{
    assert forall|x: Str| s.contains_key(x) implies #[trigger] ty::apply(s[x], s) == s[x] by {
        assert forall|v: Str| #[trigger] ty::fv(s[x]).contains(v) implies !s.contains_key(v) by {
            assert(s.contains_key(x));
        }
        ty::lemma_apply_disjoint(s[x], s);
    }
    assert(ty::compose(s, s) =~= s);
}

pub proof fn lemma_grows_more(s1: Map<Str, Ty>, s: Map<Str, Ty>, vs: Set<Str>, ws: Set<Str>)
    requires
        grows(s1, s, vs),
        vs.subset_of(ws),
    ensures
        grows(s1, s, ws),
{
}

/// What a grown substitution makes of a type.
pub proof fn lemma_grows_apply(s1: Map<Str, Ty>, s: Map<Str, Ty>, vs: Set<Str>, t: Ty)
    requires
        idempotent(s),
        grows(s1, s, vs),
    ensures
        ty::apply(ty::apply(t, s), s1) == ty::apply(t, s1),
        forall|v: Str| #[trigger]
            ty::fv(ty::apply(t, s1)).contains(v) ==> !s1.contains_key(v) && (ty::fv(
                ty::apply(t, s),
            ).contains(v) || vs.contains(v)),
{
    ty::lemma_apply_compose(t, s, s1);
    lemma_idempotent_apply(s1, t);
    lemma_idempotent_apply(s, t);
    let u = ty::apply(t, s);
    assert forall|v: Str| #[trigger] ty::fv(ty::apply(t, s1)).contains(v) implies ty::fv(u).contains(v)
        || vs.contains(v) by {
        ty::lemma_apply_fv(u, s1, v);
        let x = choose|x: Str| #[trigger] ty::fv(u).contains(x) && ty::fv(ty::image(s1, x)).contains(v);
        if s1.contains_key(x) {
            assert(!s.contains_key(x));
            assert(ty::fv(s1[x]).contains(v));
        }
    }
}

pub proof fn lemma_grows_trans(
    s2: Map<Str, Ty>,
    s1: Map<Str, Ty>,
    s: Map<Str, Ty>,
    vs: Set<Str>,
    ws: Set<Str>,
)
    requires
        idempotent(s),
        grows(s1, s, vs),
        grows(s2, s1, ws),
        forall|v: Str| #[trigger] ws.contains(v) ==> vs.contains(v),
    ensures
        grows(s2, s, vs),
{
    assert forall|x: Str| s.contains_key(x) implies s1.contains_key(x) && s2.contains_key(x)
        && #[trigger] ty::apply(s[x], s2) == s2[x] by {
        assert(ty::compose(s, s1).contains_key(x));
        assert(s1[x] == ty::apply(s[x], s1));
        assert(ty::compose(s1, s2).contains_key(x));
        assert(s2[x] == ty::apply(s1[x], s2));
        ty::lemma_apply_compose(s[x], s1, s2);
    }
    assert(ty::compose(s, s2) =~= s2);
    assert forall|x: Str| #[trigger] s2.contains_key(x) && !s.contains_key(x) implies vs.contains(x) by {
        if s1.contains_key(x) {
        } else {
            assert(ws.contains(x));
        }
    }
    assert forall|x: Str, v: Str|
        #![trigger s2.contains_key(x), ty::fv(s2[x]).contains(v)]
        s2.contains_key(x) && !s.contains_key(x) && ty::fv(s2[x]).contains(v) implies vs.contains(v) by {
        if s1.contains_key(x) {
            assert(ty::compose(s1, s2).contains_key(x));
            assert(s2[x] == ty::apply(s1[x], s2));
            lemma_grows_apply(s2, s1, ws, s1[x]);
            lemma_grows_refl(s1, vs);
            assert(ty::compose(s1, s1).contains_key(x));
            assert(ty::apply(s1[x], s1) == s1[x]);
        } else {
            assert(ws.contains(v));
        }
    }
}

/// A grown substitution that replaces nothing more is the same.
pub proof fn lemma_grows_same(s1: Map<Str, Ty>, s: Map<Str, Ty>, vs: Set<Str>)
    requires
        idempotent(s),
        grows(s1, s, vs),
        forall|x: Str| #[trigger] s1.contains_key(x) ==> s.contains_key(x),
    ensures
        s1 == s,
{
    assert forall|x: Str| s.contains_key(x) implies s1.contains_key(x) && #[trigger] s1[x] == s[x] by {
        assert(ty::compose(s, s1).contains_key(x));
        assert(s1[x] == ty::apply(s[x], s1));
        assert forall|v: Str| #[trigger] ty::fv(s[x]).contains(v) implies !s1.contains_key(v) by {
            assert(s.contains_key(x));
        }
        ty::lemma_apply_disjoint(s[x], s1);
    }
    assert(s1 =~= s);
}

/// Binding a variable grows the substitution.
pub proof fn lemma_bind(s: Map<Str, Ty>, x: Str, t: Ty, vs: Set<Str>)
    requires
        idempotent(s),
        !s.contains_key(x),
        vs.contains(x),
        forall|v: Str| #[trigger] ty::fv(ty::apply(t, s)).contains(v) ==> vs.contains(v),
    ensures
        match bind(s, x, t) {
            Ok((u, s1)) => {
                &&& grows(s1, s, vs)
                &&& u == ty::apply(t, s)
                &&& ty::apply(u, s1) == u
                &&& u.head != Head::Var(x) ==> ty::apply(ty::ty_var(x), s1) == u
            },
            Err(_) => true,
        },
{
    let u = ty::apply(t, s);
    lemma_idempotent_apply(s, t);
    lemma_grows_refl(s, vs);
    if u.head == Head::Var(x) {
        ty::lemma_apply_disjoint(u, s);
    } else if !ty::fv(u).contains(x) {
        let one = map![x => u];
        let s1 = and_then(s, x, u);
        assert(s1.contains_key(x) && s1[x] == u);
        assert forall|y: Str| s.contains_key(y) implies #[trigger] s1.contains_key(y) && s1[y] == ty::apply(
            s[y],
            one,
        ) by {}
        assert(idempotent(s1)) by {
            assert forall|y: Str, v: Str|
                #![trigger s1.contains_key(y), ty::fv(s1[y]).contains(v)]
                s1.contains_key(y) && ty::fv(s1[y]).contains(v) implies !s1.contains_key(v) by {
                if s.contains_key(y) {
                    ty::lemma_apply_fv(s[y], one, v);
                    let z = choose|z: Str| #[trigger]
                        ty::fv(s[y]).contains(z) && ty::fv(ty::image(one, z)).contains(v);
                    assert(!s.contains_key(z));
                    if z == x {
                        assert(ty::fv(u).contains(v));
                    } else {
                        assert(v == z);
                    }
                } else {
                    assert(y == x);
                }
            }
        }
        assert forall|y: Str| s.contains_key(y) implies #[trigger] ty::apply(s[y], s1) == s1[y] by {
            assert forall|z: Str| #[trigger] ty::fv(s[y]).contains(z) implies (s1.contains_key(z)
                <==> one.contains_key(z)) && (s1.contains_key(z) ==> s1[z] == one[z]) by {
                assert(s.contains_key(y));
                assert(!s.contains_key(z));
            }
            ty::lemma_apply_agree(s[y], s1, one);
        }
        assert(ty::compose(s, s1) =~= s1);
        assert forall|v: Str| #[trigger] ty::fv(u).contains(v) implies !s1.contains_key(v) by {}
        ty::lemma_apply_disjoint(u, s1);
    }
}

/* Less work */

pub proof fn lemma_fvs_finite(ts: Seq<Ty>)
    ensures
        ty::fvs(ts).finite(),
{
    let t = Ty { head: Head::Tup, kids: ts };
    ty::lemma_fv_finite(t);
    ty::lemma_fv_kids(t);
}

proof fn lemma_fewer(a: Set<Str>, b: Set<Str>)
    requires
        b.finite(),
        forall|x: Str| #[trigger] a.contains(x) ==> b.contains(x),
    ensures
        a.len() <= b.len(),
{
    assert(a.subset_of(b));
    vstd::set_lib::lemma_len_subset(a, b);
}

proof fn lemma_strictly_fewer(a: Set<Str>, b: Set<Str>, x: Str)
    requires
        b.finite(),
        forall|v: Str| #[trigger] a.contains(v) ==> b.contains(v),
        b.contains(x),
        !a.contains(x),
    ensures
        a.len() < b.len(),
{
    lemma_fewer(a, b.remove(x));
}

proof fn lemma_vars_finite(s: Map<Str, Ty>, t1: Ty, t2: Ty)
    ensures
        vars(s, t1, t2).finite(),
{
    ty::lemma_fv_finite(ty::apply(t1, s));
    ty::lemma_fv_finite(ty::apply(t2, s));
}

proof fn lemma_list_vars_finite(s: Map<Str, Ty>, xs: Seq<Ty>, ys: Seq<Ty>)
    ensures
        list_vars(s, xs, ys).finite(),
{
    lemma_fvs_finite(ty::apply_all(xs, s));
    lemma_fvs_finite(ty::apply_all(ys, s));
}

proof fn lemma_apply_all_same(s: Map<Str, Ty>, t: Ty)
    requires
        ty::apply(t, s) == t,
        !(t.head is Var),
    ensures
        ty::apply_all(t.kids, s) == t.kids,
        forall|i: int| 0 <= i < t.kids.len() ==> ty::apply(#[trigger] t.kids[i], s) == t.kids[i],
{
    ty::lemma_apply_kids(t, s);
    assert forall|i: int| 0 <= i < t.kids.len() implies ty::apply(#[trigger] t.kids[i], s) == t.kids[i] by {
        assert(ty::apply_all(t.kids, s)[i] == t.kids[i]);
    }
}

proof fn lemma_weights_one(t: Ty)
    requires
        t.kids.len() == 1,
    ensures
        weight(t) == 1 + weight(t.kids[0]),
{
    assert(weights(t.kids.drop_first()) == 0);
}

/// The types below two types with the same top are less work.
pub proof fn lemma_less_same(s: Map<Str, Ty>, t1: Ty, t2: Ty)
    requires
        idempotent(s),
        !(ty::apply(t1, s).head is Var),
        !(ty::apply(t2, s).head is Var),
    ensures
        less(
            list_work(s, ty::apply(t1, s).kids, ty::apply(t2, s).kids),
            work(s, t1, t2),
        ),
        list_vars(s, ty::apply(t1, s).kids, ty::apply(t2, s).kids) == vars(s, t1, t2),
{
    let (a, b) = (ty::apply(t1, s), ty::apply(t2, s));
    lemma_idempotent_apply(s, t1);
    lemma_idempotent_apply(s, t2);
    lemma_apply_all_same(s, a);
    lemma_apply_all_same(s, b);
    ty::lemma_fv_kids(a);
    ty::lemma_fv_kids(b);
}

/// The argument of a number or integer type is less work.
pub proof fn lemma_less_number(s: Map<Str, Ty>, t1: Ty, t2: Ty)
    requires
        idempotent(s),
        !(ty::apply(t1, s).head is Var),
        !(ty::apply(t2, s).head is Var),
    ensures
        ({
            let (a, b) = (ty::apply(t1, s), ty::apply(t2, s));
            &&& a.kids.len() == 1 && b.kids.len() == 1 ==> {
                &&& less(work(s, a.kids[0], b.kids[0]), work(s, t1, t2))
                &&& less(work(s, b.kids[0], a.kids[0]), work(s, t1, t2))
                &&& vars(s, a.kids[0], b.kids[0]).subset_of(vars(s, t1, t2))
            }
            &&& a.kids.len() == 1 ==> {
                &&& less(work(s, a.kids[0], b), work(s, t1, t2))
                &&& vars(s, a.kids[0], b).subset_of(vars(s, t1, t2))
            }
            &&& b.kids.len() == 1 ==> {
                &&& less(work(s, b.kids[0], a), work(s, t1, t2))
                &&& vars(s, b.kids[0], a).subset_of(vars(s, t1, t2))
            }
        }),
{
    let (a, b) = (ty::apply(t1, s), ty::apply(t2, s));
    lemma_idempotent_apply(s, t1);
    lemma_idempotent_apply(s, t2);
    lemma_apply_all_same(s, a);
    lemma_apply_all_same(s, b);
    lemma_vars_finite(s, t1, t2);
    if a.kids.len() == 1 {
        lemma_weights_one(a);
        assert forall|v: Str| #[trigger] ty::fv(a.kids[0]).contains(v) implies ty::fv(a).contains(v) by {}
        assert(vars(s, a.kids[0], b).subset_of(vars(s, t1, t2)));
        lemma_fewer(vars(s, a.kids[0], b), vars(s, t1, t2));
    }
    if b.kids.len() == 1 {
        lemma_weights_one(b);
        assert forall|v: Str| #[trigger] ty::fv(b.kids[0]).contains(v) implies ty::fv(b).contains(v) by {}
        assert(vars(s, b.kids[0], a).subset_of(vars(s, t1, t2)));
        lemma_fewer(vars(s, b.kids[0], a), vars(s, t1, t2));
    }
    if a.kids.len() == 1 && b.kids.len() == 1 {
        assert(vars(s, a.kids[0], b.kids[0]).subset_of(vars(s, t1, t2)));
        lemma_fewer(vars(s, a.kids[0], b.kids[0]), vars(s, t1, t2));
        lemma_fewer(vars(s, b.kids[0], a.kids[0]), vars(s, t1, t2));
    }
}

/// The types below a type that meets `Any` are less work.
pub proof fn lemma_less_any(s: Map<Str, Ty>, t1: Ty, t2: Ty)
    requires
        idempotent(s),
        !(ty::apply(t1, s).head is Var),
        !(ty::apply(t2, s).head is Var),
    ensures
        less(any_work(s, ty::apply(t1, s).kids), work(s, t1, t2)),
        less(any_work(s, ty::apply(t2, s).kids), work(s, t1, t2)),
        ty::fvs(ty::apply_all(ty::apply(t1, s).kids, s)).subset_of(vars(s, t1, t2)),
        ty::fvs(ty::apply_all(ty::apply(t2, s).kids, s)).subset_of(vars(s, t1, t2)),
{
    let (a, b) = (ty::apply(t1, s), ty::apply(t2, s));
    lemma_idempotent_apply(s, t1);
    lemma_idempotent_apply(s, t2);
    lemma_apply_all_same(s, a);
    lemma_apply_all_same(s, b);
    ty::lemma_fv_kids(a);
    ty::lemma_fv_kids(b);
    lemma_vars_finite(s, t1, t2);
    lemma_fewer(ty::fvs(a.kids), vars(s, t1, t2));
    lemma_fewer(ty::fvs(b.kids), vars(s, t1, t2));
}

proof fn lemma_apply_all_first(ts: Seq<Ty>, s: Map<Str, Ty>)
    requires
        ts.len() > 0,
    ensures
        ty::apply_all(ts, s)[0] == ty::apply(ts[0], s),
        ty::apply_all(ts, s).drop_first() == ty::apply_all(ts.drop_first(), s),
        weights(ty::apply_all(ts, s)) == weight(ty::apply(ts[0], s)) + weights(
            ty::apply_all(ts.drop_first(), s),
        ),
{
    assert(ty::apply_all(ts, s).drop_first() =~= ty::apply_all(ts.drop_first(), s));
}

/// The first pair of two lists is less work than the lists.
pub proof fn lemma_less_first(s: Map<Str, Ty>, xs: Seq<Ty>, ys: Seq<Ty>)
    requires
        xs.len() > 0,
        ys.len() > 0,
    ensures
        less(work(s, xs[0], ys[0]), list_work(s, xs, ys)),
        vars(s, xs[0], ys[0]).subset_of(list_vars(s, xs, ys)),
{
    lemma_apply_all_first(xs, s);
    lemma_apply_all_first(ys, s);
    lemma_list_vars_finite(s, xs, ys);
    assert forall|v: Str| #[trigger] vars(s, xs[0], ys[0]).contains(v) implies list_vars(s, xs, ys).contains(v) by {
        if ty::fv(ty::apply(xs[0], s)).contains(v) {
            assert(ty::fv(ty::apply_all(xs, s)[0]).contains(v));
        } else {
            assert(ty::fv(ty::apply_all(ys, s)[0]).contains(v));
        }
    }
    lemma_fewer(vars(s, xs[0], ys[0]), list_vars(s, xs, ys));
}

/// The rest of two lists is less work than the lists, also after the
/// substitution grew over their variables.
pub proof fn lemma_less_rest(s: Map<Str, Ty>, s1: Map<Str, Ty>, xs: Seq<Ty>, ys: Seq<Ty>)
    requires
        xs.len() > 0,
        ys.len() > 0,
        idempotent(s),
        grows(s1, s, list_vars(s, xs, ys)),
    ensures
        less(list_work(s1, xs.drop_first(), ys.drop_first()), list_work(s, xs, ys)),
        list_vars(s1, xs.drop_first(), ys.drop_first()).subset_of(list_vars(s, xs, ys)),
{
    let vs = list_vars(s, xs, ys);
    let (xr, yr) = (xs.drop_first(), ys.drop_first());
    let ws = list_vars(s1, xr, yr);
    lemma_list_vars_finite(s, xs, ys);
    assert forall|v: Str| #[trigger] ws.contains(v) implies vs.contains(v) && !s1.contains_key(v) by {
        if ty::fvs(ty::apply_all(xr, s1)).contains(v) {
            let ts = ty::apply_all(xr, s1);
            let i = choose|i: int| 0 <= i < ts.len() && ty::fv(#[trigger] ts[i]).contains(v);
            lemma_grows_apply(s1, s, vs, xr[i]);
            assert(ty::apply_all(xs, s)[i + 1] == ty::apply(xr[i], s));
        } else {
            let ts = ty::apply_all(yr, s1);
            let i = choose|i: int| 0 <= i < ts.len() && ty::fv(#[trigger] ts[i]).contains(v);
            lemma_grows_apply(s1, s, vs, yr[i]);
            assert(ty::apply_all(ys, s)[i + 1] == ty::apply(yr[i], s));
        }
    }
    if forall|x: Str| #[trigger] s1.contains_key(x) ==> s.contains_key(x) {
        lemma_grows_same(s1, s, vs);
        lemma_fewer(ws, vs);
        lemma_apply_all_first(xs, s);
        lemma_apply_all_first(ys, s);
    } else {
        let x = choose|x: Str| #[trigger] s1.contains_key(x) && !s.contains_key(x);
        assert(vs.contains(x));
        lemma_strictly_fewer(ws, vs, x);
    }
}

/// The first type of a list that meets `Any` is less work than the list.
pub proof fn lemma_less_any_first(s: Map<Str, Ty>, ts: Seq<Ty>)
    requires
        ts.len() > 0,
    ensures
        less(work(s, ty::leaf(Head::Any), ts[0]), any_work(s, ts)),
        vars(s, ty::leaf(Head::Any), ts[0]).subset_of(ty::fvs(ty::apply_all(ts, s))),
{
    let any = ty::leaf(Head::Any);
    lemma_apply_all_first(ts, s);
    lemma_fvs_finite(ty::apply_all(ts, s));
    ty::lemma_apply_disjoint(any, s);
    assert(weight(any) == 1);
    assert forall|v: Str| #[trigger] vars(s, any, ts[0]).contains(v) implies ty::fvs(
        ty::apply_all(ts, s),
    ).contains(v) by {
        assert(ty::fv(ty::apply_all(ts, s)[0]).contains(v));
    }
    lemma_fewer(vars(s, any, ts[0]), ty::fvs(ty::apply_all(ts, s)));
}

/// The rest of a list that meets `Any` is less work than the list, also after
/// the substitution grew over its variables.
pub proof fn lemma_less_any_rest(s: Map<Str, Ty>, s1: Map<Str, Ty>, ts: Seq<Ty>)
    requires
        ts.len() > 0,
        idempotent(s),
        grows(s1, s, ty::fvs(ty::apply_all(ts, s))),
    ensures
        less(any_work(s1, ts.drop_first()), any_work(s, ts)),
        ty::fvs(ty::apply_all(ts.drop_first(), s1)).subset_of(ty::fvs(ty::apply_all(ts, s))),
{
    let vs = ty::fvs(ty::apply_all(ts, s));
    let tr = ts.drop_first();
    let ws = ty::fvs(ty::apply_all(tr, s1));
    lemma_fvs_finite(ty::apply_all(ts, s));
    assert forall|v: Str| #[trigger] ws.contains(v) implies vs.contains(v) && !s1.contains_key(v) by {
        let us = ty::apply_all(tr, s1);
        let i = choose|i: int| 0 <= i < us.len() && ty::fv(#[trigger] us[i]).contains(v);
        lemma_grows_apply(s1, s, vs, tr[i]);
        assert(ty::apply_all(ts, s)[i + 1] == ty::apply(tr[i], s));
    }
    if forall|x: Str| #[trigger] s1.contains_key(x) ==> s.contains_key(x) {
        lemma_grows_same(s1, s, vs);
        lemma_fewer(ws, vs);
        lemma_apply_all_first(ts, s);
    } else {
        let x = choose|x: Str| #[trigger] s1.contains_key(x) && !s.contains_key(x);
        assert(vs.contains(x));
        lemma_strictly_fewer(ws, vs, x);
    }
}

/* What unification does to the substitution */

/// A result of unification over given variables.
pub open spec fn lawful(s: Map<Str, Ty>, t: Ty, s1: Map<Str, Ty>, vs: Set<Str>) -> bool {
    &&& grows(s1, s, vs)
    &&& ty::apply(t, s1) == t
    &&& ty::fv(t).subset_of(vs)
}

/// Unification grows the substitution over the variables of the types, and
/// gives a type of those variables that the substitution leaves as it is.
pub proof fn lemma_unify(s: Map<Str, Ty>, t1: Ty, t2: Ty)
    requires
        idempotent(s),
    ensures
        match unify(s, t1, t2) {
            Ok((t, s1)) => lawful(s, t, s1, vars(s, t1, t2)),
            Err(_) => true,
        },
    decreases work(s, t1, t2).vars, work(s, t1, t2).symbols, 0nat,
{
    let a = ty::apply(t1, s);
    let b = ty::apply(t2, s);
    let vs = vars(s, t1, t2);
    lemma_idempotent_apply(s, t1);
    lemma_idempotent_apply(s, t2);
    lemma_grows_refl(s, vs);
    if b.head is Hole {
    } else if a.head is Hole {
    } else if let Head::Var(x) = b.head {
        assert(ty::fv(b).contains(x));
        lemma_bind(s, x, a, vs);
    } else if let Head::Var(x) = a.head {
        assert(ty::fv(a).contains(x));
        lemma_bind(s, x, b, vs);
    } else if a.head == b.head && a.kids.len() == b.kids.len() {
        lemma_less_same(s, t1, t2);
        lemma_unify_all(s, a.kids, b.kids, Seq::empty());
        if let Ok((ts, s1)) = unify_all(s, a.kids, b.kids, Seq::empty()) {
            let t = Ty { head: a.head, kids: ts };
            ty::lemma_fv_kids(t);
            assert(ty::fv(t).subset_of(vs));
            lemma_grows_within(s, s1, t, vs);
        }
    } else {
        lemma_less_number(s, t1, t2);
        lemma_less_any(s, t1, t2);
        if is_numeric(a) && is_numeric(b) {
            let (i, n) = if a.head is Integer {
                (a.kids[0], b.kids[0])
            } else {
                (b.kids[0], a.kids[0])
            };
            assert(vars(s, i, n).subset_of(vs));
            lemma_unify(s, i, n);
            if let Ok((t, s1)) = unify(s, i, n) {
                lemma_lawful_more(s, t, s1, vars(s, i, n), vs);
                let u = Ty { head: Head::Integer, kids: seq![t] };
                ty::lemma_apply_kids(u, s1);
                assert(ty::apply_all(u.kids, s1) =~= u.kids);
                ty::lemma_fv_kids(u);
            }
        } else if is_numeric(a) && is_machine(b.head) {
            lemma_unify(s, a.kids[0], b);
            if let Ok((t, s1)) = unify(s, a.kids[0], b) {
                lemma_lawful_more(s, t, s1, vars(s, a.kids[0], b), vs);
            }
        } else if is_machine(a.head) && is_numeric(b) {
            lemma_unify(s, b.kids[0], a);
            if let Ok((t, s1)) = unify(s, b.kids[0], a) {
                lemma_lawful_more(s, t, s1, vars(s, b.kids[0], a), vs);
            }
        } else if a.head is Any || b.head is Any {
            let ts = if a.head is Any {
                b.kids
            } else {
                a.kids
            };
            lemma_unify_any(s, ts);
            if let Ok(s1) = unify_any(s, ts) {
                ty::lemma_apply_disjoint(ty::leaf(Head::Any), s1);
                lemma_lawful_more(s, ty::leaf(Head::Any), s1, ty::fvs(ty::apply_all(ts, s)), vs);
            }
        }
    }
}

proof fn lemma_lawful_more(s: Map<Str, Ty>, t: Ty, s1: Map<Str, Ty>, vs: Set<Str>, ws: Set<Str>)
    requires
        lawful(s, t, s1, vs),
        vs.subset_of(ws),
    ensures
        lawful(s, t, s1, ws),
{
}

/// What unifying lists of types gives over given variables.
pub open spec fn lawful_all(
    s: Map<Str, Ty>,
    done: Seq<Ty>,
    ts: Seq<Ty>,
    s1: Map<Str, Ty>,
    vs: Set<Str>,
) -> bool {
    &&& grows(s1, s, vs)
    &&& done.len() <= ts.len()
    &&& forall|i: int| 0 <= i < done.len() ==> #[trigger] ts[i] == done[i]
    &&& forall|i: int| done.len() <= i < ts.len() ==> ty::fv(#[trigger] ts[i]).subset_of(vs)
}

/// Unifying lists of types grows the substitution over their variables.
pub proof fn lemma_unify_all(s: Map<Str, Ty>, xs: Seq<Ty>, ys: Seq<Ty>, done: Seq<Ty>)
    requires
        idempotent(s),
        xs.len() == ys.len(),
    ensures
        match unify_all(s, xs, ys, done) {
            Ok((ts, s1)) => lawful_all(s, done, ts, s1, list_vars(s, xs, ys)) && ts.len() == done.len() + xs.len(),
            Err(_) => true,
        },
    decreases list_work(s, xs, ys).vars, list_work(s, xs, ys).symbols, 1nat,
{
    let vs = list_vars(s, xs, ys);
    lemma_grows_refl(s, vs);
    if xs.len() > 0 {
        lemma_less_first(s, xs, ys);
        lemma_unify(s, xs[0], ys[0]);
        if let Ok((t, s1)) = unify(s, xs[0], ys[0]) {
            lemma_lawful_more(s, t, s1, vars(s, xs[0], ys[0]), vs);
            lemma_less_rest(s, s1, xs, ys);
            let (xr, yr) = (xs.drop_first(), ys.drop_first());
            lemma_unify_all(s1, xr, yr, done.push(t));
            if let Ok((ts, s2)) = unify_all(s1, xr, yr, done.push(t)) {
                let ws = list_vars(s1, xr, yr);
                lemma_grows_trans(s2, s1, s, vs, ws);
                assert(ts[done.len() as int] == done.push(t)[done.len() as int]);
                assert forall|i: int| 0 <= i < done.len() implies #[trigger] ts[i] == done[i] by {
                    assert(ts[i] == done.push(t)[i]);
                }
            }
        }
    }
}

/// Unifying types with `Any` grows the substitution over their variables.
pub proof fn lemma_unify_any(s: Map<Str, Ty>, ts: Seq<Ty>)
    requires
        idempotent(s),
    ensures
        match unify_any(s, ts) {
            Ok(s1) => grows(s1, s, ty::fvs(ty::apply_all(ts, s))),
            Err(_) => true,
        },
    decreases any_work(s, ts).vars, any_work(s, ts).symbols, 1nat,
{
    let vs = ty::fvs(ty::apply_all(ts, s));
    lemma_grows_refl(s, vs);
    if ts.len() > 0 {
        let any = ty::leaf(Head::Any);
        lemma_less_any_first(s, ts);
        lemma_unify(s, any, ts[0]);
        if let Ok((t, s1)) = unify(s, any, ts[0]) {
            lemma_lawful_more(s, t, s1, vars(s, any, ts[0]), vs);
            lemma_less_any_rest(s, s1, ts);
            let tr = ts.drop_first();
            lemma_unify_any(s1, tr);
            if let Ok(s2) = unify_any(s1, tr) {
                lemma_grows_trans(s2, s1, s, vs, ty::fvs(ty::apply_all(tr, s1)));
            }
        }
    }
}

/// Types of given variables stay so under a grown substitution.
pub proof fn lemma_grows_within(s: Map<Str, Ty>, s1: Map<Str, Ty>, t: Ty, vs: Set<Str>)
    requires
        grows(s1, s, vs),
        ty::fv(t).subset_of(vs),
        forall|v: Str| #[trigger] vs.contains(v) ==> !s.contains_key(v),
    ensures
        lawful(s, ty::apply(t, s1), s1, vs),
{
    lemma_idempotent_apply(s1, t);
    assert forall|v: Str| #[trigger] ty::fv(ty::apply(t, s1)).contains(v) implies vs.contains(v) by {
        ty::lemma_apply_fv(t, s1, v);
        let x = choose|x: Str| #[trigger] ty::fv(t).contains(x) && ty::fv(ty::image(s1, x)).contains(v);
        if s1.contains_key(x) {
            assert(!s.contains_key(x));
            assert(ty::fv(s1[x]).contains(v));
        }
    }
}

} // verus!
