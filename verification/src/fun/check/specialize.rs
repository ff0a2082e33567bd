//! Fitting an inferred type to its annotation.

use crate::fun::check::infer_state::{InferState, UnifyError};
use crate::fun::check::scheme;
use crate::fun::check::scheme::VarGen;
use crate::fun::check::unify;
use crate::fun::check::unify::Clash;
use crate::fun::check::unify_laws;
use crate::fun::ty;
use crate::fun::ty::{Head, Subst, Ty, Type};
use crate::name;
use crate::name::{Name, Str};
use crate::name_map::NameMap;
use vstd::prelude::*;

verus! {

/// Why an inferred type does not merge with its annotation.
pub enum Unmerged {
    /// The types have different tops.
    Mismatch,
    /// The inferred variable would have to be both types.
    Both(Str, Ty, Ty),
}

/// Why an inferred type does not fit its annotation.
pub enum Unfit {
    /// The annotation and the inferred type do not unify.
    Expected(Ty, Ty, Clash),
    /// The annotation does not merge with the inferred type, whose variables
    /// were renamed from the first name on.
    Subtype(Ty, Ty, Unmerged),
}

/// What the inferred variables stand for when an inferred type is merged with its
/// annotation, given what they stand for so far.
///
/// A hole and `Any` in the annotation go with every inferred type, and `Any` in
/// the inferred type goes with every annotation. An inferred variable stands for
/// one type of the annotation.
pub open spec fn merge(inf: Ty, exp: Ty, s: Map<Str, Ty>) -> Result<Map<Str, Ty>, Unmerged>
    decreases inf, 0nat,
{
    if exp.head is Hole {
        Ok(s)
    } else if inf.head is Hole {
        Err(Unmerged::Mismatch)
    } else if exp.head is Any || inf.head is Any {
        Ok(s)
    } else if let Head::Var(x) = inf.head {
        if !s.contains_key(x) {
            Ok(s.insert(x, exp))
        } else if s[x] == exp {
            Ok(s)
        } else {
            Err(Unmerged::Both(x, s[x], exp))
        }
    } else if inf.head == exp.head && inf.kids.len() == exp.kids.len() {
        merge_all(inf.kids, exp.kids, s)
    } else {
        Err(Unmerged::Mismatch)
    }
}

/// Merges two lists of types, one pair after the other.
pub open spec fn merge_all(xs: Seq<Ty>, ys: Seq<Ty>, s: Map<Str, Ty>) -> Result<
    Map<Str, Ty>,
    Unmerged,
>
    decreases xs, xs.len(),
{
    if xs.len() == 0 || ys.len() == 0 {
        Ok(s)
    } else {
        match merge(xs[0], ys[0], s) {
            Ok(s1) => merge_all(xs.drop_first(), ys.drop_first(), s1),
            Err(e) => Err(e),
        }
    }
}

/// The annotation with its holes filled with what the inferred type has there,
/// whose variables are replaced.
pub open spec fn filled(inf: Ty, exp: Ty, s: Map<Str, Ty>) -> Ty
    decreases exp,
{
    if exp.head is Hole {
        ty::apply(inf, s)
    } else if inf.head == exp.head && inf.kids.len() == exp.kids.len() {
        Ty {
            head: exp.head,
            kids: Seq::new(
                exp.kids.len(),
                |i: int|
                    if 0 <= i < exp.kids.len() {
                        filled(inf.kids[i], exp.kids[i], s)
                    } else {
                        exp
                    },
            ),
        }
    } else {
        exp
    }
}

/// The inferred type with its variables renamed from the first name on.
pub open spec fn renamed(inf: Ty) -> Ty {
    scheme::instance(scheme::closed_scheme(inf), 0)
}

/// The annotation with its variables renamed to names that the inferred type
/// does not use.
pub open spec fn renamed_apart(ann: Ty, inf: Ty) -> Ty {
    scheme::instance(scheme::closed_scheme(ann), name::in_order(ty::fv(inf)).len())
}

/// New names for inferred variables that are called like variables of the
/// annotation.
pub open spec fn new_names(ann: Ty, inf: Ty) -> Map<Str, Ty> {
    let vars = name::in_order(ty::fv(ann));
    scheme::fresh_apart(vars, ty::fv(ann), name::in_order(ty::fv(inf)).len() + vars.len()).0
}

/// The inferred type, made to fit its annotation.
///
/// The names of the variables of the annotation have nothing to do with those of
/// the inferred ones. An inferred variable that fills a hole is what it stands for
/// in the annotation; if it stands for nothing there, it is renamed if a variable
/// of the annotation has its name.
pub open spec fn specialized(inf: Ty, ann: Ty) -> Result<Ty, Unfit> {
    match unify::unify(Map::empty(), renamed(inf), renamed_apart(ann, inf)) {
        Ok((t, s)) => match merge(t, ann, Map::empty()) {
            Ok(m) => Ok(filled(t, ann, new_names(ann, inf).union_prefer_right(m))),
            Err(e) => Err(Unfit::Subtype(ann, renamed(inf), e)),
        },
        Err(e) => Err(Unfit::Expected(ann, inf, e)),
    }
}

/* Holes of the inferred type only meet holes of the annotation */

/// No variable is replaced by a hole.
spec fn solid(s: Map<Str, Ty>) -> bool {
    forall|x: Str| #[trigger] s.contains_key(x) ==> !(s[x].head is Hole)
}

/// Merging the first type with the second one never meets a hole in the first
/// one alone, also after more variables were replaced.
spec fn holes_meet(t: Ty, y: Ty) -> bool
    decreases y,
{
    y.head is Hole || !(t.head is Hole) && (y.head is Any || y.head is Var || !(t.head is Var) && (t.head
        == y.head && t.kids.len() == y.kids.len() ==> forall|i: int|
        0 <= i < y.kids.len() ==> holes_meet(t.kids[i], #[trigger] y.kids[i])))
}

proof fn lemma_meet_apply(y: Ty, s: Map<Str, Ty>)
    requires
        solid(s),
    ensures
        holes_meet(ty::apply(y, s), y),
    decreases y,
{
    if !(y.head is Var) {
        let t = ty::apply(y, s);
        assert forall|i: int| 0 <= i < y.kids.len() implies holes_meet(t.kids[i], #[trigger] y.kids[i]) by {
            lemma_meet_apply(y.kids[i], s);
        }
    }
}

/// Replacing variables of the first type.
proof fn lemma_meet_left(t: Ty, y: Ty, s: Map<Str, Ty>)
    requires
        solid(s),
        holes_meet(t, y),
    ensures
        holes_meet(ty::apply(t, s), y),
    decreases y,
{
    if !(t.head is Var) {
        let u = ty::apply(t, s);
        if t.head == y.head && t.kids.len() == y.kids.len() && !(y.head is Hole || y.head is Any) {
            assert forall|i: int| 0 <= i < y.kids.len() implies holes_meet(u.kids[i], #[trigger] y.kids[i]) by {
                assert(holes_meet(t.kids[i], y.kids[i]));
                lemma_meet_left(t.kids[i], y.kids[i], s);
            }
        }
    }
}

/// Putting variables of the second type back.
proof fn lemma_meet_right(t: Ty, y: Ty, s: Map<Str, Ty>)
    requires
        solid(s),
        holes_meet(t, ty::apply(y, s)),
    ensures
        holes_meet(t, y),
    decreases y,
{
    if !(y.head is Var) {
        let u = ty::apply(y, s);
        if t.head == y.head && t.kids.len() == y.kids.len() && !(y.head is Hole || y.head is Any) {
            assert forall|i: int| 0 <= i < y.kids.len() implies holes_meet(t.kids[i], #[trigger] y.kids[i]) by {
                assert(holes_meet(t.kids[i], u.kids[i]));
                lemma_meet_right(t.kids[i], y.kids[i], s);
            }
        }
    }
}

/// What a machine number unifies with becomes that number or `Any`.
proof fn lemma_unify_machine(s: Map<Str, Ty>, t1: Ty, t2: Ty)
    requires
        unify::idempotent(s),
        unify::is_machine(ty::apply(t2, s).head),
    ensures
        match unify::unify(s, t1, t2) {
            Ok((t, s1)) => t.head is Any || t.head == ty::apply(t2, s).head,
            Err(_) => true,
        },
    decreases unify::work(s, t1, t2).vars, unify::work(s, t1, t2).symbols, 0nat,
{
    let a = ty::apply(t1, s);
    let b = ty::apply(t2, s);
    unify::lemma_idempotent_apply(s, t1);
    unify::lemma_idempotent_apply(s, t2);
    if unify::is_numeric(a) {
        unify::lemma_less_number(s, t1, t2);
        lemma_unify_machine(s, a.kids[0], b);
    }
}

proof fn lemma_bind_solid(s: Map<Str, Ty>, x: Str, a: Ty)
    requires
        solid(s),
        !(a.head is Hole),
        ty::apply(a, s) == a,
    ensures
        match unify::bind(s, x, a) {
            Ok((t, s1)) => solid(s1) && t == a,
            Err(_) => true,
        },
{
    let s1 = unify::and_then(s, x, a);
    assert forall|y: Str| #[trigger] s1.contains_key(y) implies !(s1[y].head is Hole) by {
        if s.contains_key(y) {
        } else {
            assert(y == x);
        }
    }
}

proof fn lemma_unify_meet(s: Map<Str, Ty>, t1: Ty, t2: Ty)
    requires
        unify::idempotent(s),
        solid(s),
    ensures
        match unify::unify(s, t1, t2) {
            Ok((t, s1)) => solid(s1) && holes_meet(t, t1) && holes_meet(t, t2),
            Err(_) => true,
        },
    decreases unify::work(s, t1, t2).vars, unify::work(s, t1, t2).symbols, 0nat,
{
    let a = ty::apply(t1, s);
    let b = ty::apply(t2, s);
    unify::lemma_idempotent_apply(s, t1);
    unify::lemma_idempotent_apply(s, t2);
    lemma_meet_apply(t1, s);
    lemma_meet_apply(t2, s);
    if b.head is Hole || a.head is Hole {
    } else if let Head::Var(x) = b.head {
        lemma_bind_solid(s, x, a);
    } else if let Head::Var(x) = a.head {
        lemma_bind_solid(s, x, b);
    } else if a.head == b.head && a.kids.len() == b.kids.len() {
        unify::lemma_less_same(s, t1, t2);
        lemma_unify_all_meet(s, a.kids, b.kids, Seq::empty());
        if let Ok((ts, s1)) = unify::unify_all(s, a.kids, b.kids, Seq::empty()) {
            unify::lemma_unify_all(s, a.kids, b.kids, Seq::empty());
            let t = Ty { head: a.head, kids: ts };
            assert(holes_meet(t, a));
            assert(holes_meet(t, b));
            lemma_meet_right(t, t1, s);
            lemma_meet_right(t, t2, s);
            lemma_meet_left(t, t1, s1);
            lemma_meet_left(t, t2, s1);
        }
    } else {
        unify::lemma_less_number(s, t1, t2);
        unify::lemma_less_any(s, t1, t2);
        if unify::is_numeric(a) && unify::is_numeric(b) {
            let (i, n) = if a.head is Integer {
                (a.kids[0], b.kids[0])
            } else {
                (b.kids[0], a.kids[0])
            };
            lemma_unify_meet(s, i, n);
            if let Ok((t, s1)) = unify::unify(s, i, n) {
                let u = Ty { head: Head::Integer, kids: seq![t] };
                assert(holes_meet(u, a));
                assert(holes_meet(u, b));
                lemma_meet_right(u, t1, s);
                lemma_meet_right(u, t2, s);
            }
        } else if unify::is_numeric(a) && unify::is_machine(b.head) {
            lemma_unify_meet(s, a.kids[0], b);
            lemma_unify_machine(s, a.kids[0], b);
            if let Ok((t, s1)) = unify::unify(s, a.kids[0], b) {
                assert(holes_meet(t, a));
                lemma_meet_right(t, t1, s);
                lemma_meet_right(t, t2, s);
            }
        } else if unify::is_machine(a.head) && unify::is_numeric(b) {
            lemma_unify_meet(s, b.kids[0], a);
            lemma_unify_machine(s, b.kids[0], a);
            if let Ok((t, s1)) = unify::unify(s, b.kids[0], a) {
                assert(holes_meet(t, b));
                lemma_meet_right(t, t1, s);
                lemma_meet_right(t, t2, s);
            }
        } else if a.head is Any || b.head is Any {
            let ts = if a.head is Any {
                b.kids
            } else {
                a.kids
            };
            lemma_unify_any_solid(s, ts);
            let t = ty::leaf(Head::Any);
            lemma_any_meet(t1);
            lemma_any_meet(t2);
        }
    }
}

proof fn lemma_any_meet(y: Ty)
    ensures
        holes_meet(ty::leaf(Head::Any), y),
{
}

proof fn lemma_unify_all_meet(s: Map<Str, Ty>, xs: Seq<Ty>, ys: Seq<Ty>, done: Seq<Ty>)
    requires
        unify::idempotent(s),
        solid(s),
        xs.len() == ys.len(),
    ensures
        match unify::unify_all(s, xs, ys, done) {
            Ok((ts, s1)) => {
                &&& solid(s1)
                &&& forall|i: int|
                    0 <= i < xs.len() ==> holes_meet(ts[done.len() + i], #[trigger] xs[i])
                &&& forall|i: int|
                    0 <= i < ys.len() ==> holes_meet(ts[done.len() + i], #[trigger] ys[i])
            },
            Err(_) => true,
        },
    decreases unify::list_work(s, xs, ys).vars, unify::list_work(s, xs, ys).symbols, 1nat,
{
    let vs = unify::list_vars(s, xs, ys);
    if xs.len() > 0 {
        unify::lemma_less_first(s, xs, ys);
        unify::lemma_unify(s, xs[0], ys[0]);
        lemma_unify_meet(s, xs[0], ys[0]);
        if let Ok((t, s1)) = unify::unify(s, xs[0], ys[0]) {
            unify::lemma_grows_more(s1, s, unify::vars(s, xs[0], ys[0]), vs);
            unify::lemma_less_rest(s, s1, xs, ys);
            let (xr, yr) = (xs.drop_first(), ys.drop_first());
            unify::lemma_unify_all(s1, xr, yr, done.push(t));
            lemma_unify_all_meet(s1, xr, yr, done.push(t));
            if let Ok((ts, s2)) = unify::unify_all(s1, xr, yr, done.push(t)) {
                assert(ts[done.len() as int] == done.push(t)[done.len() as int]);
                assert forall|i: int| 0 <= i < xs.len() implies holes_meet(
                    ts[done.len() + i],
                    #[trigger] xs[i],
                ) by {
                    if i > 0 {
                        assert(xr[i - 1] == xs[i]);
                        assert(done.push(t).len() + (i - 1) == done.len() + i);
                    }
                }
                assert forall|i: int| 0 <= i < ys.len() implies holes_meet(
                    ts[done.len() + i],
                    #[trigger] ys[i],
                ) by {
                    if i > 0 {
                        assert(yr[i - 1] == ys[i]);
                        assert(done.push(t).len() + (i - 1) == done.len() + i);
                    }
                }
            }
        }
    }
}

proof fn lemma_unify_any_solid(s: Map<Str, Ty>, ts: Seq<Ty>)
    requires
        unify::idempotent(s),
        solid(s),
    ensures
        match unify::unify_any(s, ts) {
            Ok(s1) => solid(s1),
            Err(_) => true,
        },
    decreases unify::any_work(s, ts).vars, unify::any_work(s, ts).symbols, 1nat,
{
    if ts.len() > 0 {
        let any = ty::leaf(Head::Any);
        unify::lemma_less_any_first(s, ts);
        unify::lemma_unify(s, any, ts[0]);
        lemma_unify_meet(s, any, ts[0]);
        if let Ok((t, s1)) = unify::unify(s, any, ts[0]) {
            unify::lemma_grows_more(
                s1,
                s,
                unify::vars(s, any, ts[0]),
                ty::fvs(ty::apply_all(ts, s)),
            );
            unify::lemma_less_any_rest(s, s1, ts);
            lemma_unify_any_solid(s1, ts.drop_first());
        }
    }
}

proof fn lemma_fresh_solid(vars: Seq<Str>, next: nat)
    ensures
        solid(scheme::fresh_map(vars, next)),
    decreases vars.len(),
{
    if vars.len() > 0 {
        lemma_fresh_solid(vars.drop_last(), next);
    }
}

/// The unified type and the annotation can be merged.
proof fn lemma_ready_to_merge(inf: Ty, ann: Ty)
    ensures
        match unify::unify(Map::empty(), renamed(inf), renamed_apart(ann, inf)) {
            Ok((t, s)) => holes_meet(t, ann) && ty::apply(t, s) == t,
            Err(_) => true,
        },
{
    let e = Map::<Str, Ty>::empty();
    assert(unify::idempotent(e));
    lemma_unify_meet(e, renamed(inf), renamed_apart(ann, inf));
    unify::lemma_unify(e, renamed(inf), renamed_apart(ann, inf));
    let sch = scheme::closed_scheme(ann);
    let n = name::in_order(ty::fv(inf)).len();
    lemma_fresh_solid(sch.vars, n);
    if let Ok((t, s)) = unify::unify(e, renamed(inf), renamed_apart(ann, inf)) {
        lemma_meet_right(t, ann, scheme::fresh_map(sch.vars, n));
    }
}

/* Execution */

/// Why an inferred type does not merge with its annotation.
#[derive(Debug, PartialEq, Eq)]
pub enum MergeError {
    /// The types have different tops.
    Mismatch,
    /// The inferred variable would have to be both types.
    Both { var: Name, old_typ: Type, new_typ: Type },
}

impl View for MergeError {
    type V = Unmerged;

    open spec fn view(&self) -> Unmerged {
        match *self {
            MergeError::Mismatch => Unmerged::Mismatch,
            MergeError::Both { var, old_typ, new_typ } => Unmerged::Both(var@, old_typ@, new_typ@),
        }
    }
}

/// Why an inferred type does not fit its annotation.
#[allow(inconsistent_fields)]
#[derive(Debug, PartialEq, Eq)]
pub enum SpecializeError {
    /// The annotation and the inferred type do not unify.
    Expected { ann: Type, inf: Type, cause: UnifyError },
    /// The annotation is not a subtype of the inferred type, whose variables
    /// were renamed from the first name on.
    Subtype { ann: Type, inf: Type, cause: MergeError },
}

impl View for SpecializeError {
    type V = Unfit;

    open spec fn view(&self) -> Unfit {
        match *self {
            SpecializeError::Expected { ann, inf, cause } => Unfit::Expected(ann@, inf@, cause@),
            SpecializeError::Subtype { ann, inf, cause } => Unfit::Subtype(ann@, inf@, cause@),
        }
    }
}

/// Finds out what the inferred variables stand for in the annotation.
fn merge_specialization(inf: &Type, exp: &Type, s: &mut Subst) -> (r: Result<(), MergeError>)
    requires
        holes_meet(inf@, exp@),
    ensures
        match r {
            Ok(_) => merge(inf@, exp@, old(s)@) == Ok::<_, Unmerged>(final(s)@),
            Err(e) => merge(inf@, exp@, old(s)@) == Err::<Map<Str, Ty>, _>(e@),
        },
    decreases inf,
{
    match (inf, exp) {
        // These rules have to come before the others.
        (_, Type::Hole) => Ok(()),
        (_, Type::Any) => Ok(()),
        (Type::Any, _) => Ok(()),
        (Type::Var(x), new) => {
            match s.0.get(x) {
                Some(old_typ) => {
                    return if old_typ.same(new) {
                        Ok(())
                    } else {
                        Err(
                            MergeError::Both {
                                var: x.clone(),
                                old_typ: old_typ.clone(),
                                new_typ: new.clone(),
                            },
                        )
                    };
                },
                None => {},
            }
            s.0.insert(x.clone(), new.clone());
            Ok(())
        },
        _ => {
            let xs = inf.children();
            let ys = exp.children();
            let n: usize = xs.len();
            if !inf.same_head(exp) || n != ys.len() {
                return Err(MergeError::Mismatch);
            }
            let ghost s0 = s@;
            let ghost (us, vs) = (inf@.kids, exp@.kids);
            let mut i: usize = 0;
            proof {
                assert(us.skip(0) =~= us);
                assert(vs.skip(0) =~= vs);
            }
            while i < n
                invariant
                    i <= n,
                    n == xs@.len(),
                    n == ys@.len(),
                    s0 == old(s)@,
                    us == inf@.kids,
                    vs == exp@.kids,
                    us == ty::ref_models(xs@),
                    vs == ty::ref_models(ys@),
                    forall|j: int| 0 <= j < n ==> decreases_to!(inf => #[trigger] xs@[j]),
                    inf@.head == exp@.head,
                    !(inf@.head is Hole || inf@.head is Var || inf@.head is Any),
                    holes_meet(inf@, exp@),
                    merge_all(us, vs, s0) == merge_all(us.skip(i as int), vs.skip(i as int), s@),
                decreases n - i,
            {
                proof {
                    let (ur, vr) = (us.skip(i as int), vs.skip(i as int));
                    assert(ur[0] == xs@[i as int]@);
                    assert(vr[0] == ys@[i as int]@);
                    assert(holes_meet(us[i as int], vs[i as int]));
                    assert(ur.drop_first() =~= us.skip(i + 1));
                    assert(vr.drop_first() =~= vs.skip(i + 1));
                }
                match merge_specialization(xs[i], ys[i], s) {
                    Ok(_) => {},
                    Err(e) => {
                        return Err(e);
                    },
                }
                i += 1;
            }
            Ok(())
        },
    }
}

/// Fills the holes of the annotation.
fn fill_holes(inf: &Type, exp: &Type, s: &Subst) -> (r: Type)
    ensures
        r@ == filled(inf@, exp@, s@),
    decreases exp,
{
    if let Type::Hole = exp {
        return inf.subst(s);
    }
    let xs = inf.children();
    let ys = exp.children();
    let n: usize = ys.len();
    if !inf.same_head(exp) || n != xs.len() {
        return exp.clone();
    }
    let mut ts: Vec<Type> = Vec::new();
    let mut i: usize = 0;
    while i < n
        invariant
            i <= n,
            n == xs@.len(),
            n == ys@.len(),
            ts@.len() == i,
            ty::ref_models(xs@) == inf@.kids,
            ty::ref_models(ys@) == exp@.kids,
            forall|j: int| 0 <= j < n ==> decreases_to!(exp => #[trigger] ys@[j]),
            forall|j: int|
                0 <= j < i ==> (#[trigger] ts@[j])@ == filled(inf@.kids[j], exp@.kids[j], s@),
        decreases n - i,
    {
        assert(inf@.kids[i as int] == xs@[i as int]@);
        assert(exp@.kids[i as int] == ys@[i as int]@);
        ts.push(fill_holes(xs[i], ys[i], s));
        i += 1;
    }
    assert(ty::models(ts@) =~= filled(inf@, exp@, s@).kids);
    exp.with_children(ts)
}

/// Adds all replacements of another substitution.
fn replace_more(s: &mut Subst, more: &Subst)
    ensures
        final(s)@ == old(s)@.union_prefer_right(more@),
{
    let n: usize = more.0.len();
    let ghost ns = more.0.names();
    let mut i: usize = 0;
    while i < n
        invariant
            i <= n,
            n == ns.len(),
            ns == more.0.names(),
            forall|x: Str| #[trigger]
                s@.contains_key(x) <==> old(s)@.contains_key(x) || ns.take(i as int).contains(x),
            forall|x: Str| #[trigger]
                s@.contains_key(x) ==> s@[x] == if ns.take(i as int).contains(x) {
                    more@[x]
                } else {
                    old(s)@[x]
                },
        decreases n - i,
    {
        let ghost before = s@;
        s.0.insert(more.0.name_at(i).clone(), more.0.value_at(i).clone());
        proof {
            assert(s@ == before.insert(ns[i as int], more@[ns[i as int]]));
            let (a, b) = (ns.take(i as int), ns.take(i + 1));
            assert(b =~= a.push(ns[i as int]));
            assert forall|x: Str| #[trigger] b.contains(x) <==> a.contains(x) || x == ns[i as int] by {
                if a.contains(x) {
                    let j = choose|j: int| 0 <= j < a.len() && a[j] == x;
                    assert(b[j] == x);
                }
                assert(b[i as int] == ns[i as int]);
            }
            assert forall|x: Str| #[trigger] s@.contains_key(x) <==> old(s)@.contains_key(x)
                || b.contains(x) by {
                assert(before.contains_key(x) <==> old(s)@.contains_key(x) || a.contains(x));
            }
            assert forall|x: Str| #[trigger] s@.contains_key(x) implies s@[x] == if b.contains(x) {
                more@[x]
            } else {
                old(s)@[x]
            } by {
                if x != ns[i as int] {
                    assert(before.contains_key(x));
                }
            }
        }
        i += 1;
    }
    proof {
        assert(ns.take(n as int) =~= ns);
        assert(s@ =~= old(s)@.union_prefer_right(more@));
    }
}

/// Specializes the inferred type against the type annotation.
/// This way, the annotation can be less general than the inferred type.
///
/// It also forces inferred 'Any' to the annotated, inferred types to
/// annotated 'Any' and fills 'Hole' with the inferred type.
///
/// Errors if the first type is not a superset of the second type.
pub fn specialize(inf: &Type, ann: &Type) -> (r: Result<Type, SpecializeError>)
    ensures
        match r {
            Ok(t) => specialized(inf@, ann@) == Ok::<_, Unfit>(t@),
            Err(e) => specialized(inf@, ann@) == Err::<Ty, _>(e@),
        },
{
    // Refresh the variable names to avoid conflicts when unifying.
    // Names of type vars in the annotation have nothing to do with names in the inferred type.
    let mut var_gen = VarGen::new();
    let inf2 = inf.generalize_closed().instantiate(&mut var_gen);
    let ann2 = ann.generalize_closed().instantiate(&mut var_gen);
    let mut state = InferState::new();
    proof {
        lemma_ready_to_merge(inf@, ann@);
    }
    let t = match state.unify(&inf2, &ann2) {
        Ok(t) => t,
        Err(cause) => {
            return Err(SpecializeError::Expected { ann: ann.clone(), inf: inf.clone(), cause });
        },
    };
    let t = state.prune(&t);
    // Merge the inferred specialization with the expected type.
    // This is done to cast to/from `Any` and `_` types.
    let mut merge_s = Subst(NameMap::new());
    match merge_specialization(&t, ann, &mut merge_s) {
        Ok(_) => {
            // Inferred variables that remain must not be taken for those of the annotation.
            let taken = ann.free_type_vars();
            let mut names = scheme::fresh_subst_apart(&taken.to_vec(), &taken, &mut var_gen);
            replace_more(&mut names, &merge_s);
            Ok(fill_holes(&t, ann, &names))
        },
        Err(cause) => Err(SpecializeError::Subtype { ann: ann.clone(), inf: inf2, cause }),
    }
}

/* Laws */

/// An annotation that is a hole is filled with the inferred type, whose
/// variables are renamed in their order.
pub proof fn law_specialize_hole(inf: Ty)
    ensures
        specialized(inf, ty::leaf(Head::Hole)) == Ok::<Ty, Unfit>(renamed(inf)),
{
    let e = Map::<Str, Ty>::empty();
    lemma_no_names(ty::leaf(Head::Hole), inf);
    assert(e.union_prefer_right(e) =~= e);
    ty::lemma_apply_disjoint(renamed(inf), e);
}

/// An annotation without variables takes no names.
proof fn lemma_no_names(ann: Ty, inf: Ty)
    requires
        ann.kids.len() == 0,
        !(ann.head is Var),
    ensures
        new_names(ann, inf) == Map::<Str, Ty>::empty(),
{
    assert(ty::fv(ann) =~= Set::empty());
    assert(Seq::<Str>::empty().to_set() =~= Set::empty());
    name::lemma_in_order(Seq::empty());
}

proof fn lemma_fresh_formed(vars: Seq<Str>, next: nat)
    ensures
        ty::is_formed_map(scheme::fresh_map(vars, next)),
    decreases vars.len(),
{
    if vars.len() > 0 {
        lemma_fresh_formed(vars.drop_last(), next);
    }
}

/// The annotation `Any` fits every inferred type and is what comes out.
pub proof fn law_specialize_any(inf: Ty)
    requires
        ty::is_formed(inf),
    ensures
        specialized(inf, ty::leaf(Head::Any)) == Ok::<Ty, Unfit>(ty::leaf(Head::Any)),
{
    let any = ty::leaf(Head::Any);
    let e = Map::<Str, Ty>::empty();
    assert(unify::idempotent(e));
    let n = name::in_order(ty::fv(inf)).len();
    let sch = scheme::closed_scheme(any);
    ty::lemma_apply_disjoint(any, scheme::fresh_map(sch.vars, n));
    lemma_fresh_formed(scheme::closed_scheme(inf).vars, 0);
    ty::lemma_formed_apply(inf, scheme::fresh_map(scheme::closed_scheme(inf).vars, 0));
    unify_laws::law_unify_any(e, renamed(inf));
    lemma_ready_to_merge(inf, any);
    if let Ok((t, s)) = unify::unify(e, renamed(inf), renamed_apart(any, inf)) {
        assert(filled(t, any, new_names(any, inf).union_prefer_right(e)).kids =~= any.kids);
    }
}

} // verus!
