//! What unification does with each kind of type: when it succeeds, what it finds
//! out and what it gives, in terms of the types below.

use crate::fun::check::unify;
use crate::fun::check::unify::Clash;
use crate::fun::check::unify_laws;
use crate::fun::ty;
use crate::fun::ty::{Head, Ty};
use crate::name::Str;
use vstd::prelude::*;

verus! {

/// A machine number type.
pub open spec fn is_machine_type(m: Ty) -> bool {
    m == ty::leaf(Head::U24) || m == ty::leaf(Head::I24) || m == ty::leaf(Head::F24)
}

pub open spec fn number_of(t: Ty) -> Ty {
    Ty { head: Head::Number, kids: seq![t] }
}

pub open spec fn integer_of(t: Ty) -> Ty {
    Ty { head: Head::Integer, kids: seq![t] }
}

proof fn lemma_wrapped(h: Head, t: Ty, s: Map<Str, Ty>)
    requires
        !(h is Var),
    ensures
        ty::apply(Ty { head: h, kids: seq![t] }, s) == (Ty { head: h, kids: seq![ty::apply(t, s)] }),
{
    let n = Ty { head: h, kids: seq![t] };
    assert(ty::apply(n, s).kids =~= seq![ty::apply(t, s)]);
}

proof fn lemma_machine(m: Ty, s: Map<Str, Ty>)
    requires
        is_machine_type(m),
    ensures
        ty::apply(m, s) == m,
{
    assert(ty::apply(m, s).kids =~= m.kids);
}

/* Pruned types */

/// Only what the types are under the substitution counts.
pub proof fn law_unify_pruned(s: Map<Str, Ty>, t1: Ty, t2: Ty)
    requires
        unify::idempotent(s),
    ensures
        unify::unify(s, t1, t2) == unify::unify(s, ty::apply(t1, s), ty::apply(t2, s)),
{
    unify::lemma_idempotent_apply(s, t1);
    unify::lemma_idempotent_apply(s, t2);
}

/* Holes and variables */

/// A hole unifies with every type, gives that type and finds out nothing.
pub proof fn law_unify_hole(s: Map<Str, Ty>, t: Ty)
    requires
        unify::idempotent(s),
        ty::is_formed(t),
        ty::is_formed_map(s),
    ensures
        unify::unify(s, t, ty::leaf(Head::Hole)) == Ok::<_, Clash>((ty::apply(t, s), s)),
        unify::unify(s, ty::leaf(Head::Hole), t) == Ok::<_, Clash>((ty::apply(t, s), s)),
{
    let hole = ty::leaf(Head::Hole);
    ty::lemma_apply_disjoint(hole, s);
    ty::lemma_formed_apply(t, s);
    if ty::apply(t, s).head is Hole {
        assert(ty::apply(t, s).kids =~= hole.kids);
    }
}

/// A variable that is not replaced, on the right, becomes the type on the left,
/// unless that type holds the variable. On the left it becomes the type on the
/// right, unless that is a variable too.
pub proof fn law_unify_variable(s: Map<Str, Ty>, t: Ty, x: Str)
    requires
        unify::idempotent(s),
        !s.contains_key(x),
        !(ty::apply(t, s).head is Hole),
    ensures
        ({
            let u = ty::apply(t, s);
            let r = if u.head == Head::Var(x) {
                Ok::<(Ty, Map<Str, Ty>), Clash>((u, s))
            } else if ty::fv(u).contains(x) {
                Err(Clash::Occurs(x, u))
            } else {
                Ok((u, ty::compose(s, map![x => u])))
            };
            &&& unify::unify(s, t, ty::ty_var(x)) == r
            &&& !(u.head is Var) ==> unify::unify(s, ty::ty_var(x), t) == r
        }),
{
    unify::lemma_idempotent_apply(s, t);
    assert(ty::apply(ty::ty_var(x), s) == ty::ty_var(x));
}

/* Numbers */

/// A number or integer type unifies with a machine number type if and only if its
/// argument does, with the same result, in either order. The result is the machine
/// number type if the argument is a variable or that type.
pub proof fn law_unify_with_machine(s: Map<Str, Ty>, t: Ty, m: Ty)
    requires
        unify::idempotent(s),
        is_machine_type(m),
    ensures
        unify::unify(s, number_of(t), m) == unify::unify(s, t, m),
        unify::unify(s, m, number_of(t)) == unify::unify(s, t, m),
        unify::unify(s, integer_of(t), m) == unify::unify(s, t, m),
        unify::unify(s, m, integer_of(t)) == unify::unify(s, t, m),
        ty::apply(t, s) == m ==> unify::unify(s, t, m) == Ok::<_, Clash>((m, s)),
        ty::apply(t, s).head matches Head::Var(x) ==> unify::unify(s, t, m) == Ok::<_, Clash>(
            (m, ty::compose(s, map![x => m])),
        ),
{
    let (n, i) = (number_of(t), integer_of(t));
    lemma_wrapped(Head::Number, t, s);
    lemma_wrapped(Head::Integer, t, s);
    lemma_machine(m, s);
    unify::lemma_less_number(s, n, m);
    unify::lemma_less_number(s, m, n);
    unify::lemma_less_number(s, i, m);
    unify::lemma_less_number(s, m, i);
    law_unify_pruned(s, t, m);
    if ty::apply(t, s) == m {
        law_unify_machines(s, m, m);
    }
    if let Head::Var(x) = ty::apply(t, s).head {
        unify::lemma_idempotent_apply(s, t);
        assert(!ty::fv(m).contains(x));
    }
}

/// Two machine number types unify if and only if they are the same.
pub proof fn law_unify_machines(s: Map<Str, Ty>, m: Ty, n: Ty)
    requires
        unify::idempotent(s),
        is_machine_type(m),
        is_machine_type(n),
    ensures
        unify::unify(s, m, n) == if m == n {
            Ok::<(Ty, Map<Str, Ty>), Clash>((m, s))
        } else {
            Err(Clash::Mismatch)
        },
{
    lemma_machine(m, s);
    lemma_machine(n, s);
    unify::lemma_less_same(s, m, n);
    if m == n {
        let none = Seq::<Ty>::empty();
        assert(unify::unify_all(s, none, none, none) == Ok::<_, Clash>((none, s)));
        assert(ty::apply(Ty { head: m.head, kids: none }, s) == m);
    }
}

/// A number type and an integer type unify if and only if their arguments do, and
/// give an integer type, in either order. Two number types, and two integer types,
/// unify if and only if their arguments do, and give such a type.
pub proof fn law_unify_number_kinds(s: Map<Str, Ty>, a: Ty, b: Ty)
    requires
        unify::idempotent(s),
    ensures
        match unify::unify(s, b, a) {
            Ok((t, s1)) => {
                &&& unify::unify(s, number_of(a), integer_of(b)) == Ok::<_, Clash>(
                    (integer_of(t), s1),
                )
                &&& unify::unify(s, integer_of(b), number_of(a)) == Ok::<_, Clash>(
                    (integer_of(t), s1),
                )
            },
            Err(e) => {
                &&& unify::unify(s, number_of(a), integer_of(b)) == Err::<(Ty, Map<Str, Ty>), _>(e)
                &&& unify::unify(s, integer_of(b), number_of(a)) == Err::<(Ty, Map<Str, Ty>), _>(e)
            },
        },
        match unify::unify(s, a, b) {
            Ok((t, s1)) => {
                &&& unify::unify(s, number_of(a), number_of(b)) == Ok::<_, Clash>(
                    (number_of(t), s1),
                )
                &&& unify::unify(s, integer_of(a), integer_of(b)) == Ok::<_, Clash>(
                    (integer_of(t), s1),
                )
            },
            Err(e) => {
                &&& unify::unify(s, number_of(a), number_of(b)) == Err::<(Ty, Map<Str, Ty>), _>(e)
                &&& unify::unify(s, integer_of(a), integer_of(b)) == Err::<(Ty, Map<Str, Ty>), _>(e)
            },
        },
{
    lemma_wrapped(Head::Number, a, s);
    lemma_wrapped(Head::Integer, a, s);
    lemma_wrapped(Head::Number, b, s);
    lemma_wrapped(Head::Integer, b, s);
    unify::lemma_less_number(s, number_of(a), integer_of(b));
    unify::lemma_less_number(s, integer_of(b), number_of(a));
    law_unify_pruned(s, b, a);
    lemma_wrapped_same(s, Head::Number, a, b);
    lemma_wrapped_same(s, Head::Integer, a, b);
}

proof fn lemma_wrapped_same(s: Map<Str, Ty>, h: Head, a: Ty, b: Ty)
    requires
        unify::idempotent(s),
        h is Number || h is Integer,
    ensures
        unify::unify(s, Ty { head: h, kids: seq![a] }, Ty { head: h, kids: seq![b] })
            == match unify::unify(s, a, b) {
            Ok((t, s1)) => Ok::<(Ty, Map<Str, Ty>), Clash>((Ty { head: h, kids: seq![t] }, s1)),
            Err(e) => Err(e),
        },
{
    let (x, y) = (Ty { head: h, kids: seq![a] }, Ty { head: h, kids: seq![b] });
    let (p, q) = (ty::apply(a, s), ty::apply(b, s));
    lemma_wrapped(h, a, s);
    lemma_wrapped(h, b, s);
    unify::lemma_less_same(s, x, y);
    law_unify_pruned(s, a, b);
    lemma_unify_one(s, p, q);
    if let Ok((t, s1)) = unify::unify(s, p, q) {
        unify::lemma_unify(s, p, q);
        lemma_wrapped(h, t, s1);
    }
}

proof fn lemma_unify_one(s: Map<Str, Ty>, a: Ty, b: Ty)
    requires
        unify::idempotent(s),
    ensures
        unify::unify_all(s, seq![a], seq![b], Seq::empty()) == match unify::unify(s, a, b) {
            Ok((t, s1)) => Ok::<(Seq<Ty>, Map<Str, Ty>), Clash>((seq![t], s1)),
            Err(e) => Err(e),
        },
{
    let (xs, ys) = (seq![a], seq![b]);
    let none = Seq::<Ty>::empty();
    unify::lemma_less_first(s, xs, ys);
    unify::lemma_unify(s, a, b);
    assert(xs.drop_first() =~= none);
    assert(ys.drop_first() =~= none);
    if let Ok((t, s1)) = unify::unify(s, a, b) {
        unify::lemma_grows_more(s1, s, unify::vars(s, a, b), unify::list_vars(s, xs, ys));
        unify::lemma_less_rest(s, s1, xs, ys);
        assert(none.push(t) =~= seq![t]);
        assert(unify::unify_all(s1, none, none, seq![t]) == Ok::<_, Clash>((seq![t], s1)));
    }
}

/* Other types */

/// Two lists of types unify pair by pair: these are the substitutions before and
/// after each pair, and what each pair gives.
pub open spec fn is_run(
    xs: Seq<Ty>,
    ys: Seq<Ty>,
    n: int,
    ss: Seq<Map<Str, Ty>>,
    ts: Seq<Ty>,
) -> bool {
    &&& 0 <= n <= xs.len()
    &&& n <= ys.len()
    &&& ss.len() == n + 1
    &&& ts.len() == n
    &&& forall|i: int|
        #![trigger ts[i]]
        0 <= i < n ==> unify::unify(ss[i], xs[i], ys[i]) == Ok::<_, Clash>((ts[i], ss[i + 1]))
}

/// The pairs before one unify, and this one fails.
pub open spec fn is_failed_run(
    xs: Seq<Ty>,
    ys: Seq<Ty>,
    n: int,
    ss: Seq<Map<Str, Ty>>,
    ts: Seq<Ty>,
    e: Clash,
) -> bool {
    &&& is_run(xs, ys, n, ss, ts)
    &&& n < xs.len()
    &&& n < ys.len()
    &&& unify::unify(ss[n], xs[n], ys[n]) == Err::<(Ty, Map<Str, Ty>), _>(e)
}

proof fn lemma_run(s: Map<Str, Ty>, xs: Seq<Ty>, ys: Seq<Ty>, done: Seq<Ty>)
    requires
        unify::idempotent(s),
        xs.len() == ys.len(),
    ensures
        match unify::unify_all(s, xs, ys, done) {
            Ok((us, s1)) => exists|ss: Seq<Map<Str, Ty>>, ts: Seq<Ty>|
                #![trigger is_run(xs, ys, xs.len() as int, ss, ts)]
                is_run(xs, ys, xs.len() as int, ss, ts) && ss[0] == s && ss.last() == s1 && us
                    == done + ts,
            Err(e) => exists|n: int, ss: Seq<Map<Str, Ty>>, ts: Seq<Ty>|
                #![trigger is_failed_run(xs, ys, n, ss, ts, e)]
                is_failed_run(xs, ys, n, ss, ts, e) && ss[0] == s,
        },
    decreases unify::list_work(s, xs, ys).vars, unify::list_work(s, xs, ys).symbols, 1nat,
{
    if xs.len() == 0 {
        let (ss, ts) = (seq![s], Seq::<Ty>::empty());
        assert(done + ts =~= done);
        assert(is_run(xs, ys, xs.len() as int, ss, ts) && ss[0] == s && ss.last() == s);
    } else {
        let vs = unify::list_vars(s, xs, ys);
        let (xr, yr) = (xs.drop_first(), ys.drop_first());
        unify::lemma_less_first(s, xs, ys);
        unify::lemma_unify(s, xs[0], ys[0]);
        match unify::unify(s, xs[0], ys[0]) {
            Ok((t, s1)) => {
                unify::lemma_grows_more(s1, s, unify::vars(s, xs[0], ys[0]), vs);
                unify::lemma_less_rest(s, s1, xs, ys);
                lemma_run(s1, xr, yr, done.push(t));
                match unify::unify_all(s1, xr, yr, done.push(t)) {
                    Ok((us, s2)) => {
                        let (ss, ts) = choose|ss: Seq<Map<Str, Ty>>, ts: Seq<Ty>|
                            #![trigger is_run(xr, yr, xr.len() as int, ss, ts)]
                            is_run(xr, yr, xr.len() as int, ss, ts) && ss[0] == s1 && ss.last() == s2
                                && us == done.push(t) + ts;
                        let (ss2, ts2) = (seq![s] + ss, seq![t] + ts);
                        lemma_run_more(xs, ys, xr.len() as int, s, t, ss, ts);
                        assert(done + ts2 =~= done.push(t) + ts);
                        assert(is_run(xs, ys, xs.len() as int, ss2, ts2) && ss2[0] == s
                            && ss2.last() == s2);
                    },
                    Err(e) => {
                        let (n, ss, ts) = choose|n: int, ss: Seq<Map<Str, Ty>>, ts: Seq<Ty>|
                            #![trigger is_failed_run(xr, yr, n, ss, ts, e)]
                            is_failed_run(xr, yr, n, ss, ts, e) && ss[0] == s1;
                        let (ss2, ts2) = (seq![s] + ss, seq![t] + ts);
                        lemma_run_more(xs, ys, n, s, t, ss, ts);
                        assert(is_failed_run(xs, ys, n + 1, ss2, ts2, e) && ss2[0] == s);
                    },
                }
            },
            Err(e) => {
                let (ss, ts) = (seq![s], Seq::<Ty>::empty());
                assert(is_failed_run(xs, ys, 0, ss, ts, e) && ss[0] == s);
            },
        }
    }
}

proof fn lemma_run_more(
    xs: Seq<Ty>,
    ys: Seq<Ty>,
    n: int,
    s: Map<Str, Ty>,
    t: Ty,
    ss: Seq<Map<Str, Ty>>,
    ts: Seq<Ty>,
)
    requires
        xs.len() > 0,
        ys.len() > 0,
        is_run(xs.drop_first(), ys.drop_first(), n, ss, ts),
        unify::unify(s, xs[0], ys[0]) == Ok::<_, Clash>((t, ss[0])),
    ensures
        is_run(xs, ys, n + 1, seq![s] + ss, seq![t] + ts),
{
    let (ss2, ts2) = (seq![s] + ss, seq![t] + ts);
    assert forall|i: int| #![trigger ts2[i]] 0 <= i < n + 1 implies unify::unify(
        ss2[i],
        xs[i],
        ys[i],
    ) == Ok::<_, Clash>((ts2[i], ss2[i + 1])) by {
        if i > 0 {
            assert(ts2[i] == ts[i - 1]);
            assert(xs.drop_first()[i - 1] == xs[i]);
            assert(ys.drop_first()[i - 1] == ys[i]);
        }
    }
}

/// Types with the same top and as many types below unify if and only if these
/// unify pair by pair, from left to right, each with what was found out by then.
pub proof fn law_unify_same_top(s: Map<Str, Ty>, t1: Ty, t2: Ty)
    requires
        unify::idempotent(s),
        ty::apply(t1, s).head == ty::apply(t2, s).head,
        !(ty::apply(t1, s).head is Hole),
        !(ty::apply(t1, s).head is Var),
        ty::apply(t1, s).kids.len() == ty::apply(t2, s).kids.len(),
    ensures
        ({
            let (a, b) = (ty::apply(t1, s), ty::apply(t2, s));
            match unify::unify(s, t1, t2) {
                Ok((t, s1)) => exists|ss: Seq<Map<Str, Ty>>, ts: Seq<Ty>|
                    #![trigger is_run(a.kids, b.kids, a.kids.len() as int, ss, ts)]
                    is_run(a.kids, b.kids, a.kids.len() as int, ss, ts) && ss[0] == s && ss.last()
                        == s1 && t == ty::apply(Ty { head: a.head, kids: ts }, s1),
                Err(e) => exists|n: int, ss: Seq<Map<Str, Ty>>, ts: Seq<Ty>|
                    #![trigger is_failed_run(a.kids, b.kids, n, ss, ts, e)]
                    is_failed_run(a.kids, b.kids, n, ss, ts, e) && ss[0] == s,
            }
        }),
{
    let (a, b) = (ty::apply(t1, s), ty::apply(t2, s));
    let none = Seq::<Ty>::empty();
    unify::lemma_less_same(s, t1, t2);
    lemma_run(s, a.kids, b.kids, none);
    if let Ok((us, s1)) = unify::unify_all(s, a.kids, b.kids, none) {
        let (ss, ts) = choose|ss: Seq<Map<Str, Ty>>, ts: Seq<Ty>|
            #![trigger is_run(a.kids, b.kids, a.kids.len() as int, ss, ts)]
            is_run(a.kids, b.kids, a.kids.len() as int, ss, ts) && ss[0] == s && ss.last() == s1
                && us == none + ts;
        assert(none + ts =~= ts);
        assert(is_run(a.kids, b.kids, a.kids.len() as int, ss, ts));
    }
}

/// A type of numbers.
pub open spec fn is_number_type(t: Ty) -> bool {
    t.head is U24 || t.head is I24 || t.head is F24 || t.head is Number || t.head is Integer
}

/// Types with different tops, or with a different number of types below, do not
/// unify, unless one is a hole, a variable or `Any`, or both are types of numbers.
pub proof fn law_unify_different(s: Map<Str, Ty>, t1: Ty, t2: Ty)
    requires
        unify::idempotent(s),
        ({
            let (a, b) = (ty::apply(t1, s), ty::apply(t2, s));
            &&& a.head != b.head || a.kids.len() != b.kids.len()
            &&& !(a.head is Hole || a.head is Var || a.head is Any)
            &&& !(b.head is Hole || b.head is Var || b.head is Any)
            &&& !(is_number_type(a) && is_number_type(b))
        }),
    ensures
        unify::unify(s, t1, t2) == Err::<(Ty, Map<Str, Ty>), _>(Clash::Mismatch),
{
}

/* Types without variables */

proof fn lemma_ground_kid(t: Ty, i: int)
    requires
        ty::fv(t) == Set::<Str>::empty(),
        !(t.head is Var),
        0 <= i < t.kids.len(),
    ensures
        ty::fv(t.kids[i]) == Set::<Str>::empty(),
        unify::weight(t.kids[i]) < unify::weight(t),
{
    assert forall|v: Str| !ty::fv(t.kids[i]).contains(v) by {
        if ty::fv(t.kids[i]).contains(v) {
            assert(ty::fv(t).contains(v));
        }
    }
    assert(ty::fv(t.kids[i]) =~= Set::empty());
    unify_laws::lemma_weights_kid(t.kids, i);
}

/// Types without variables unify if and only if they agree, and nothing is found
/// out.
pub proof fn law_unify_ground(s: Map<Str, Ty>, t1: Ty, t2: Ty)
    requires
        unify::idempotent(s),
        ty::is_formed_map(s),
        ty::is_formed(t1),
        ty::is_formed(t2),
        ty::fv(t1) == Set::<Str>::empty(),
        ty::fv(t2) == Set::<Str>::empty(),
    ensures
        match unify::unify(s, t1, t2) {
            Ok((t, s1)) => s1 == s && unify_laws::agree(t1, t2),
            Err(_) => !unify_laws::agree(t1, t2),
        },
    decreases unify::weight(t1) + unify::weight(t2), 1nat, 0nat,
{
    ty::lemma_apply_disjoint(t1, s);
    ty::lemma_apply_disjoint(t2, s);
    if let Head::Var(x) = t1.head {
        assert(ty::fv(t1).contains(x));
    }
    if let Head::Var(x) = t2.head {
        assert(ty::fv(t2).contains(x));
    }
    if t1.head is Hole || t2.head is Hole {
    } else if t1.head == t2.head && t1.kids.len() == t2.kids.len() {
        law_unify_same_top(s, t1, t2);
        match unify::unify(s, t1, t2) {
            Ok((t, s1)) => {
                let n = t1.kids.len() as int;
                let (ss, ts) = choose|ss: Seq<Map<Str, Ty>>, ts: Seq<Ty>|
                    #![trigger is_run(t1.kids, t2.kids, n, ss, ts)]
                    is_run(t1.kids, t2.kids, n, ss, ts) && ss[0] == s && ss.last() == s1;
                lemma_ground_run(s, t1, t2, n, n, ss, ts);
                assert(unify_laws::agree(t1, t2));
            },
            Err(e) => {
                let (n, ss, ts) = choose|n: int, ss: Seq<Map<Str, Ty>>, ts: Seq<Ty>|
                    #![trigger is_failed_run(t1.kids, t2.kids, n, ss, ts, e)]
                    is_failed_run(t1.kids, t2.kids, n, ss, ts, e) && ss[0] == s;
                lemma_ground_run(s, t1, t2, n, n, ss, ts);
                lemma_ground_kid(t1, n);
                lemma_ground_kid(t2, n);
                law_unify_ground(s, t1.kids[n], t2.kids[n]);
                assert(!unify_laws::agree(t1.kids[n], t2.kids[n]));
                assert(!(t1.head is Any));
            },
        }
    } else if t1.head is Any {
        unify_laws::law_unify_any(s, t2);
        unify_laws::lemma_no_anys(s);
        assert(t1.kids =~= Seq::empty());
    } else if t2.head is Any {
        unify_laws::law_unify_any(s, t1);
        unify_laws::lemma_no_anys(s);
        assert(t2.kids =~= Seq::empty());
    } else if unify::is_numeric(t1) && unify::is_numeric(t2) {
        unify::lemma_less_number(s, t1, t2);
        lemma_ground_kid(t1, 0);
        lemma_ground_kid(t2, 0);
        let (a, b) = (t1.kids[0], t2.kids[0]);
        law_unify_ground(s, a, b);
        law_unify_ground(s, b, a);
        lemma_agree_both(a, b);
    } else if unify::is_numeric(t1) && unify::is_machine(t2.head) {
        unify::lemma_less_number(s, t1, t2);
        lemma_ground_kid(t1, 0);
        law_unify_ground(s, t1.kids[0], t2);
    } else if unify::is_machine(t1.head) && unify::is_numeric(t2) {
        unify::lemma_less_number(s, t1, t2);
        lemma_ground_kid(t2, 0);
        law_unify_ground(s, t2.kids[0], t1);
        lemma_agree_both(t1, t2.kids[0]);
    }
}

proof fn lemma_agree_both(a: Ty, b: Ty)
    ensures
        unify_laws::agree(a, b) <==> unify_laws::agree(b, a),
{
    if unify_laws::agree(a, b) {
        unify_laws::lemma_agree_sym(a, b);
    }
    if unify_laws::agree(b, a) {
        unify_laws::lemma_agree_sym(b, a);
    }
}

proof fn lemma_ground_run(
    s: Map<Str, Ty>,
    t1: Ty,
    t2: Ty,
    n: int,
    k: int,
    ss: Seq<Map<Str, Ty>>,
    ts: Seq<Ty>,
)
    requires
        unify::idempotent(s),
        ty::is_formed_map(s),
        ty::is_formed(t1),
        ty::is_formed(t2),
        !(t1.head is Var),
        !(t2.head is Var),
        ty::fv(t1) == Set::<Str>::empty(),
        ty::fv(t2) == Set::<Str>::empty(),
        is_run(t1.kids, t2.kids, n, ss, ts),
        ss[0] == s,
        0 <= k <= n,
    ensures
        ss[k] == s,
        forall|i: int| 0 <= i < k ==> unify_laws::agree(#[trigger] t1.kids[i], t2.kids[i]),
    decreases unify::weight(t1) + unify::weight(t2), 0nat, k,
{
    if k > 0 {
        lemma_ground_run(s, t1, t2, n, k - 1, ss, ts);
        lemma_ground_kid(t1, k - 1);
        lemma_ground_kid(t2, k - 1);
        law_unify_ground(s, t1.kids[k - 1], t2.kids[k - 1]);
        assert(unify::unify(ss[k - 1], t1.kids[k - 1], t2.kids[k - 1]) == Ok::<_, Clash>(
            (ts[k - 1], ss[k - 1 + 1]),
        ));
    }
}

} // verus!
