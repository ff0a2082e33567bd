//! What the safety of definitions means.

use crate::fun::book::Bk;
use crate::fun::term;
use crate::fun::term::{Dm, Th, Tm};
use crate::fun::transform::float_combinators;
use crate::fun::transform::safety;
use crate::fun::transform::safety::{Memo, SafetyState};
use crate::name;
use crate::name::Str;
use vstd::prelude::*;

verus! {

/// The definitions that are safe when references are expanded to this depth: they
/// are not recursive, and their bodies are safe.
pub open spec fn safe_within(bk: Bk, depth: nat) -> Set<Str>
    decreases depth,
{
    if depth == 0 {
        Set::empty()
    } else {
        Set::new(
            |n: Str|
                bk.defs.contains_key(n) && !safety::is_recursive(bk, n) && safety::is_safe(
                    term::body_of(bk.defs[n]),
                    bk.ctrs.dom().union(safe_within(bk, (depth - 1) as nat)),
                ),
        )
    }
}

/// The names that can be referred to when references are expanded to this
/// depth.
pub open spec fn known_within(bk: Bk, depth: nat) -> Set<Str> {
    bk.ctrs.dom().union(safe_within(bk, depth))
}

/// The definition is safe: it is not recursive, and the expansion of its
/// references ends.
pub open spec fn def_is_safe(bk: Bk, n: Str) -> bool {
    exists|depth: nat| #[trigger] safe_within(bk, depth).contains(n)
}

proof fn lemma_is_safe_more(t: Tm, a: Set<Str>, b: Set<Str>)
    requires
        a.subset_of(b),
        safety::is_safe(t, a),
    ensures
        safety::is_safe(t, b),
    decreases t, 0nat,
{
    match t.head {
        Th::Lam(_, p) => {
            lemma_is_safe_body_more(t.kids[0], term::pat_binds(p), a, b);
        },
        Th::Ref(n) => {},
        _ => {
            assert forall|i: int| 0 <= i < t.kids.len() implies safety::is_safe(
                #[trigger] t.kids[i],
                b,
            ) by {
                lemma_is_safe_more(t.kids[i], a, b);
            }
        },
    }
}

proof fn lemma_is_safe_body_more(t: Tm, scope: Seq<Option<Str>>, a: Set<Str>, b: Set<Str>)
    requires
        a.subset_of(b),
        safety::is_safe_body(t, scope, a),
    ensures
        safety::is_safe_body(t, scope, b),
    decreases t, 1nat,
{
    match t.head {
        Th::Lam(_, p) => {
            lemma_is_safe_body_more(t.kids[0], scope + term::pat_binds(p), a, b);
        },
        Th::Var(_) => {},
        Th::Ref(_) => {},
        _ => {
            lemma_is_safe_more(t, a, b);
        },
    }
}

/// More definitions are safe when references are expanded further.
proof fn lemma_safe_within_more(bk: Bk, i: nat, j: nat)
    requires
        i <= j,
    ensures
        safe_within(bk, i).subset_of(safe_within(bk, j)),
        known_within(bk, i).subset_of(known_within(bk, j)),
    decreases i,
{
    if i > 0 {
        lemma_safe_within_more(bk, (i - 1) as nat, (j - 1) as nat);
        assert forall|n: Str| safe_within(bk, i).contains(n) implies safe_within(bk, j).contains(n) by {
            lemma_is_safe_more(
                term::body_of(bk.defs[n]),
                known_within(bk, (i - 1) as nat),
                known_within(bk, (j - 1) as nat),
            );
        }
    }
}

/// The memo is right about the definitions whose visit has ended, and holds the
/// recursive ones.
spec fn is_right(bk: Bk, memo: Memo) -> bool {
    &&& safety::first_memo(bk).dom().subset_of(memo.dom())
    &&& forall|n: Str| #[trigger]
        memo.contains_key(n) ==> match memo[n] {
            SafetyState::Safe => def_is_safe(bk, n),
            SafetyState::Unsafe => !def_is_safe(bk, n),
            SafetyState::Visiting => true,
        }
}

spec fn is_visiting(memo: Memo, v: Str) -> bool {
    memo.contains_key(v) && memo[v] == SafetyState::Visiting
}

/// The safety of all that is being visited rests on the safety of the term.
spec fn is_under(bk: Bk, memo: Memo, t: Tm) -> bool {
    forall|v: Str, depth: nat|
        #![trigger safe_within(bk, depth).contains(v)]
        is_visiting(memo, v) && safe_within(bk, depth).contains(v) ==> depth > 0 && safety::is_safe(
            t,
            known_within(bk, (depth - 1) as nat),
        )
}

spec fn is_def_under(bk: Bk, memo: Memo, n: Str) -> bool {
    forall|v: Str, depth: nat|
        #![trigger safe_within(bk, depth).contains(v)]
        is_visiting(memo, v) && safe_within(bk, depth).contains(v) ==> depth > 0 && safe_within(
            bk,
            (depth - 1) as nat,
        ).contains(n)
}

spec fn is_body_under(bk: Bk, memo: Memo, t: Tm, scope: Seq<Option<Str>>) -> bool {
    forall|v: Str, depth: nat|
        #![trigger safe_within(bk, depth).contains(v)]
        is_visiting(memo, v) && safe_within(bk, depth).contains(v) ==> depth > 0
            && safety::is_safe_body(t, scope, known_within(bk, (depth - 1) as nat))
}

spec fn are_under(bk: Bk, memo: Memo, ts: Seq<Tm>) -> bool {
    forall|i: int| 0 <= i < ts.len() ==> is_under(bk, memo, #[trigger] ts[i])
}

/// The term is safe when references are expanded far enough.
spec fn is_safe_at(bk: Bk, t: Tm, depth: nat) -> bool {
    safety::is_safe(t, known_within(bk, depth))
}

spec fn is_body_safe_at(bk: Bk, t: Tm, scope: Seq<Option<Str>>, depth: nat) -> bool {
    safety::is_safe_body(t, scope, known_within(bk, depth))
}

spec fn are_safe_at(bk: Bk, ts: Seq<Tm>, depth: nat) -> bool {
    forall|i: int| 0 <= i < ts.len() ==> safety::is_safe(#[trigger] ts[i], known_within(bk, depth))
}

/// What a visit does to a memo: it stays right, and what is being visited
/// stays the same.
spec fn is_kept(bk: Bk, a: Memo, b: Memo) -> bool {
    &&& is_right(bk, b)
    &&& a.dom().subset_of(b.dom())
    &&& forall|v: Str| #[trigger] is_visiting(a, v) <==> is_visiting(b, v)
}

/// A definition whose safety rests on its own safety is not safe.
proof fn lemma_descent(bk: Bk, n: Str, depth: nat)
    requires
        forall|d: nat| #[trigger]
            safe_within(bk, d).contains(n) ==> d > 0 && safe_within(bk, (d - 1) as nat).contains(n),
    ensures
        !safe_within(bk, depth).contains(n),
    decreases depth,
{
    if depth > 0 {
        lemma_descent(bk, n, (depth - 1) as nat);
    }
}

proof fn lemma_visit_def(bk: Bk, fuel: nat, memo: Memo, n: Str)
    requires
        bk.defs.dom().finite(),
        safety::unvisited(bk, memo) <= fuel,
        is_right(bk, memo),
        is_def_under(bk, memo, n),
    ensures
        is_kept(bk, memo, safety::visit_def(bk, fuel, memo, n).0),
        safety::visit_def(bk, fuel, memo, n).1 <==> def_is_safe(bk, n),
        safety::visit_def(bk, fuel, memo, n).0.contains_key(n),
    decreases fuel, 0nat, n, 0nat,
{
    if memo.contains_key(n) {
        if memo[n] == SafetyState::Visiting && def_is_safe(bk, n) {
            let depth = choose|depth: nat| #[trigger] safe_within(bk, depth).contains(n);
            assert(is_visiting(memo, n));
            lemma_descent(bk, n, depth);
        }
    } else {
        let m = memo.insert(n, SafetyState::Visiting);
        let (m2, safe) = safety::visit_def(bk, fuel, memo, n);
        assert(!safety::is_recursive(bk, n)) by {
            assert(!safety::first_memo(bk).dom().contains(n));
        }
        if bk.defs.contains_key(n) {
            let body = term::body_of(bk.defs[n]);
            safety::lemma_unvisited_insert(bk, memo, n, SafetyState::Visiting);
            assert(is_under(bk, m, body)) by {
                assert forall|v: Str, depth: nat|
                    #![trigger safe_within(bk, depth).contains(v)]
                    is_visiting(m, v) && safe_within(bk, depth).contains(v) implies depth > 0
                    && safety::is_safe(body, known_within(bk, (depth - 1) as nat)) by {
                    if v != n {
                        assert(is_visiting(memo, v));
                        assert(safe_within(bk, (depth - 1) as nat).contains(n));
                        lemma_safe_within_more(bk, (depth - 2) as nat, (depth - 1) as nat);
                        lemma_is_safe_more(
                            body,
                            known_within(bk, (depth - 2) as nat),
                            known_within(bk, (depth - 1) as nat),
                        );
                    }
                }
            }
            let m1 = safety::visit_term(bk, (fuel - 1) as nat, m, body).0;
            lemma_visit_term(bk, (fuel - 1) as nat, m, body);
            if safe {
                let depth = choose|depth: nat| #[trigger] is_safe_at(bk, body, depth);
                assert(safe_within(bk, depth + 1).contains(n));
            }
            if def_is_safe(bk, n) {
                let depth = choose|depth: nat| #[trigger] safe_within(bk, depth).contains(n);
                assert(is_safe_at(bk, body, (depth - 1) as nat));
            }
            assert forall|v: Str| #[trigger] is_visiting(memo, v) <==> is_visiting(m2, v) by {
                assert(is_visiting(m, v) <==> is_visiting(m1, v));
            }
        } else {
            assert(!def_is_safe(bk, n));
            assert forall|v: Str| #[trigger] is_visiting(memo, v) <==> is_visiting(m2, v) by {}
        }
    }
}

proof fn lemma_visit_term(bk: Bk, fuel: nat, memo: Memo, t: Tm)
    requires
        bk.defs.dom().finite(),
        safety::unvisited(bk, memo) <= fuel,
        is_right(bk, memo),
        is_under(bk, memo, t),
    ensures
        is_kept(bk, memo, safety::visit_term(bk, fuel, memo, t).0),
        safety::visit_term(bk, fuel, memo, t).1 <==> exists|depth: nat| #[trigger]
            is_safe_at(bk, t, depth),
    decreases fuel, 1nat, t, 0nat,
{
    let safe = safety::visit_term(bk, fuel, memo, t).1;
    match t.head {
        Th::Lam(_, p) => {
            if t.kids.len() == 1 {
                let (k, s) = (t.kids[0], term::pat_binds(p));
                assert(is_body_under(bk, memo, k, s));
                lemma_visit_body(bk, fuel, memo, k, s);
                if safe {
                    let d = choose|d: nat| #[trigger] is_body_safe_at(bk, k, s, d);
                    assert(is_safe_at(bk, t, d));
                }
                if exists|d: nat| #[trigger] is_safe_at(bk, t, d) {
                    let d = choose|d: nat| #[trigger] is_safe_at(bk, t, d);
                    assert(is_body_safe_at(bk, k, s, d));
                }
            }
        },
        Th::Ref(n) => {
            if bk.ctrs.contains_key(n) {
                assert(is_safe_at(bk, t, 0));
            } else {
                assert(is_def_under(bk, memo, n));
                lemma_visit_def(bk, fuel, memo, n);
                if safe {
                    let d = choose|d: nat| #[trigger] safe_within(bk, d).contains(n);
                    assert(is_safe_at(bk, t, d));
                }
                if exists|d: nat| #[trigger] is_safe_at(bk, t, d) {
                    let d = choose|d: nat| #[trigger] is_safe_at(bk, t, d);
                    assert(safe_within(bk, d).contains(n));
                }
            }
        },
        h => {
            if safety::is_safe_former(h) {
                assert forall|i: int| 0 <= i < t.kids.len() implies is_under(
                    bk,
                    memo,
                    #[trigger] t.kids[i],
                ) by {}
                lemma_visit_terms(bk, fuel, memo, t.kids);
                if safe {
                    let d = choose|d: nat| #[trigger] are_safe_at(bk, t.kids, d);
                    assert(is_safe_at(bk, t, d));
                }
                if exists|d: nat| #[trigger] is_safe_at(bk, t, d) {
                    let d = choose|d: nat| #[trigger] is_safe_at(bk, t, d);
                    assert(are_safe_at(bk, t.kids, d));
                }
            }
        },
    }
}

proof fn lemma_visit_terms(bk: Bk, fuel: nat, memo: Memo, ts: Seq<Tm>)
    requires
        bk.defs.dom().finite(),
        safety::unvisited(bk, memo) <= fuel,
        is_right(bk, memo),
        are_under(bk, memo, ts),
    ensures
        is_kept(bk, memo, safety::visit_terms(bk, fuel, memo, ts).0),
        safety::visit_terms(bk, fuel, memo, ts).1 <==> exists|depth: nat| #[trigger]
            are_safe_at(bk, ts, depth),
    decreases fuel, 1nat, ts, ts.len(),
{
    if ts.len() == 0 {
        assert(are_safe_at(bk, ts, 0));
    } else {
        let (m, safe) = safety::visit_term(bk, fuel, memo, ts[0]);
        let rest = ts.drop_first();
        lemma_visit_term(bk, fuel, memo, ts[0]);
        if exists|d: nat| #[trigger] are_safe_at(bk, ts, d) {
            let d = choose|d: nat| #[trigger] are_safe_at(bk, ts, d);
            assert(is_safe_at(bk, ts[0], d));
            assert forall|i: int| 0 <= i < rest.len() implies safety::is_safe(
                #[trigger] rest[i],
                known_within(bk, d),
            ) by {
                assert(rest[i] == ts[i + 1]);
            }
            assert(are_safe_at(bk, rest, d));
        }
        if safe {
            safety::lemma_unvisited_less(bk, memo, m);
            assert forall|i: int| 0 <= i < rest.len() implies is_under(bk, m, #[trigger] rest[i]) by {
                assert(rest[i] == ts[i + 1]);
                assert(is_under(bk, memo, ts[i + 1]));
            }
            lemma_visit_terms(bk, fuel, m, rest);
            let m2 = safety::visit_terms(bk, fuel, m, rest).0;
            assert forall|v: Str| #[trigger] is_visiting(memo, v) <==> is_visiting(m2, v) by {
                assert(is_visiting(memo, v) <==> is_visiting(m, v));
            }
            if safety::visit_terms(bk, fuel, m, rest).1 {
                let a = choose|d: nat| #[trigger] is_safe_at(bk, ts[0], d);
                let b = choose|d: nat| #[trigger] are_safe_at(bk, rest, d);
                let d = if a <= b { b } else { a };
                lemma_safe_within_more(bk, a, d);
                lemma_safe_within_more(bk, b, d);
                assert forall|i: int| 0 <= i < ts.len() implies safety::is_safe(
                    #[trigger] ts[i],
                    known_within(bk, d),
                ) by {
                    if i == 0 {
                        lemma_is_safe_more(ts[0], known_within(bk, a), known_within(bk, d));
                    } else {
                        assert(ts[i] == rest[i - 1]);
                        lemma_is_safe_more(ts[i], known_within(bk, b), known_within(bk, d));
                    }
                }
                assert(are_safe_at(bk, ts, d));
            }
        }
    }
}

proof fn lemma_visit_body(bk: Bk, fuel: nat, memo: Memo, t: Tm, scope: Seq<Option<Str>>)
    requires
        bk.defs.dom().finite(),
        safety::unvisited(bk, memo) <= fuel,
        is_right(bk, memo),
        is_body_under(bk, memo, t, scope),
    ensures
        is_kept(bk, memo, safety::visit_body(bk, fuel, memo, t, scope).0),
        safety::visit_body(bk, fuel, memo, t, scope).1 <==> exists|depth: nat| #[trigger]
            is_body_safe_at(bk, t, scope, depth),
    decreases fuel, 1nat, t, 1nat,
{
    let safe = safety::visit_body(bk, fuel, memo, t, scope).1;
    match t.head {
        Th::Lam(_, p) => {
            if t.kids.len() == 1 {
                let (k, s) = (t.kids[0], scope + term::pat_binds(p));
                assert(is_body_under(bk, memo, k, s));
                lemma_visit_body(bk, fuel, memo, k, s);
                if safe {
                    let d = choose|d: nat| #[trigger] is_body_safe_at(bk, k, s, d);
                    assert(is_body_safe_at(bk, t, scope, d));
                }
                if exists|d: nat| #[trigger] is_body_safe_at(bk, t, scope, d) {
                    let d = choose|d: nat| #[trigger] is_body_safe_at(bk, t, scope, d);
                    assert(is_body_safe_at(bk, k, s, d));
                }
            }
        },
        Th::Var(x) => {
            assert(is_body_safe_at(bk, t, scope, 0) == scope.contains(Some(x)));
        },
        Th::Ref(_) => {
            assert(is_body_safe_at(bk, t, scope, 0));
        },
        _ => {
            assert(is_under(bk, memo, t));
            lemma_visit_term(bk, fuel, memo, t);
            if safe {
                let d = choose|d: nat| #[trigger] is_safe_at(bk, t, d);
                assert(is_body_safe_at(bk, t, scope, d));
            }
            if exists|d: nat| #[trigger] is_body_safe_at(bk, t, scope, d) {
                let d = choose|d: nat| #[trigger] is_body_safe_at(bk, t, scope, d);
                assert(is_safe_at(bk, t, d));
            }
        },
    }
}

proof fn lemma_first_memo(bk: Bk)
    ensures
        is_right(bk, safety::first_memo(bk)),
        forall|v: Str| !#[trigger] is_visiting(safety::first_memo(bk), v),
{
    assert forall|n: Str| #[trigger] safety::first_memo(bk).contains_key(n) implies !def_is_safe(
        bk,
        n,
    ) by {
        assert(safety::is_recursive(bk, n));
    }
}

proof fn lemma_visit_defs(bk: Bk, fuel: nat, names: Seq<Str>)
    requires
        bk.defs.dom().finite(),
        bk.defs.dom().len() <= fuel,
    ensures
        is_right(bk, safety::visit_defs(bk, fuel, safety::first_memo(bk), names)),
        forall|v: Str| !#[trigger] is_visiting(safety::visit_defs(bk, fuel, safety::first_memo(bk), names), v),
        names.to_set().subset_of(safety::visit_defs(bk, fuel, safety::first_memo(bk), names).dom()),
    decreases names.len(),
{
    lemma_first_memo(bk);
    if names.len() > 0 {
        let init = names.drop_last();
        lemma_visit_defs(bk, fuel, init);
        let m = safety::visit_defs(bk, fuel, safety::first_memo(bk), init);
        let m2 = safety::visit_defs(bk, fuel, safety::first_memo(bk), names);
        assert(is_def_under(bk, m, names.last()));
        safety::lemma_unvisited_less(bk, Map::empty(), m);
        assert(bk.defs.dom().difference(Map::<Str, SafetyState>::empty().dom()) =~= bk.defs.dom());
        lemma_visit_def(bk, fuel, m, names.last());
        assert forall|v: Str| !#[trigger] is_visiting(m2, v) by {
            assert(is_visiting(m, v) <==> is_visiting(m2, v));
        }
        assert forall|x: Str| names.to_set().contains(x) implies m2.dom().contains(x) by {
            let i = choose|i: int| 0 <= i < names.len() && names[i] == x;
            if i < init.len() {
                assert(init[i] == x);
                assert(init.to_set().contains(x));
            }
        }
    }
}

/// A definition is found safe if and only if it is not recursive and the expansion
/// of its references ends, whatever the order in which definitions are visited.
pub proof fn law_def_safety(bk: Bk, n: Str)
    requires
        bk.defs.dom().finite(),
    ensures
        bk.defs.contains_key(n) ==> safety::def_safety(bk).contains_key(n),
        safety::def_safety(bk).contains_key(n) ==> safety::def_safety(bk)[n] == def_is_safe(bk, n),
{
    let names = name::in_order(bk.defs.dom());
    let memo = safety::full_memo(bk);
    name::lemma_finite_in_order(bk.defs.dom());
    lemma_visit_defs(bk, bk.defs.dom().len(), names);
    if bk.defs.contains_key(n) {
        assert(names.to_set().contains(n));
    }
    if memo.contains_key(n) {
        assert(!is_visiting(memo, n));
    }
}

/// One depth is enough for finitely many definitions.
proof fn lemma_enough(bk: Bk, ns: Set<Str>) -> (depth: nat)
    requires
        ns.finite(),
    ensures
        forall|n: Str| #[trigger]
            ns.contains(n) && def_is_safe(bk, n) ==> safe_within(bk, depth).contains(n),
    decreases ns.len(),
{
    if ns.len() == 0 {
        0
    } else {
        let x = ns.choose();
        let a = lemma_enough(bk, ns.remove(x));
        let b = choose|b: nat| #[trigger] safe_within(bk, b).contains(x);
        let depth = if a <= b { b } else { a };
        lemma_safe_within_more(bk, a, depth);
        lemma_safe_within_more(bk, b, depth);
        assert forall|n: Str| #[trigger] ns.contains(n) && def_is_safe(bk, n) implies safe_within(
            bk,
            depth,
        ).contains(n) by {
            if n != x {
                assert(ns.remove(x).contains(n));
            }
        }
        depth
    }
}

/// A definition is found safe if and only if it is not recursive and its body is
/// safe where the definitions that are found safe can be referred to.
pub proof fn law_safety_of_body(bk: Bk, n: Str)
    requires
        bk.defs.dom().finite(),
        bk.defs.contains_key(n),
    ensures
        safety::def_safety(bk).contains_key(n),
        safety::def_safety(bk)[n] <==> !safety::is_recursive(bk, n) && safety::is_safe(
            term::body_of(bk.defs[n]),
            float_combinators::known(safety::def_safety(bk), bk.ctrs.dom(), Map::empty()),
        ),
{
    let body = term::body_of(bk.defs[n]);
    let found = safety::def_safety(bk);
    let known = float_combinators::known(found, bk.ctrs.dom(), Map::empty());
    law_def_safety(bk, n);
    if found[n] {
        let depth = choose|depth: nat| #[trigger] safe_within(bk, depth).contains(n);
        let before = (depth - 1) as nat;
        assert forall|x: Str| known_within(bk, before).contains(x) implies known.contains(x) by {
            if safe_within(bk, before).contains(x) {
                law_def_safety(bk, x);
            }
        }
        lemma_is_safe_more(body, known_within(bk, before), known);
    }
    if !safety::is_recursive(bk, n) && safety::is_safe(body, known) {
        let depth = lemma_enough(bk, bk.defs.dom());
        assert forall|x: Str| known.contains(x) implies known_within(bk, depth).contains(x) by {
            if !bk.ctrs.dom().contains(x) {
                law_def_safety(bk, x);
                let d = choose|d: nat| #[trigger] safe_within(bk, d).contains(x);
                assert(bk.defs.dom().contains(x));
            }
        }
        lemma_is_safe_more(body, known, known_within(bk, depth));
        assert(safe_within(bk, depth + 1).contains(n));
    }
}

/// A reference to a recursive definition is not safe: one that refers to itself,
/// directly or through others, in whatever place.
pub proof fn law_recursive_unsafe(bk: Bk, n: Str, combinators: Map<Str, (bool, Dm)>)
    requires
        bk.defs.dom().finite(),
        safety::is_recursive(bk, n),
    ensures
        safety::def_safety(bk).contains_key(n),
        !safety::def_safety(bk)[n],
        !bk.ctrs.contains_key(n) ==> !safety::is_safe(
            term::tm_leaf(Th::Ref(n)),
            float_combinators::known(safety::def_safety(bk), bk.ctrs.dom(), combinators),
        ),
{
    assert(bk.defs.contains_key(n));
    if def_is_safe(bk, n) {
        let d = choose|d: nat| #[trigger] safe_within(bk, d).contains(n);
        assert(d > 0);
    }
    law_def_safety(bk, n);
}

} // verus!
