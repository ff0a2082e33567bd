//! In which order groups of names come that do not need each other.

use crate::name;
use crate::name::Str;
use crate::name_graph;
use crate::name_graph::{Deps, Tour};
use vstd::prelude::*;

verus! {

/// One of the names needs it.
pub open spec fn is_needed(d: Deps, xs: Seq<Str>, y: Str) -> bool {
    exists|i: int| 0 <= i < xs.len() && name_graph::needs(d, #[trigger] xs[i], y)
}

/// What a search knows: what it has left and what it is still in are apart and all
/// that it has seen, and it has seen what the names need that it has left.
spec fn is_tour(d: Deps, w: Tour, open: Set<Str>) -> bool {
    &&& w.done.no_duplicates()
    &&& forall|x: Str| #[trigger] w.seen.contains(x) <==> w.done.contains(x) || open.contains(x)
    &&& forall|x: Str| #[trigger] w.done.contains(x) ==> !open.contains(x)
    &&& forall|x: Str, y: Str|
        w.done.contains(x) && #[trigger] name_graph::dep(d, x, y) ==> w.seen.contains(y)
    &&& forall|x: Str| #[trigger] w.seen.contains(x) ==> name_graph::nodes(d).contains(x)
}

/// The second tour goes on from the first one.
spec fn goes_on(w: Tour, w1: Tour) -> bool {
    &&& w.seen.subset_of(w1.seen)
    &&& w1.done.len() >= w.done.len()
    &&& w1.done.take(w.done.len() as int) == w.done
}

proof fn lemma_goes_on(a: Tour, b: Tour, c: Tour)
    requires
        goes_on(a, b),
        goes_on(b, c),
    ensures
        goes_on(a, c),
{
    assert(c.done.take(a.done.len() as int) =~= c.done.take(b.done.len() as int).take(
        a.done.len() as int,
    ));
}

/// How many names are left to see.
spec fn left(d: Deps, w: Tour) -> nat {
    name_graph::nodes(d).difference(w.seen).len()
}

proof fn lemma_left(d: Deps, w: Tour, w1: Tour)
    requires
        name_graph::nodes(d).finite(),
        w.seen.subset_of(w1.seen),
    ensures
        left(d, w1) <= left(d, w),
{
    let all = name_graph::nodes(d);
    vstd::set_lib::lemma_len_subset(all.difference(w1.seen), all.difference(w.seen));
}

proof fn lemma_visit(d: Deps, x: Str, w: Tour, fuel: nat, open: Set<Str>)
    requires
        name_graph::nodes(d).finite(),
        name_graph::nodes(d).contains(x),
        is_tour(d, w, open),
        left(d, w) <= fuel,
    ensures
        ({
            let w1 = name_graph::visit(d, x, w, fuel);
            &&& is_tour(d, w1, open)
            &&& goes_on(w, w1)
            &&& w1.seen.contains(x)
            &&& forall|y: Str| #[trigger]
                w1.seen.contains(y) && !w.seen.contains(y) ==> name_graph::needs(d, x, y)
        }),
    decreases fuel, 0nat,
{
    assert(w.done.take(w.done.len() as int) =~= w.done);
    if !w.seen.contains(x) {
        let all = name_graph::nodes(d);
        let w0 = Tour { seen: w.seen.insert(x), done: w.done };
        let xs = name_graph::deps_in_order(d, x);
        assert(all.difference(w.seen).contains(x));
        assert(all.difference(w0.seen) =~= all.difference(w.seen).remove(x));
        assert(left(d, w) > 0);
        assert(left(d, w0) < left(d, w));
        lemma_deps(d, x);
        assert forall|i: int| 0 <= i < xs.len() implies all.contains(#[trigger] xs[i]) by {
            assert(xs.contains(xs[i]));
            assert(name_graph::dep(d, x, xs[i]));
        }
        assert(is_tour(d, w0, open.insert(x)));
        lemma_visit_all(d, xs, w0, (fuel - 1) as nat, open.insert(x));
        let w1 = name_graph::visit_all(d, xs, w0, (fuel - 1) as nat);
        let w2 = Tour { seen: w1.seen, done: w1.done.push(x) };
        assert forall|y: Str| #[trigger] w2.done.contains(y) <==> w1.done.contains(y) || y == x by {
            lemma_push(w1.done, x, y);
        }
        assert(w2.done.no_duplicates()) by {
            assert(open.insert(x).contains(x));
            assert(!w1.done.contains(x));
        }
        assert forall|y: Str, z: Str| w2.done.contains(y) && #[trigger] name_graph::dep(d, y, z) implies w2.seen.contains(
            z,
        ) by {
            if y == x {
                assert(xs.contains(z));
                let i = choose|i: int| 0 <= i < xs.len() && xs[i] == z;
                assert(w1.seen.contains(xs[i]));
            }
        }
        assert(w2.done.take(w.done.len() as int) =~= w1.done.take(w.done.len() as int));
        assert forall|y: Str| #[trigger] w2.seen.contains(y) && !w.seen.contains(y) implies name_graph::needs(
            d,
            x,
            y,
        ) by {
            if y == x {
                name_graph::lemma_needs_refl(d, x);
            } else {
                assert(is_needed(d, xs, y));
                let i = choose|i: int| 0 <= i < xs.len() && name_graph::needs(d, #[trigger] xs[i], y);
                assert(xs.contains(xs[i]));
                name_graph::lemma_dep_needs(d, x, xs[i]);
                name_graph::lemma_needs_trans(d, x, xs[i], y);
            }
        }
    }
}

proof fn lemma_push(s: Seq<Str>, x: Str, y: Str)
    ensures
        s.push(x).contains(y) <==> s.contains(y) || y == x,
{
    if s.contains(y) {
        let i = choose|i: int| 0 <= i < s.len() && s[i] == y;
        assert(s.push(x)[i] == y);
    }
    assert(s.push(x)[s.len() as int] == x);
}

proof fn lemma_deps(d: Deps, x: Str)
    requires
        name_graph::nodes(d).finite(),
    ensures
        forall|y: Str| #[trigger]
            name_graph::deps_in_order(d, x).contains(y) <==> name_graph::dep(d, x, y),
{
    if d.contains_key(x) {
        assert forall|y: Str| #[trigger] d[x].contains(y) implies name_graph::nodes(d).contains(y) by {
            assert(name_graph::dep(d, x, y));
        }
        assert(d[x].subset_of(name_graph::nodes(d)));
        vstd::set_lib::lemma_set_subset_finite(name_graph::nodes(d), d[x]);
        name::lemma_finite_in_order(d[x]);
        assert forall|y: Str| #[trigger] name_graph::deps_in_order(d, x).contains(y)
            <==> name_graph::dep(d, x, y) by {
            assert(name::in_order(d[x]).to_set().contains(y) <==> d[x].contains(y));
        }
    }
}

proof fn lemma_visit_all(d: Deps, xs: Seq<Str>, w: Tour, fuel: nat, open: Set<Str>)
    requires
        name_graph::nodes(d).finite(),
        forall|i: int| 0 <= i < xs.len() ==> name_graph::nodes(d).contains(#[trigger] xs[i]),
        is_tour(d, w, open),
        left(d, w) <= fuel,
    ensures
        ({
            let w1 = name_graph::visit_all(d, xs, w, fuel);
            &&& is_tour(d, w1, open)
            &&& goes_on(w, w1)
            &&& forall|i: int| 0 <= i < xs.len() ==> w1.seen.contains(#[trigger] xs[i])
            &&& forall|y: Str| #[trigger]
                w1.seen.contains(y) && !w.seen.contains(y) ==> is_needed(d, xs, y)
        }),
    decreases fuel, 1nat, xs.len(),
{
    assert(w.done.take(w.done.len() as int) =~= w.done);
    if xs.len() > 0 {
        let rest = xs.drop_first();
        let w1 = name_graph::visit(d, xs[0], w, fuel);
        let w2 = name_graph::visit_all(d, rest, w1, fuel);
        lemma_visit(d, xs[0], w, fuel, open);
        lemma_left(d, w, w1);
        assert forall|i: int| 0 <= i < rest.len() implies name_graph::nodes(d).contains(
            #[trigger] rest[i],
        ) by {
            assert(rest[i] == xs[i + 1]);
        }
        lemma_visit_all(d, rest, w1, fuel, open);
        lemma_goes_on(w, w1, w2);
        assert forall|i: int| 0 <= i < xs.len() implies w2.seen.contains(#[trigger] xs[i]) by {
            if i > 0 {
                assert(rest[i - 1] == xs[i]);
            }
        }
        assert forall|y: Str| #[trigger] w2.seen.contains(y) && !w.seen.contains(y) implies is_needed(
            d,
            xs,
            y,
        ) by {
            if w1.seen.contains(y) {
                assert(name_graph::needs(d, xs[0], y));
            } else {
                assert(is_needed(d, rest, y));
                let i = choose|i: int|
                    0 <= i < rest.len() && name_graph::needs(d, #[trigger] rest[i], y);
                assert(xs[i + 1] == rest[i]);
                assert(name_graph::needs(d, xs[i + 1], y));
            }
        }
    }
}

proof fn lemma_visit_both(d: Deps, a: Seq<Str>, b: Seq<Str>, w: Tour, fuel: nat)
    ensures
        name_graph::visit_all(d, a + b, w, fuel) == name_graph::visit_all(
            d,
            b,
            name_graph::visit_all(d, a, w, fuel),
            fuel,
        ),
    decreases a.len(),
{
    if a.len() == 0 {
        assert(a + b =~= b);
    } else {
        assert((a + b).drop_first() =~= a.drop_first() + b);
        assert((a + b)[0] == a[0]);
        lemma_visit_both(d, a.drop_first(), b, name_graph::visit(d, a[0], w, fuel), fuel);
    }
}

/// A tour that is in nothing has seen all that the names need that it has seen.
proof fn lemma_closed(d: Deps, w: Tour, p: Seq<Str>)
    requires
        is_tour(d, w, Set::empty()),
        name_graph::is_chain(d, p),
        p.len() > 0,
        w.seen.contains(p[0]),
    ensures
        w.seen.contains(p.last()),
    decreases p.len(),
{
    if p.len() > 1 {
        let q = p.drop_last();
        assert forall|i: int| 0 <= i < q.len() - 1 implies name_graph::dep(
            d,
            #[trigger] q[i],
            q[i + 1],
        ) by {
            assert(name_graph::dep(d, p[i], p[i + 1]));
        }
        lemma_closed(d, w, q);
        let i = p.len() - 2;
        assert(name_graph::dep(d, p[i], p[i + 1]));
        assert(q.last() == p[i]);
    }
}

/// How many names have been left when the first names have been visited: those
/// that they need.
proof fn lemma_first_names(d: Deps, n: int) -> (m: int)
    requires
        name_graph::nodes(d).finite(),
        0 <= n <= name::in_order(name_graph::nodes(d)).len(),
    ensures
        forall|z: Str| #[trigger]
            name_graph::nodes(d).contains(z) ==> name_graph::finish_order(d).contains(z),
        forall|z: Str|
            name_graph::nodes(d).contains(z) ==> ((
            #[trigger] name_graph::finish_order(d).index_of(z) < m) <==> is_needed(
                d,
                name::in_order(name_graph::nodes(d)).take(n),
                z,
            )),
{
    let all = name::in_order(name_graph::nodes(d));
    let none = Tour { seen: Set::empty(), done: Seq::empty() };
    let fuel = all.len();
    let (a, b) = (all.take(n), all.skip(n));
    name::lemma_finite_in_order(name_graph::nodes(d));
    name::lemma_sorted_no_duplicates(all);
    all.unique_seq_to_set();
    assert(name_graph::nodes(d).difference(none.seen) =~= name_graph::nodes(d));
    assert forall|i: int| 0 <= i < all.len() implies name_graph::nodes(d).contains(#[trigger] all[i]) by {
        assert(all.to_set().contains(all[i]));
    }
    assert(is_tour(d, none, Set::empty()));
    lemma_visit_all(d, a, none, fuel, Set::empty());
    let w = name_graph::visit_all(d, a, none, fuel);
    lemma_left(d, none, w);
    lemma_visit_all(d, b, w, fuel, Set::empty());
    let w1 = name_graph::visit_all(d, b, w, fuel);
    assert(a + b =~= all);
    lemma_visit_both(d, a, b, none, fuel);
    let done = name_graph::finish_order(d);
    assert(done == w1.done);
    let m = w.done.len() as int;
    assert forall|z: Str| #[trigger] name_graph::nodes(d).contains(z) implies done.contains(z) by {
        assert(all.to_set().contains(z));
        let i = choose|i: int| 0 <= i < all.len() && all[i] == z;
        if i < n {
            assert(a[i] == z);
            assert(w.seen.contains(a[i]));
        } else {
            assert(b[i - n] == z);
            assert(w1.seen.contains(b[i - n]));
        }
    }
    assert forall|z: Str| name_graph::nodes(d).contains(z) implies ((#[trigger] done.index_of(z)
        < m) <==> is_needed(d, a, z)) by {
        assert(done.contains(z));
        let j = done.index_of(z);
        assert(done[j] == z);
        lemma_seen_needed(d, a, w, z);
        if j < m {
            assert(done.take(m)[j] == z);
            assert(w.done[j] == z);
            assert(w.done.contains(z));
        }
        if is_needed(d, a, z) {
            assert(w.done.contains(z));
            let i = choose|i: int| 0 <= i < w.done.len() && w.done[i] == z;
            assert(done.take(m)[i] == done[i]);
        }
    }
    m
}

proof fn lemma_seen_needed(d: Deps, a: Seq<Str>, w: Tour, z: Str)
    requires
        is_tour(d, w, Set::empty()),
        forall|i: int| 0 <= i < a.len() ==> w.seen.contains(#[trigger] a[i]),
        forall|y: Str| #[trigger] w.seen.contains(y) ==> is_needed(d, a, y),
    ensures
        w.seen.contains(z) <==> is_needed(d, a, z),
        w.seen.contains(z) <==> w.done.contains(z),
{
    if is_needed(d, a, z) {
        let i = choose|i: int| 0 <= i < a.len() && name_graph::needs(d, #[trigger] a[i], z);
        let p = choose|p: Seq<Str>| #[trigger]
            name_graph::is_chain(d, p) && p.len() > 0 && p[0] == a[i] && p.last() == z;
        lemma_closed(d, w, p);
    }
}

/// Groups that the first names need come before all groups that they do not need,
/// however many of the first names are taken.
pub proof fn law_needed_first(
    d: Deps,
    gs: Seq<Seq<Str>>,
    n: int,
    k: int,
    l: int,
    x: Str,
    y: Str,
)
    requires
        name_graph::nodes(d).finite(),
        name_graph::is_groups(d, gs),
        0 <= n <= name::in_order(name_graph::nodes(d)).len(),
        0 <= k < gs.len(),
        0 <= l < gs.len(),
        gs[k].contains(x),
        gs[l].contains(y),
        is_needed(d, name::in_order(name_graph::nodes(d)).take(n), x),
        !is_needed(d, name::in_order(name_graph::nodes(d)).take(n), y),
    ensures
        k < l,
{
    let a = name::in_order(name_graph::nodes(d)).take(n);
    let done = name_graph::finish_order(d);
    let m = lemma_first_names(d, n);
    assert forall|i: int| 0 <= i < gs[k].len() implies 0 <= done.index_of(#[trigger] gs[k][i]) <= m - 1 by {
        let z = gs[k][i];
        assert(gs[k].contains(z));
        assert(name_graph::nodes(d).contains(z));
        assert(name_graph::tied(d, x, z));
        lemma_needed_more(d, a, x, z);
        assert(done.contains(z));
    }
    name_graph::lemma_last_left_bound(done, gs[k], m - 1);
    let i = choose|i: int| 0 <= i < gs[l].len() && gs[l][i] == y;
    name_graph::lemma_last_left(done, gs[l], i);
    assert(name_graph::nodes(d).contains(y));
    assert(done.index_of(y) >= m);
    if l < k {
        assert(name_graph::last_left(done, gs[l]) < name_graph::last_left(done, gs[k]));
    }
}

proof fn lemma_needed_more(d: Deps, xs: Seq<Str>, y: Str, z: Str)
    requires
        is_needed(d, xs, y),
        name_graph::needs(d, y, z),
    ensures
        is_needed(d, xs, z),
{
    let i = choose|i: int| 0 <= i < xs.len() && name_graph::needs(d, #[trigger] xs[i], y);
    name_graph::lemma_needs_trans(d, xs[i], y, z);
    assert(name_graph::needs(d, xs[i], z));
}

} // verus!
