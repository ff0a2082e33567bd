//! Groups of names that depend on each other.

use crate::name;
use crate::name::{Name, Str};
use crate::name_map::{NameMap, NameSet};
use crate::scc;
use crate::scc::Adj;
use vstd::prelude::*;

verus! {

/// What each name depends on directly.
pub type Deps = Map<Str, Set<Str>>;

pub open spec fn dep(d: Deps, x: Str, y: Str) -> bool {
    d.contains_key(x) && d[x].contains(y)
}

/// The names that depend on something or that something depends on.
pub open spec fn nodes(d: Deps) -> Set<Str> {
    Set::new(|x: Str| d.contains_key(x) || exists|y: Str| #[trigger] dep(d, y, x))
}

/// Each name in the sequence depends on the next one.
pub open spec fn is_chain(d: Deps, p: Seq<Str>) -> bool {
    forall|i: int| 0 <= i < p.len() - 1 ==> dep(d, #[trigger] p[i], p[i + 1])
}

/// The first name depends on the second one, maybe through others, or is it.
pub open spec fn needs(d: Deps, x: Str, y: Str) -> bool {
    exists|p: Seq<Str>| #[trigger] is_chain(d, p) && p.len() > 0 && p[0] == x && p.last() == y
}

/// Each of the two names needs the other.
pub open spec fn tied(d: Deps, x: Str, y: Str) -> bool {
    needs(d, x, y) && needs(d, y, x)
}

/* Depth first search */

/// The names that a depth first search has entered, and those that it has left
/// in the order in which it left them.
pub struct Tour {
    pub seen: Set<Str>,
    pub done: Seq<Str>,
}

/// The direct dependencies of a name in their order.
pub open spec fn deps_in_order(d: Deps, x: Str) -> Seq<Str> {
    if d.contains_key(x) {
        name::in_order(d[x])
    } else {
        Seq::empty()
    }
}

/// Enters a name that was not seen, visits what it depends on and leaves it.
pub open spec fn visit(d: Deps, x: Str, w: Tour, fuel: nat) -> Tour
    decreases fuel, 0nat,
{
    if fuel == 0 || w.seen.contains(x) {
        w
    } else {
        let w1 = visit_all(
            d,
            deps_in_order(d, x),
            Tour { seen: w.seen.insert(x), done: w.done },
            (fuel - 1) as nat,
        );
        Tour { seen: w1.seen, done: w1.done.push(x) }
    }
}

/// Visits the names in turn.
pub open spec fn visit_all(d: Deps, xs: Seq<Str>, w: Tour, fuel: nat) -> Tour
    decreases fuel, 1nat, xs.len(),
{
    if xs.len() == 0 {
        w
    } else {
        visit_all(d, xs.drop_first(), visit(d, xs[0], w, fuel), fuel)
    }
}

/// The names in the order in which a depth first search leaves them that
/// starts from each name in turn and follows the dependencies in their order.
pub open spec fn finish_order(d: Deps) -> Seq<Str> {
    let all = name::in_order(nodes(d));
    visit_all(d, all, Tour { seen: Set::empty(), done: Seq::empty() }, all.len()).done
}

/* Groups */

/// Each list holds, in their order, all the names that need each other, and
/// every name stands in a list.
pub open spec fn is_partition(d: Deps, gs: Seq<Seq<Str>>) -> bool {
    &&& forall|k: int| 0 <= k < gs.len() ==> (#[trigger] gs[k]).len() > 0 && name::sorted(gs[k])
    &&& forall|k: int, x: Str|
        0 <= k < gs.len() && #[trigger] gs[k].contains(x) ==> nodes(d).contains(x)
    &&& forall|k: int, x: Str, y: Str|
        0 <= k < gs.len() && #[trigger] gs[k].contains(x) && nodes(d).contains(y) ==> (
        #[trigger] gs[k].contains(y) <==> tied(d, x, y))
    &&& forall|x: Str| #[trigger]
        nodes(d).contains(x) ==> exists|k: int| 0 <= k < gs.len() && #[trigger] gs[k].contains(x)
}

/// A dependency of a name stands in the same list or in an earlier one.
pub open spec fn is_topological(d: Deps, gs: Seq<Seq<Str>>) -> bool {
    forall|k: int, l: int, x: Str, y: Str|
        0 <= k < gs.len() && 0 <= l < gs.len() && #[trigger] gs[k].contains(x)
            && #[trigger] gs[l].contains(y) && dep(d, x, y) ==> l <= k
}

/// When the last name of a list was left.
pub open spec fn last_left(done: Seq<Str>, g: Seq<Str>) -> int
    decreases g.len(),
{
    if g.len() == 0 {
        -1
    } else {
        let a = last_left(done, g.drop_last());
        let b = done.index_of(g.last());
        if a < b {
            b
        } else {
            a
        }
    }
}

/// The lists stand in the order in which their last names were left.
pub open spec fn is_by_finish(done: Seq<Str>, gs: Seq<Seq<Str>>) -> bool {
    forall|k: int, l: int|
        0 <= k < l < gs.len() ==> last_left(done, #[trigger] gs[k]) < last_left(done, #[trigger] gs[l])
}

/// The groups of names that need each other, what they need first.
pub open spec fn is_groups(d: Deps, gs: Seq<Seq<Str>>) -> bool {
    &&& is_partition(d, gs)
    &&& is_topological(d, gs)
    &&& is_by_finish(finish_order(d), gs)
}

/* There is one such sequence of groups */

/// The place of a group of one sequence in the other one.
spec fn place(gs: Seq<Seq<Str>>, hs: Seq<Seq<Str>>, k: int) -> int {
    choose|j: int| 0 <= j < hs.len() && hs[j] == gs[k]
}

pub proof fn lemma_needs_refl(d: Deps, x: Str)
    ensures
        tied(d, x, x),
{
    let p = seq![x];
    assert(is_chain(d, p));
    assert(p[0] == x && p.last() == x);
}

proof fn lemma_place(d: Deps, gs: Seq<Seq<Str>>, hs: Seq<Seq<Str>>, k: int)
    requires
        is_partition(d, gs),
        is_partition(d, hs),
        0 <= k < gs.len(),
    ensures
        0 <= place(gs, hs, k) < hs.len(),
        hs[place(gs, hs, k)] == gs[k],
{
    let x = gs[k][0];
    assert(gs[k].contains(x));
    assert(nodes(d).contains(x));
    let j = choose|j: int| 0 <= j < hs.len() && #[trigger] hs[j].contains(x);
    assert forall|y: Str| gs[k].to_set().contains(y) <==> hs[j].to_set().contains(y) by {
        if gs[k].contains(y) {
            assert(nodes(d).contains(y));
            assert(tied(d, x, y));
            assert(hs[j].contains(y));
        }
        if hs[j].contains(y) {
            assert(nodes(d).contains(y));
            assert(tied(d, x, y));
            assert(gs[k].contains(y));
        }
    }
    assert(gs[k].to_set() =~= hs[j].to_set());
    name::lemma_sorted_unique(gs[k], hs[j]);
    assert(hs[j] == gs[k]);
}

/// A group does not come earlier in the other sequence.
proof fn lemma_place_increases(done: Seq<Str>, d: Deps, gs: Seq<Seq<Str>>, hs: Seq<Seq<Str>>, k: int)
    requires
        is_partition(d, gs),
        is_partition(d, hs),
        is_by_finish(done, gs),
        is_by_finish(done, hs),
        0 <= k < gs.len(),
    ensures
        place(gs, hs, k) >= k,
    decreases k,
{
    lemma_place(d, gs, hs, k);
    if k > 0 {
        lemma_place_increases(done, d, gs, hs, k - 1);
        lemma_place(d, gs, hs, k - 1);
        let (i, j) = (place(gs, hs, k - 1), place(gs, hs, k));
        assert(last_left(done, gs[k - 1]) < last_left(done, gs[k]));
        if j < i {
            assert(last_left(done, hs[j]) < last_left(done, hs[i]));
        }
    }
}

/// The groups of names are determined by their dependencies.
pub proof fn law_groups_unique(d: Deps, gs: Seq<Seq<Str>>, hs: Seq<Seq<Str>>)
    requires
        is_groups(d, gs),
        is_groups(d, hs),
    ensures
        gs == hs,
{
    let done = finish_order(d);
    assert forall|k: int| 0 <= k < gs.len() implies k < hs.len() && #[trigger] gs[k] == hs[k] by {
        lemma_same_place(done, d, gs, hs, k);
    }
    assert forall|k: int| 0 <= k < hs.len() implies k < gs.len() && #[trigger] hs[k] == gs[k] by {
        lemma_same_place(done, d, hs, gs, k);
    }
    assert(gs.len() == hs.len()) by {
        if gs.len() < hs.len() {
            assert(hs[gs.len() as int] == hs[gs.len() as int]);
            lemma_same_place(done, d, hs, gs, gs.len() as int);
        }
        if hs.len() < gs.len() {
            lemma_same_place(done, d, gs, hs, hs.len() as int);
        }
    }
    assert(gs =~= hs);
}

proof fn lemma_same_place(done: Seq<Str>, d: Deps, gs: Seq<Seq<Str>>, hs: Seq<Seq<Str>>, k: int)
    requires
        is_partition(d, gs),
        is_partition(d, hs),
        is_by_finish(done, gs),
        is_by_finish(done, hs),
        0 <= k < gs.len(),
    ensures
        k < hs.len(),
        hs[k] == gs[k],
{
    lemma_place(d, gs, hs, k);
    lemma_place_increases(done, d, gs, hs, k);
    let j = place(gs, hs, k);
    lemma_place(d, hs, gs, j);
    lemma_place_increases(done, d, hs, gs, j);
    let i = place(hs, gs, j);
    assert(gs[i] == gs[k]);
    if i != k {
        let x = gs[k][0];
        if i < k {
            assert(last_left(done, gs[i]) < last_left(done, gs[k]));
        } else {
            assert(last_left(done, gs[k]) < last_left(done, gs[i]));
        }
    }
}

/* Names as numbers */

/// The nodes of the graph stand for the names in their order, and its edges
/// for their dependencies.
spec fn same_graph(d: Deps, names: Seq<Str>, g: Adj) -> bool {
    &&& name::sorted(names)
    &&& names.to_set() == nodes(d)
    &&& g.len() == names.len()
    &&& scc::is_graph(g)
    &&& forall|x: Str| #[trigger] d.contains_key(x) ==> name::in_order(d[x]).to_set() == d[x]
    &&& forall|u: int|
        0 <= u < g.len() ==> (#[trigger] g[u])@.len() == deps_in_order(d, names[u]).len()
    &&& forall|u: int, k: int|
        0 <= u < g.len() && 0 <= k < g[u]@.len() ==> names[#[trigger] g[u]@[k] as int] == deps_in_order(
            d,
            names[u],
        )[k]
}

proof fn lemma_injective(names: Seq<Str>, u: int, v: int)
    requires
        name::sorted(names),
        0 <= u < names.len(),
        0 <= v < names.len(),
        names[u] == names[v],
    ensures
        u == v,
{
    name::lemma_sorted_no_duplicates(names);
}

proof fn lemma_same_edges(d: Deps, names: Seq<Str>, g: Adj, u: int, v: int)
    requires
        same_graph(d, names, g),
        0 <= u < g.len(),
        0 <= v < g.len(),
    ensures
        scc::edge(g, u, v) <==> dep(d, names[u], names[v]),
{
    let ds = deps_in_order(d, names[u]);
    if scc::edge(g, u, v) {
        let k = choose|k: int| 0 <= k < g[u]@.len() && #[trigger] g[u]@[k] == v;
        assert(names[g[u]@[k] as int] == ds[k]);
        assert(d.contains_key(names[u]));
        assert(ds.to_set().contains(ds[k]));
    }
    if dep(d, names[u], names[v]) {
        assert(ds.to_set().contains(names[v]));
        let k = choose|k: int| 0 <= k < ds.len() && ds[k] == names[v];
        assert(g[u]@.len() == ds.len());
        assert(names[g[u]@[k] as int] == ds[k]);
        lemma_injective(names, g[u]@[k] as int, v);
    }
}

proof fn lemma_path_nodes(d: Deps, names: Seq<Str>, g: Adj, p: Seq<int>, i: int)
    requires
        same_graph(d, names, g),
        scc::is_path(g, p),
        0 <= i < p.len(),
        0 <= p[0] < g.len(),
    ensures
        0 <= p[i] < g.len(),
    decreases i,
{
    if i > 0 {
        lemma_path_nodes(d, names, g, p, i - 1);
        assert(scc::edge(g, p[i - 1], p[i - 1 + 1]));
    }
}

proof fn lemma_same_reach(d: Deps, names: Seq<Str>, g: Adj, u: int, v: int)
    requires
        same_graph(d, names, g),
        0 <= u < g.len(),
        0 <= v < g.len(),
    ensures
        scc::reach(g, u, v) <==> needs(d, names[u], names[v]),
{
    if scc::reach(g, u, v) {
        let p = choose|p: Seq<int>| #[trigger]
            scc::is_path(g, p) && p.len() > 0 && p[0] == u && p.last() == v;
        let q = Seq::new(p.len(), |i: int| names[p[i]]);
        assert forall|i: int| 0 <= i < q.len() - 1 implies dep(d, #[trigger] q[i], q[i + 1]) by {
            assert(scc::edge(g, p[i], p[i + 1]));
            lemma_path_nodes(d, names, g, p, i);
            lemma_path_nodes(d, names, g, p, i + 1);
            lemma_same_edges(d, names, g, p[i], p[i + 1]);
        }
        assert(is_chain(d, q));
        assert(q[0] == names[u] && q.last() == names[v]);
    }
    if needs(d, names[u], names[v]) {
        let q = choose|q: Seq<Str>| #[trigger]
            is_chain(d, q) && q.len() > 0 && q[0] == names[u] && q.last() == names[v];
        let p = Seq::new(q.len(), |i: int| names.index_of(q[i]));
        assert forall|i: int| 0 <= i < q.len() implies 0 <= #[trigger] p[i] < names.len() && names[p[i]] == q[i] by {
            assert(nodes(d).contains(q[i])) by {
                if i > 0 {
                    assert(dep(d, q[i - 1], q[i - 1 + 1]));
                } else {
                    assert(names.to_set().contains(names[u]));
                }
            }
            assert(names.to_set().contains(q[i]));
        }
        assert forall|i: int| 0 <= i < p.len() - 1 implies scc::edge(g, #[trigger] p[i], p[i + 1]) by {
            assert(dep(d, q[i], q[i + 1]));
            lemma_same_edges(d, names, g, p[i], p[i + 1]);
        }
        assert(scc::is_path(g, p));
        lemma_injective(names, p[0], u);
        lemma_injective(names, p.last(), v);
    }
}

spec fn named(names: Seq<Str>, done: Seq<int>) -> Seq<Str> {
    Seq::new(done.len(), |i: int| names[done[i]])
}

spec fn same_tour(names: Seq<Str>, w: scc::Walk, t: Tour) -> bool {
    &&& t.done == named(names, w.done)
    &&& forall|i: int| 0 <= i < w.done.len() ==> 0 <= #[trigger] w.done[i] < names.len()
    &&& forall|u: int|
        0 <= u < names.len() ==> (#[trigger] w.seen.contains(u) <==> t.seen.contains(names[u]))
}

proof fn lemma_visit(d: Deps, names: Seq<Str>, g: Adj, v: int, w: scc::Walk, t: Tour, fuel: nat)
    requires
        same_graph(d, names, g),
        same_tour(names, w, t),
        0 <= v < g.len(),
    ensures
        same_tour(names, scc::visit(g, v, w, fuel), visit(d, names[v], t, fuel)),
    decreases fuel, 0nat,
{
    if fuel > 0 && !w.seen.contains(v) {
        let w1 = scc::Walk { seen: w.seen.insert(v), done: w.done };
        let t1 = Tour { seen: t.seen.insert(names[v]), done: t.done };
        assert(same_tour(names, w1, t1)) by {
            assert forall|u: int| 0 <= u < names.len() implies (#[trigger] w1.seen.contains(u)
                <==> t1.seen.contains(names[u])) by {
                if names[u] == names[v] {
                    lemma_injective(names, u, v);
                }
            }
        }
        let ds = deps_in_order(d, names[v]);
        assert(ds.skip(0) =~= ds);
        lemma_visit_from(d, names, g, v, 0, w1, t1, (fuel - 1) as nat);
        let w2 = scc::visit_from(g, v, 0, w1, (fuel - 1) as nat);
        assert(named(names, w2.done.push(v)) =~= named(names, w2.done).push(names[v]));
    }
}

proof fn lemma_visit_from(
    d: Deps,
    names: Seq<Str>,
    g: Adj,
    v: int,
    k: int,
    w: scc::Walk,
    t: Tour,
    fuel: nat,
)
    requires
        same_graph(d, names, g),
        same_tour(names, w, t),
        0 <= v < g.len(),
        0 <= k <= g[v]@.len(),
    ensures
        same_tour(
            names,
            scc::visit_from(g, v, k, w, fuel),
            visit_all(d, deps_in_order(d, names[v]).skip(k), t, fuel),
        ),
    decreases fuel, 1nat, g[v]@.len() - k,
{
    let ds = deps_in_order(d, names[v]);
    assert(g[v]@.len() == ds.len());
    if k < g[v]@.len() {
        let x = g[v]@[k] as int;
        let rest = ds.skip(k);
        assert(names[g[v]@[k] as int] == ds[k]);
        assert(rest[0] == names[x]);
        assert(rest.drop_first() =~= ds.skip(k + 1));
        lemma_visit(d, names, g, x, w, t, fuel);
        lemma_visit_from(
            d,
            names,
            g,
            v,
            k + 1,
            scc::visit(g, x, w, fuel),
            visit(d, names[x], t, fuel),
            fuel,
        );
    }
}

proof fn lemma_visit_roots(d: Deps, names: Seq<Str>, g: Adj, v: int, w: scc::Walk, t: Tour)
    requires
        same_graph(d, names, g),
        same_tour(names, w, t),
        0 <= v <= g.len(),
    ensures
        same_tour(
            names,
            scc::visit_roots(g, v, w),
            visit_all(d, names.skip(v), t, names.len()),
        ),
    decreases g.len() - v,
{
    if v < g.len() {
        let rest = names.skip(v);
        assert(rest[0] == names[v]);
        assert(rest.drop_first() =~= names.skip(v + 1));
        lemma_visit(d, names, g, v, w, t, g.len());
        lemma_visit_roots(
            d,
            names,
            g,
            v + 1,
            scc::visit(g, v, w, g.len()),
            visit(d, names[v], t, names.len()),
        );
    }
}

proof fn lemma_finish_order(d: Deps, names: Seq<Str>, g: Adj)
    requires
        same_graph(d, names, g),
    ensures
        finish_order(d) == named(names, scc::finish_order(g)),
        forall|i: int|
            0 <= i < scc::finish_order(g).len() ==> 0 <= #[trigger] scc::finish_order(g)[i] < names.len(),
{
    name::lemma_in_order(names);
    let w = scc::Walk { seen: Set::empty(), done: Seq::empty() };
    let t = Tour { seen: Set::empty(), done: Seq::empty() };
    assert(named(names, w.done) =~= t.done);
    assert(names.skip(0) =~= names);
    lemma_visit_roots(d, names, g, 0, w, t);
}

/// A name was left when its number was.
proof fn lemma_left_when(d: Deps, names: Seq<Str>, g: Adj, x: int)
    requires
        same_graph(d, names, g),
        scc::finish_order(g).no_duplicates(),
        scc::finish_order(g).contains(x),
    ensures
        finish_order(d).index_of(names[x]) == scc::finish_order(g).index_of(x),
{
    lemma_finish_order(d, names, g);
    let (a, b) = (scc::finish_order(g), finish_order(d));
    let i = a.index_of(x);
    assert(a[i] == x);
    assert(b[i] == names[x]);
    assert(b.contains(names[x]));
    let j = b.index_of(names[x]);
    assert(b[j] == names[a[j]]);
    lemma_injective(names, a[j], x);
    assert(a[i] == a[j]);
}

pub proof fn lemma_last_left(done: Seq<Str>, s: Seq<Str>, i: int)
    requires
        0 <= i < s.len(),
    ensures
        done.index_of(s[i]) <= last_left(done, s),
    decreases s.len(),
{
    if i < s.len() - 1 {
        lemma_last_left(done, s.drop_last(), i);
        assert(s.drop_last()[i] == s[i]);
    }
}

pub proof fn lemma_last_left_bound(done: Seq<Str>, s: Seq<Str>, m: int)
    requires
        s.len() > 0,
        forall|i: int| 0 <= i < s.len() ==> 0 <= done.index_of(#[trigger] s[i]) <= m,
    ensures
        last_left(done, s) <= m,
    decreases s.len(),
{
    if s.len() > 1 {
        let p = s.drop_last();
        assert forall|i: int| 0 <= i < p.len() implies 0 <= done.index_of(#[trigger] p[i]) <= m by {
            assert(p[i] == s[i]);
        }
        lemma_last_left_bound(done, p, m);
    } else {
        assert(last_left(done, s.drop_last()) == -1);
        assert(0 <= done.index_of(s[0]));
    }
    assert(done.index_of(s[s.len() - 1]) <= m);
}

/// The list holds the names of a component in their order.
spec fn names_component(names: Seq<Str>, c: Vec<usize>, s: Seq<Str>) -> bool {
    &&& name::sorted(s)
    &&& forall|x: Str| #[trigger]
        s.contains(x) <==> exists|i: int| 0 <= i < c@.len() && names[#[trigger] c@[i] as int] == x
}

proof fn lemma_component_last_left(
    d: Deps,
    names: Seq<Str>,
    g: Adj,
    cs: Seq<Vec<usize>>,
    k: int,
    s: Seq<Str>,
)
    requires
        same_graph(d, names, g),
        scc::finish_order(g).no_duplicates(),
        scc::components_of(g, cs),
        0 <= k < cs.len(),
        names_component(names, cs[k], s),
    ensures
        last_left(finish_order(d), s) == scc::finish_order(g).index_of(cs[k]@.last() as int),
        s.len() > 0,
{
    let done = scc::finish_order(g);
    let c = cs[k]@;
    let last = c.last() as int;
    let m = done.index_of(last);
    assert(cs[k]@.len() > 0);
    assert(c[c.len() - 1] == last);
    assert(s.contains(names[cs[k]@[c.len() - 1] as int]));
    let j = choose|j: int| 0 <= j < s.len() && s[j] == names[last];
    assert(done.contains(cs[k]@[c.len() - 1] as int));
    lemma_left_when(d, names, g, last);
    lemma_last_left(finish_order(d), s, j);
    assert forall|i: int| 0 <= i < s.len() implies 0 <= finish_order(d).index_of(#[trigger] s[i]) <= m by {
        assert(s.contains(s[i]));
        let l = choose|l: int| 0 <= l < cs[k]@.len() && names[#[trigger] cs[k]@[l] as int] == s[i];
        assert(done.contains(cs[k]@[l] as int));
        lemma_left_when(d, names, g, cs[k]@[l] as int);
    }
    lemma_last_left_bound(finish_order(d), s, m);
}

proof fn lemma_groups(d: Deps, names: Seq<Str>, g: Adj, cs: Seq<Vec<usize>>, gs: Seq<Seq<Str>>)
    requires
        same_graph(d, names, g),
        scc::finish_order(g).no_duplicates(),
        scc::components_of(g, cs),
        gs.len() == cs.len(),
        forall|k: int| 0 <= k < cs.len() ==> names_component(names, cs[k], #[trigger] gs[k]),
    ensures
        is_groups(d, gs),
{
    assert forall|k: int, x: Str| 0 <= k < gs.len() && #[trigger] gs[k].contains(x) implies nodes(d).contains(
        x,
    ) by {
        let i = lemma_member(d, names, g, cs, gs, k, x);
        assert(names.to_set().contains(names[i]));
    }
    assert forall|k: int, x: Str, y: Str|
        0 <= k < gs.len() && #[trigger] gs[k].contains(x) && nodes(d).contains(y) implies (
    #[trigger] gs[k].contains(y) <==> tied(d, x, y)) by {
        let u = lemma_member(d, names, g, cs, gs, k, x);
        assert(names.to_set().contains(y));
        let v = choose|v: int| 0 <= v < names.len() && names[v] == y;
        let i = choose|i: int| 0 <= i < cs[k]@.len() && #[trigger] cs[k]@[i] == u;
        lemma_same_reach(d, names, g, u, v);
        lemma_same_reach(d, names, g, v, u);
        assert(scc::member(cs[k], v) <==> scc::linked(g, cs[k]@[i] as int, v));
        if gs[k].contains(y) {
            let v2 = lemma_member(d, names, g, cs, gs, k, y);
            lemma_injective(names, v, v2);
        }
        if scc::member(cs[k], v) {
            let j = choose|j: int| 0 <= j < cs[k]@.len() && #[trigger] cs[k]@[j] == v;
            assert(names[cs[k]@[j] as int] == y);
        }
    }
    assert forall|x: Str| #[trigger] nodes(d).contains(x) implies exists|k: int|
        0 <= k < gs.len() && #[trigger] gs[k].contains(x) by {
        assert(names.to_set().contains(x));
        let u = choose|u: int| 0 <= u < names.len() && names[u] == x;
        assert(scc::covered(cs, u));
        let k = choose|k: int| 0 <= k < cs.len() && scc::member(#[trigger] cs[k], u);
        let i = choose|i: int| 0 <= i < cs[k]@.len() && #[trigger] cs[k]@[i] == u;
        assert(names[cs[k]@[i] as int] == x);
        assert(names_component(names, cs[k], gs[k]));
        assert(gs[k].contains(x));
    }
    assert forall|k: int, l: int, x: Str, y: Str|
        0 <= k < gs.len() && 0 <= l < gs.len() && #[trigger] gs[k].contains(x)
            && #[trigger] gs[l].contains(y) && dep(d, x, y) implies l <= k by {
        let u = lemma_member(d, names, g, cs, gs, k, x);
        let v = lemma_member(d, names, g, cs, gs, l, y);
        lemma_same_edges(d, names, g, u, v);
        let i = choose|i: int| 0 <= i < cs[k]@.len() && #[trigger] cs[k]@[i] == u;
        assert(scc::edge(g, cs[k]@[i] as int, v));
        assert(scc::covered(cs.take(k + 1), v));
        let m = choose|m: int| 0 <= m < cs.take(k + 1).len() && scc::member(#[trigger] cs.take(k + 1)[m], v);
        let a = choose|a: int| 0 <= a < cs[m]@.len() && #[trigger] cs[m]@[a] == v;
        let b = choose|b: int| 0 <= b < cs[l]@.len() && #[trigger] cs[l]@[b] == v;
        assert(cs[m]@[a] == cs[l]@[b]);
    }
    assert forall|k: int, l: int| 0 <= k < l < gs.len() implies last_left(
        finish_order(d),
        #[trigger] gs[k],
    ) < last_left(finish_order(d), #[trigger] gs[l]) by {
        lemma_component_last_left(d, names, g, cs, k, gs[k]);
        lemma_component_last_left(d, names, g, cs, l, gs[l]);
        assert(cs[k] == cs[k] && cs[l] == cs[l]);
        assert(scc::finish_order(g).index_of(cs[k]@.last() as int) < scc::finish_order(g).index_of(
            cs[l]@.last() as int,
        ));
    }
    assert forall|k: int| 0 <= k < gs.len() implies (#[trigger] gs[k]).len() > 0 && name::sorted(gs[k]) by {
        lemma_component_last_left(d, names, g, cs, k, gs[k]);
    }
}

/// The number of a name that stands in a group.
proof fn lemma_member(
    d: Deps,
    names: Seq<Str>,
    g: Adj,
    cs: Seq<Vec<usize>>,
    gs: Seq<Seq<Str>>,
    k: int,
    x: Str,
) -> (u: int)
    requires
        same_graph(d, names, g),
        scc::components_of(g, cs),
        gs.len() == cs.len(),
        forall|k: int| 0 <= k < cs.len() ==> names_component(names, cs[k], #[trigger] gs[k]),
        0 <= k < gs.len(),
        gs[k].contains(x),
    ensures
        0 <= u < names.len(),
        names[u] == x,
        scc::member(cs[k], u),
{
    assert(names_component(names, cs[k], gs[k]));
    let i = choose|i: int| 0 <= i < cs[k]@.len() && names[#[trigger] cs[k]@[i] as int] == x;
    assert(cs[k]@[i] < g.len());
    cs[k]@[i] as int
}

/* Execution */

/// The contents of lists of names.
pub open spec fn lists(gs: Seq<Vec<Name>>) -> Seq<Seq<Str>> {
    Seq::new(gs.len(), |i: int| name::texts(gs[i]@))
}

/// All names of the graph.
fn all_names(deps: &NameMap<NameSet>) -> (r: NameSet)
    ensures
        r@ == nodes(deps@),
{
    let mut all = NameSet::new();
    let n: usize = deps.len();
    let ghost keys = deps.names();
    let ghost d = deps@;
    let mut i: usize = 0;
    while i < n
        invariant
            i <= n,
            d == deps@,
            keys == deps.names(),
            n == keys.len(),
            keys.to_set() == d.dom(),
            forall|x: Str| #[trigger]
                all@.contains(x) <==> exists|j: int|
                    0 <= j < i && (#[trigger] keys[j] == x || dep(d, keys[j], x)),
        decreases n - i,
    {
        let ghost before = all@;
        all.insert(deps.name_at(i).clone());
        all.extend(deps.value_at(i));
        proof {
            let k = keys[i as int];
            assert(d.contains_key(k));
            assert forall|x: Str| #[trigger] all@.contains(x) <==> exists|j: int|
                0 <= j < i + 1 && (#[trigger] keys[j] == x || dep(d, keys[j], x)) by {
                if before.contains(x) {
                    let j = choose|j: int| 0 <= j < i && (#[trigger] keys[j] == x || dep(d, keys[j], x));
                    assert(0 <= j < i + 1 && (keys[j] == x || dep(d, keys[j], x)));
                }
                if x == k || dep(d, k, x) {
                    assert(keys[i as int] == x || dep(d, keys[i as int], x));
                }
            }
        }
        i += 1;
    }
    proof {
        assert forall|x: Str| all@.contains(x) <==> nodes(d).contains(x) by {
            if all@.contains(x) {
                let j = choose|j: int| 0 <= j < n && (#[trigger] keys[j] == x || dep(d, keys[j], x));
                assert(keys.to_set().contains(keys[j]));
            }
            if d.contains_key(x) {
                assert(keys.to_set().contains(x));
                let j = choose|j: int| 0 <= j < keys.len() && keys[j] == x;
                assert(keys[j] == x);
            }
            if exists|y: Str| #[trigger] dep(d, y, x) {
                let y = choose|y: Str| #[trigger] dep(d, y, x);
                assert(keys.to_set().contains(y));
                let j = choose|j: int| 0 <= j < keys.len() && keys[j] == y;
                assert(keys[j] == y && dep(d, keys[j], x));
            }
        }
        assert(all@ =~= nodes(d));
    }
    all
}

/// The numbers of the names in a set.
fn numbers(all: &NameSet, set: &NameSet) -> (r: Vec<usize>)
    requires
        set@.subset_of(all@),
    ensures
        name::in_order(set@).to_set() == set@,
        r@.len() == name::in_order(set@).len(),
        forall|k: int| 0 <= k < r@.len() ==> #[trigger] r@[k] < all.names().len(),
        forall|k: int|
            0 <= k < r@.len() ==> all.names()[#[trigger] r@[k] as int] == name::in_order(set@)[k],
{
    let mut r: Vec<usize> = Vec::new();
    let n: usize = set.len();
    let mut k: usize = 0;
    while k < n
        invariant
            k <= n,
            n == set.names().len(),
            set.names() == name::in_order(set@),
            set@.subset_of(all@),
            r@.len() == k,
            forall|j: int| 0 <= j < k ==> #[trigger] r@[j] < all.names().len(),
            forall|j: int| 0 <= j < k ==> all.names()[#[trigger] r@[j] as int] == set.names()[j],
        decreases n - k,
    {
        let x = set.name_at(k);
        assert(all@.contains(x@));
        let i: usize = all.index_of(x).unwrap();
        r.push(i);
        k += 1;
    }
    r
}

/// The groups of names that need each other, what they need first.
pub fn groups(deps: &NameMap<NameSet>) -> (r: Vec<Vec<Name>>)
    ensures
        is_groups(deps@, lists(r@)),
{
    let all = all_names(deps);
    let n: usize = all.len();
    let ghost d = deps@;
    let ghost names = all.names();
    let mut adj: Vec<Vec<usize>> = Vec::new();
    let mut u: usize = 0;
    while u < n
        invariant
            u <= n,
            n == names.len(),
            names == all.names(),
            d == deps@,
            all@ == nodes(d),
            adj@.len() == u,
            forall|v: int|
                0 <= v < u && d.contains_key(#[trigger] names[v]) ==> name::in_order(d[names[v]]).to_set()
                    == d[names[v]],
            forall|v: int|
                0 <= v < u ==> (#[trigger] adj@[v])@.len() == deps_in_order(d, names[v]).len(),
            forall|v: int, k: int|
                0 <= v < u && 0 <= k < adj@[v]@.len() ==> #[trigger] adj@[v]@[k] < n
                    && names[adj@[v]@[k] as int] == deps_in_order(d, names[v])[k],
        decreases n - u,
    {
        let ghost before = adj@;
        let x = all.name_at(u);
        let row = match deps.get(x) {
            Some(set) => {
                assert forall|y: Str| set@.contains(y) implies all@.contains(y) by {
                    assert(dep(d, x@, y));
                }
                numbers(&all, set)
            },
            None => Vec::new(),
        };
        adj.push(row);
        proof {
            assert forall|v: int| 0 <= v < u + 1 implies (#[trigger] adj@[v])@.len() == deps_in_order(
                d,
                names[v],
            ).len() by {
                if v < u {
                    assert(adj@[v] == before[v]);
                }
            }
            assert forall|v: int, k: int| 0 <= v < u + 1 && 0 <= k < adj@[v]@.len() implies #[trigger] adj@[v]@[k]
                < n && names[adj@[v]@[k] as int] == deps_in_order(d, names[v])[k] by {
                if v < u {
                    assert(adj@[v] == before[v]);
                    assert(before[v]@[k] < n);
                }
            }
        }
        u += 1;
    }
    proof {
        assert forall|x: Str| #[trigger] d.contains_key(x) implies name::in_order(d[x]).to_set() == d[x] by {
            assert(names.to_set().contains(x));
            let v = choose|v: int| 0 <= v < names.len() && names[v] == x;
            assert(d.contains_key(names[v]));
        }
    }
    assert(same_graph(d, names, adj@));
    let comps = scc::components(&adj);
    let m: usize = comps.len();
    let mut gs: Vec<Vec<Name>> = Vec::new();
    let mut k: usize = 0;
    while k < m
        invariant
            k <= m,
            m == comps@.len(),
            names == all.names(),
            name::sorted(names),
            names.len() == adj@.len(),
            gs@.len() == k,
            forall|l: int, i: int|
                0 <= l < m && 0 <= i < comps@[l]@.len() ==> #[trigger] comps@[l]@[i] < adj@.len(),
            forall|l: int|
                0 <= l < k ==> names_component(names, comps@[l], name::texts((#[trigger] gs@[l])@)),
        decreases m - k,
    {
        let ghost before = gs@;
        let group = group_names(&all, &comps[k]);
        gs.push(group);
        proof {
            assert forall|l: int| 0 <= l < k + 1 implies names_component(
                names,
                comps@[l],
                name::texts((#[trigger] gs@[l])@),
            ) by {
                if l < k {
                    assert(gs@[l] == before[l]);
                }
            }
        }
        k += 1;
    }
    proof {
        let ls = lists(gs@);
        assert forall|l: int| 0 <= l < m implies names_component(names, comps@[l], #[trigger] ls[l]) by {
            assert(gs@[l] == gs@[l]);
            assert(ls[l] == name::texts(gs@[l]@));
        }
        lemma_groups(d, names, adj@, comps@, ls);
    }
    gs
}

/// The names of a component in their order.
fn group_names(all: &NameSet, comp: &Vec<usize>) -> (r: Vec<Name>)
    requires
        forall|i: int| 0 <= i < comp@.len() ==> #[trigger] comp@[i] < all.names().len(),
    ensures
        names_component(all.names(), *comp, name::texts(r@)),
{
    let mut set = NameSet::new();
    let n: usize = comp.len();
    let ghost names = all.names();
    let mut i: usize = 0;
    while i < n
        invariant
            i <= n,
            n == comp@.len(),
            names == all.names(),
            forall|j: int| 0 <= j < comp@.len() ==> #[trigger] comp@[j] < names.len(),
            forall|x: Str| #[trigger]
                set@.contains(x) <==> exists|j: int| 0 <= j < i && names[#[trigger] comp@[j] as int] == x,
        decreases n - i,
    {
        let ghost before = set@;
        set.insert(all.name_at(comp[i]).clone());
        proof {
            assert forall|x: Str| #[trigger] set@.contains(x) <==> exists|j: int|
                0 <= j < i + 1 && names[#[trigger] comp@[j] as int] == x by {
                if before.contains(x) {
                    let j = choose|j: int| 0 <= j < i && names[#[trigger] comp@[j] as int] == x;
                    assert(names[comp@[j] as int] == x);
                }
                if x == names[comp@[i as int] as int] {
                    assert(names[comp@[i as int] as int] == x);
                }
            }
        }
        i += 1;
    }
    let r = set.to_vec();
    let len: usize = set.len();
    proof {
        assert forall|x: Str| #[trigger] name::texts(r@).contains(x) <==> exists|j: int|
            0 <= j < comp@.len() && names[#[trigger] comp@[j] as int] == x by {
            assert(name::texts(r@).to_set().contains(x) <==> set@.contains(x));
        }
    }
    r
}

/* Recursion */

/// The name depends on itself, directly or through others.
pub open spec fn is_recursive(d: Deps, x: Str) -> bool {
    exists|y: Str| #[trigger] dep(d, x, y) && needs(d, y, x)
}

pub proof fn lemma_needs_trans(d: Deps, x: Str, y: Str, z: Str)
    requires
        needs(d, x, y),
        needs(d, y, z),
    ensures
        needs(d, x, z),
{
    let p = choose|p: Seq<Str>| #[trigger]
        is_chain(d, p) && p.len() > 0 && p[0] == x && p.last() == y;
    let q = choose|q: Seq<Str>| #[trigger]
        is_chain(d, q) && q.len() > 0 && q[0] == y && q.last() == z;
    let r = p + q.drop_first();
    assert forall|i: int| 0 <= i < r.len() - 1 implies dep(d, #[trigger] r[i], r[i + 1]) by {
        if i < p.len() - 1 {
            assert(dep(d, p[i], p[i + 1]));
        } else {
            let j = i - (p.len() - 1);
            assert(dep(d, q[j], q[j + 1]));
            assert(r[i] == q[j]);
        }
    }
    assert(is_chain(d, r));
    assert(r[0] == x && r.last() == z);
}

pub proof fn lemma_dep_needs(d: Deps, x: Str, y: Str)
    requires
        dep(d, x, y),
    ensures
        needs(d, x, y),
{
    let p = seq![x, y];
    assert(is_chain(d, p));
    assert(p[0] == x && p.last() == y);
}

/// A name in a group depends on itself if the group is not it alone, or if it
/// is one of its own dependencies.
pub proof fn lemma_recursive_group(d: Deps, gs: Seq<Seq<Str>>, k: int, x: Str)
    requires
        is_partition(d, gs),
        0 <= k < gs.len(),
        gs[k].contains(x),
    ensures
        is_recursive(d, x) <==> gs[k].len() > 1 || dep(d, x, x),
{
    let g = gs[k];
    if g.len() > 1 {
        let i = choose|i: int| 0 <= i < g.len() && g[i] == x;
        let j: int = if i == 0 {
            1
        } else {
            0
        };
        let y = g[j];
        name::lemma_sorted_no_duplicates(g);
        assert(g.contains(y) && x != y);
        assert(nodes(d).contains(y));
        assert(tied(d, x, y));
        let p = choose|p: Seq<Str>| #[trigger]
            is_chain(d, p) && p.len() > 0 && p[0] == x && p.last() == y;
        let q = p.drop_first();
        assert(dep(d, p[0], p[0int + 1]));
        assert forall|m: int| 0 <= m < q.len() - 1 implies dep(d, #[trigger] q[m], q[m + 1]) by {
            assert(dep(d, p[m + 1], p[m + 1 + 1]));
        }
        assert(is_chain(d, q));
        assert(q[0] == p[1] && q.last() == y);
        lemma_needs_trans(d, p[1], y, x);
    }
    if dep(d, x, x) {
        lemma_dep_needs(d, x, x);
    }
    if is_recursive(d, x) {
        let y = choose|y: Str| #[trigger] dep(d, x, y) && needs(d, y, x);
        if y != x {
            lemma_dep_needs(d, x, y);
            assert(nodes(d).contains(y));
            assert(g.contains(y));
            let i = choose|i: int| 0 <= i < g.len() && g[i] == x;
            let j = choose|j: int| 0 <= j < g.len() && g[j] == y;
            assert(g.len() > 1);
        }
    }
}

pub proof fn lemma_needs_nodes(d: Deps, x: Str, y: Str)
    requires
        nodes(d).contains(x),
        needs(d, x, y),
    ensures
        nodes(d).contains(y),
{
    let p = choose|p: Seq<Str>| #[trigger]
        is_chain(d, p) && p.len() > 0 && p[0] == x && p.last() == y;
    if p.len() > 1 {
        assert(dep(d, p[p.len() - 2], p[p.len() - 2 + 1]));
    }
}

/// No two groups share a name.
pub proof fn lemma_disjoint(d: Deps, gs: Seq<Seq<Str>>, i: int, j: int, x: Str)
    requires
        is_groups(d, gs),
        0 <= i < gs.len(),
        0 <= j < gs.len(),
        gs[i].contains(x),
        gs[j].contains(x),
    ensures
        i == j,
{
    assert forall|y: Str| gs[i].contains(y) <==> gs[j].contains(y) by {
        if gs[i].contains(y) || gs[j].contains(y) {
            assert(nodes(d).contains(y));
            assert(gs[i].contains(y) <==> tied(d, x, y));
            assert(gs[j].contains(y) <==> tied(d, x, y));
        }
    }
    assert(gs[i].to_set() =~= gs[j].to_set());
    name::lemma_sorted_unique(gs[i], gs[j]);
    let done = finish_order(d);
    if i < j {
        assert(last_left(done, gs[i]) < last_left(done, gs[j]));
    } else if j < i {
        assert(last_left(done, gs[j]) < last_left(done, gs[i]));
    }
}

} // verus!
