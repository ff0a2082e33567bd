//! Which cycles of a graph are found, and in which order.

use crate::hvm::cycle_laws;
use crate::hvm::cycle_search;
use crate::hvm::mutual_recursion;
use crate::hvm::mutual_recursion::Gr;
use crate::indexed;
use crate::name::Str;
use crate::name_graph;
use vstd::prelude::*;

verus! {

/* The order of the cycles */

/// The place of a function in a graph.
pub open spec fn place_of(g: Gr, x: Str) -> int {
    indexed::keys(g).index_of(x)
}

proof fn lemma_place(g: Gr, i: int)
    requires
        mutual_recursion::is_graph(g),
        0 <= i < g.len(),
    ensures
        place_of(g, g[i].0) == i,
{
    let ks = indexed::keys(g);
    assert(ks[i] == g[i].0);
    assert(ks.contains(g[i].0));
}

/// The cycles begin with functions before a place, one after the other.
spec fn in_turn(g: Gr, cs: Seq<Seq<Str>>, n: int, lone: bool) -> bool {
    &&& forall|k: int|
        0 <= k < cs.len() ==> {
            &&& 0 <= place_of(g, (#[trigger] cs[k])[0]) < n
            &&& cycle_laws::is_led_by(g, cs[k], place_of(g, cs[k][0]))
            &&& (cs[k].len() == 1 <==> lone)
        }
    &&& forall|k: int, l: int|
        0 <= k < l < cs.len() ==> place_of(g, (#[trigger] cs[k])[0]) < place_of(
            g,
            (#[trigger] cs[l])[0],
        )
}

proof fn lemma_in_turn(g: Gr, n: nat)
    requires
        mutual_recursion::is_graph(g),
        n <= g.len(),
    ensures
        in_turn(g, cycle_search::long_cycles(g, n), n as int, false),
        in_turn(g, cycle_search::lone_cycles(g, n), n as int, true),
    decreases n,
{
    if n > 0 {
        let i = n - 1;
        lemma_in_turn(g, (n - 1) as nat);
        lemma_place(g, i);
        if cycle_search::is_leader(g, i) {
            if cycle_search::is_lone(g, g[i].0) {
                cycle_laws::lemma_lone_cycle(g, i);
            } else {
                cycle_laws::lemma_long(g, i);
            }
        }
    }
}

/// The cycles of more than one function come before those of one. Cycles of the
/// same kind come in the order of their first functions in the graph.
pub proof fn law_cycles_in_order(g: Gr, k: int, l: int)
    requires
        mutual_recursion::is_graph(g),
        0 <= k < l < cycle_search::graph_cycles(g).len(),
    ensures
        ({
            let (b, c) = (cycle_search::graph_cycles(g)[k], cycle_search::graph_cycles(g)[l]);
            ||| b.len() > 1 && c.len() == 1
            ||| (b.len() == 1 <==> c.len() == 1) && place_of(g, b[0]) < place_of(g, c[0])
        }),
{
    lemma_in_turn(g, g.len());
    let (a, b) = (
        cycle_search::long_cycles(g, g.len()),
        cycle_search::lone_cycles(g, g.len()),
    );
    let cs = cycle_search::graph_cycles(g);
    if k < a.len() {
        assert(cs[k] == a[k]);
    } else {
        assert(cs[k] == b[k - a.len()]);
    }
    if l < a.len() {
        assert(cs[l] == a[l]);
    } else {
        assert(cs[l] == b[l - a.len()]);
    }
}

/// A cycle begins with the first function in the graph of those that are tied to
/// it, and has one function if and only if there is no other.
pub proof fn law_cycle_begins(g: Gr, k: int, y: Str)
    requires
        mutual_recursion::is_graph(g),
        0 <= k < cycle_search::graph_cycles(g).len(),
    ensures
        ({
            let c = cycle_search::graph_cycles(g)[k];
            let d = cycle_search::graph_deps(g);
            &&& c.len() > 0
            &&& name_graph::tied(d, c[0], y) ==> place_of(g, c[0]) <= place_of(g, y)
            &&& c.len() == 1 && name_graph::tied(d, c[0], y) ==> y == c[0]
            &&& c.len() > 1 ==> exists|z: Str| #[trigger] name_graph::tied(d, c[0], z) && z != c[0]
        }),
{
    lemma_in_turn(g, g.len());
    let (a, b) = (
        cycle_search::long_cycles(g, g.len()),
        cycle_search::lone_cycles(g, g.len()),
    );
    let c = cycle_search::graph_cycles(g)[k];
    let d = cycle_search::graph_deps(g);
    if k < a.len() {
        assert(c == a[k]);
    } else {
        assert(c == b[k - a.len()]);
    }
    let i = place_of(g, c[0]);
    assert(cycle_laws::is_led_by(g, c, i));
    if name_graph::tied(d, c[0], y) {
        assert(indexed::keys(g)[i] == c[0]);
        cycle_laws::lemma_component_of(g, c[0]);
        assert(indexed::keys(g).contains(y));
        let j = place_of(g, y);
        assert(indexed::keys(g)[j] == y);
        if j < i {
            assert(!name_graph::tied(d, g[i].0, g[j].0));
        }
    }
}

/* The first way */

/// The function that follows at a place of a cycle: after the last one, the first
/// one.
pub open spec fn next_at(p: Seq<Str>, k: int) -> Str {
    if k < p.len() {
        p[k]
    } else {
        p[0]
    }
}

/// The place of a dependency among those of a function.
pub open spec fn rank(g: Gr, x: Str, y: Str) -> int {
    mutual_recursion::deps_list(g, x).index_of(y)
}

/// The two cycles go the same way for some functions, and then the first one goes
/// to a dependency that comes earlier.
pub open spec fn parts_earlier(g: Gr, p: Seq<Str>, q: Seq<Str>, k: int) -> bool {
    &&& 1 <= k <= p.len()
    &&& k <= q.len()
    &&& p.take(k) == q.take(k)
    &&& rank(g, p[k - 1], next_at(p, k)) < rank(g, q[k - 1], next_at(q, k))
}

proof fn lemma_search_prefix(g: Gr, comp: Seq<Str>, path: Seq<Str>, i: nat)
    requires
        path.len() > 0,
    ensures
        match cycle_search::search(g, comp, path, i) {
            Some(p) => p.len() >= path.len() && p.take(path.len() as int) == path,
            None => true,
        },
    decreases comp.len() - path.len(), mutual_recursion::deps_list(g, path.last()).len() - i,
{
    let ds = mutual_recursion::deps_list(g, path.last());
    if i < ds.len() {
        let y = ds[i as int];
        if comp.contains(y) && y == path[0] && path.len() > 1 {
            assert(path.take(path.len() as int) =~= path);
        } else {
            lemma_search_prefix(g, comp, path, i + 1);
            if comp.contains(y) && !path.contains(y) && path.len() < comp.len() {
                lemma_search_prefix(g, comp, path.push(y), 0);
                if let Some(p) = cycle_search::search(g, comp, path.push(y), 0) {
                    assert(p.take(path.len() as int) =~= p.take(path.len() as int + 1).take(
                        path.len() as int,
                    ));
                    assert(path.push(y).take(path.len() as int) =~= path);
                }
            }
        }
    }
}

proof fn lemma_rank(g: Gr, x: Str, i: int)
    requires
        mutual_recursion::is_graph(g),
        0 <= i < mutual_recursion::deps_list(g, x).len(),
    ensures
        rank(g, x, mutual_recursion::deps_list(g, x)[i]) == i,
{
    let ds = mutual_recursion::deps_list(g, x);
    let ks = indexed::keys(g);
    assert(ks.contains(x));
    let k = ks.index_of(x);
    assert(g[k].1.no_duplicates());
    assert(ds.contains(ds[i]));
}

/// What is found is the given way to go on or parts from it earlier.
proof fn lemma_search_first(
    g: Gr,
    comp: Seq<Str>,
    path: Seq<Str>,
    rest: Seq<Str>,
    i: nat,
    j: int,
)
    requires
        mutual_recursion::is_graph(g),
        cycle_search::is_path_in(comp, path),
        cycle_search::goes_on(cycle_search::graph_deps(g), comp, path, rest),
        i <= j < mutual_recursion::deps_list(g, path.last()).len(),
        mutual_recursion::deps_list(g, path.last())[j] == cycle_search::next_of(path, rest),
    ensures
        match cycle_search::search(g, comp, path, i) {
            Some(p) => p == path + rest || exists|k: int| #[trigger]
                parts_earlier(g, p, path + rest, k),
            None => false,
        },
    decreases rest.len(), j - i,
{
    let d = cycle_search::graph_deps(g);
    let ds = mutual_recursion::deps_list(g, path.last());
    let y = ds[i as int];
    let n = path.len() as int;
    let q = path + rest;
    assert(comp.contains(path[0]));
    assert(q.take(n) =~= path);
    assert(next_at(q, n) == cycle_search::next_of(path, rest));
    lemma_rank(g, path.last(), i as int);
    lemma_rank(g, path.last(), j);
    if i < j {
        if comp.contains(y) && y == path[0] && path.len() > 1 {
            assert(path.take(n) =~= path);
            assert(parts_earlier(g, path, q, n));
        } else if comp.contains(y) && !path.contains(y) && path.len() < comp.len() {
            match cycle_search::search(g, comp, path.push(y), 0) {
                Some(p) => {
                    lemma_search_prefix(g, comp, path.push(y), 0);
                    assert(p.take(n) =~= p.take(n + 1).take(n));
                    assert(path.push(y).take(n) =~= path);
                    assert(p.take(n + 1)[n] == path.push(y)[n]);
                    assert(p[n - 1] == p.take(n)[n - 1]);
                    assert(parts_earlier(g, p, q, n));
                },
                None => {
                    lemma_search_first(g, comp, path, rest, i + 1, j);
                },
            }
        } else {
            lemma_search_first(g, comp, path, rest, i + 1, j);
        }
    } else if rest.len() > 0 {
        assert(comp.contains(rest[0]) && !path.contains(rest[0]));
        cycle_search::lemma_path_len(comp, path, y);
        let (p, r) = (path.push(y), rest.drop_first());
        assert(y != path[0]) by {
            assert(path.contains(path[0]));
        }
        assert(r.no_duplicates());
        assert forall|k: int| 0 <= k < r.len() implies comp.contains(#[trigger] r[k]) && !p.contains(
            r[k],
        ) by {
            assert(r[k] == rest[k + 1]);
            assert(comp.contains(rest[k + 1]) && !path.contains(rest[k + 1]));
            mutual_recursion::lemma_contains_push(path, y, r[k]);
        }
        assert forall|k: int| 0 <= k < r.len() - 1 implies name_graph::dep(
            d,
            #[trigger] r[k],
            r[k + 1],
        ) by {
            assert(name_graph::dep(d, rest[k + 1], rest[k + 1 + 1]));
        }
        assert(name_graph::dep(d, y, cycle_search::next_of(p, r))) by {
            if r.len() > 0 {
                assert(name_graph::dep(d, rest[0], rest[0int + 1]));
            }
        }
        assert(cycle_search::goes_on(d, comp, p, r));
        let es = mutual_recursion::deps_list(g, y);
        assert(es.to_set().contains(cycle_search::next_of(p, r)));
        let k = choose|k: int| 0 <= k < es.len() && es[k] == cycle_search::next_of(p, r);
        lemma_search_first(g, comp, p, r, 0, k);
        assert(p + r =~= q);
    } else {
        assert(q =~= path);
    }
}

/// Of all cycles through the first function of one that is found, that one is the
/// first: every other one goes the same way for some functions and then to a
/// dependency that comes later.
pub proof fn law_cycle_is_first(g: Gr, k: int, q: Seq<Str>)
    requires
        mutual_recursion::is_graph(g),
        0 <= k < cycle_search::graph_cycles(g).len(),
        cycle_search::graph_cycles(g)[k].len() > 1,
        cycle_search::is_cycle(cycle_search::graph_deps(g), q),
        q.len() > 1,
        q[0] == cycle_search::graph_cycles(g)[k][0],
    ensures
        q == cycle_search::graph_cycles(g)[k] || exists|n: int| #[trigger]
            parts_earlier(g, cycle_search::graph_cycles(g)[k], q, n),
{
    let c = cycle_search::graph_cycles(g)[k];
    let d = cycle_search::graph_deps(g);
    let x = c[0];
    lemma_in_turn(g, g.len());
    lemma_long_is_first(g, g.len(), k);
    let i = place_of(g, x);
    assert(cycle_laws::is_led_by(g, c, i));
    assert(indexed::keys(g)[i] == x);
    cycle_laws::lemma_component_of(g, x);
    let comp = cycle_search::component(g, x);
    let (path, rest) = (seq![x], q.drop_first());
    assert(path + rest =~= q);
    name_graph::lemma_needs_refl(d, x);
    assert(comp.contains(x));
    assert(cycle_search::is_path_in(comp, path));
    assert forall|j: int| 0 <= j < rest.len() implies comp.contains(#[trigger] rest[j])
        && !path.contains(rest[j]) by {
        assert(rest[j] == q[j + 1]);
        cycle_search::lemma_on_chain(d, q, j + 1);
        name_graph::lemma_dep_needs(d, q.last(), x);
        name_graph::lemma_needs_trans(d, q[j + 1], q.last(), x);
        assert(q[j + 1] != q[0]);
    }
    assert forall|j: int| 0 <= j < rest.len() - 1 implies name_graph::dep(
        d,
        #[trigger] rest[j],
        rest[j + 1],
    ) by {
        assert(name_graph::dep(d, q[j + 1], q[j + 1 + 1]));
    }
    assert(name_graph::dep(d, q[0], q[0int + 1]));
    assert(cycle_search::goes_on(d, comp, path, rest));
    let ds = mutual_recursion::deps_list(g, x);
    assert(ds.to_set().contains(rest[0]));
    let j = choose|j: int| 0 <= j < ds.len() && ds[j] == rest[0];
    lemma_search_first(g, comp, path, rest, 0, j);
}

/// The cycles of more than one function are what the search finds.
proof fn lemma_long_is_first(g: Gr, n: nat, k: int)
    requires
        mutual_recursion::is_graph(g),
        n == g.len(),
        0 <= k < cycle_search::graph_cycles(g).len(),
        cycle_search::graph_cycles(g)[k].len() > 1,
    ensures
        ({
            let c = cycle_search::graph_cycles(g)[k];
            c == cycle_search::first_cycle(g, c[0])
        }),
{
    lemma_in_turn(g, n);
    let (a, b) = (cycle_search::long_cycles(g, n), cycle_search::lone_cycles(g, n));
    if k >= a.len() {
        assert(cycle_search::graph_cycles(g)[k] == b[k - a.len()]);
    } else {
        assert(cycle_search::graph_cycles(g)[k] == a[k]);
        lemma_long_found(g, n, k);
    }
}

proof fn lemma_long_found(g: Gr, n: nat, k: int)
    requires
        mutual_recursion::is_graph(g),
        n <= g.len(),
        0 <= k < cycle_search::long_cycles(g, n).len(),
    ensures
        ({
            let c = cycle_search::long_cycles(g, n)[k];
            c == cycle_search::first_cycle(g, c[0])
        }),
    decreases n,
{
    let i = n - 1;
    let cs = cycle_search::long_cycles(g, (n - 1) as nat);
    if k < cs.len() {
        lemma_long_found(g, (n - 1) as nat, k);
    } else {
        cycle_laws::lemma_long(g, i);
    }
}

} // verus!
