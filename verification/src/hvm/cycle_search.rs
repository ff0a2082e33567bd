//! The search for a cycle through a function of a graph.

use crate::hvm::mutual_recursion;
use crate::hvm::mutual_recursion::Gr;
use crate::indexed;
use crate::name;
use crate::name::Str;
use crate::name_graph;
use crate::name_graph::Deps;
use vstd::prelude::*;

verus! {

/// The dependencies of each function.
pub open spec fn graph_deps(g: Gr) -> Deps {
    Map::new(|x: Str| indexed::keys(g).contains(x), |x: Str| mutual_recursion::deps_list(g, x).to_set())
}

/// The functions that need the function and that it needs.
pub open spec fn component(g: Gr, x: Str) -> Seq<Str> {
    name::in_order(Set::new(|y: Str| name_graph::tied(graph_deps(g), x, y)))
}

/// The first way to go on from a path, without leaving the component or coming
/// to a function twice, that ends with a function which depends on the start
/// of the path. Dependencies are tried in their order, from the given one on.
pub open spec fn search(g: Gr, comp: Seq<Str>, path: Seq<Str>, i: nat) -> Option<Seq<Str>>
    decreases comp.len() - path.len(), mutual_recursion::deps_list(g, path.last()).len() - i,
{
    let ds = mutual_recursion::deps_list(g, path.last());
    if i >= ds.len() {
        None
    } else {
        let y = ds[i as int];
        if !comp.contains(y) {
            search(g, comp, path, i + 1)
        } else if y == path[0] && path.len() > 1 {
            Some(path)
        } else if !path.contains(y) && path.len() < comp.len() {
            match search(g, comp, path.push(y), 0) {
                Some(p) => Some(p),
                None => search(g, comp, path, i + 1),
            }
        } else {
            search(g, comp, path, i + 1)
        }
    }
}

/// The first cycle through a function.
pub open spec fn first_cycle(g: Gr, x: Str) -> Seq<Str> {
    match search(g, component(g, x), seq![x], 0) {
        Some(p) => p,
        None => component(g, x),
    }
}

/// The function depends on itself and comes before all others that are tied to
/// it.
pub open spec fn is_leader(g: Gr, i: int) -> bool {
    let x = g[i].0;
    &&& name_graph::is_recursive(graph_deps(g), x)
    &&& forall|j: int| 0 <= j < i ==> !name_graph::tied(graph_deps(g), x, #[trigger] g[j].0)
}

/// Nothing else is tied to the function.
pub open spec fn is_lone(g: Gr, x: Str) -> bool {
    forall|y: Str| #[trigger] name_graph::tied(graph_deps(g), x, y) ==> y == x
}

/// The cycles of more than one function that begin with one of the first
/// functions.
pub open spec fn long_cycles(g: Gr, n: nat) -> Seq<Seq<Str>>
    decreases n,
{
    if n == 0 {
        Seq::empty()
    } else {
        let i = n - 1;
        let cs = long_cycles(g, (n - 1) as nat);
        if is_leader(g, i) && !is_lone(g, g[i].0) {
            cs.push(first_cycle(g, g[i].0))
        } else {
            cs
        }
    }
}

/// The first functions that are a cycle by themselves.
pub open spec fn lone_cycles(g: Gr, n: nat) -> Seq<Seq<Str>>
    decreases n,
{
    if n == 0 {
        Seq::empty()
    } else {
        let i = n - 1;
        let cs = lone_cycles(g, (n - 1) as nat);
        if is_leader(g, i) && is_lone(g, g[i].0) {
            cs.push(seq![g[i].0])
        } else {
            cs
        }
    }
}

/// A cycle for each recursive component. Those of more than one function come
/// first. Otherwise they come in the order of the first function of each.
pub open spec fn graph_cycles(g: Gr) -> Seq<Seq<Str>> {
    long_cycles(g, g.len()) + lone_cycles(g, g.len())
}

/// A path of different functions of the component.
pub open spec fn is_path_in(comp: Seq<Str>, path: Seq<Str>) -> bool {
    &&& path.len() > 0
    &&& path.no_duplicates()
    &&& forall|i: int| 0 <= i < path.len() ==> comp.contains(#[trigger] path[i])
}

pub proof fn lemma_path_len(comp: Seq<Str>, path: Seq<Str>, y: Str)
    requires
        is_path_in(comp, path),
        comp.contains(y),
        !path.contains(y),
    ensures
        path.len() < comp.len(),
        is_path_in(comp, path.push(y)),
{
    let p = path.push(y);
    assert(p.no_duplicates());
    assert forall|i: int| 0 <= i < p.len() implies comp.contains(#[trigger] p[i]) by {
        if i < path.len() {
            assert(comp.contains(path[i]));
        }
    }
    p.unique_seq_to_set();
    vstd::seq_lib::seq_to_set_is_finite(comp);
    assert(p.to_set().subset_of(comp.to_set())) by {
        assert forall|z: Str| p.to_set().contains(z) implies comp.to_set().contains(z) by {
            let i = choose|i: int| 0 <= i < p.len() && p[i] == z;
            assert(comp.contains(p[i]));
        }
    }
    vstd::set_lib::lemma_len_subset(p.to_set(), comp.to_set());
    comp.lemma_cardinality_of_set();
}

/* What the search finds */

/// The path follows dependencies, and its last function depends on its first.
pub open spec fn is_cycle(d: Deps, path: Seq<Str>) -> bool {
    &&& path.len() > 0
    &&& path.no_duplicates()
    &&& name_graph::is_chain(d, path)
    &&& name_graph::dep(d, path.last(), path[0])
}

proof fn lemma_dep(g: Gr, x: Str, i: int)
    requires
        0 <= i < mutual_recursion::deps_list(g, x).len(),
    ensures
        name_graph::dep(graph_deps(g), x, mutual_recursion::deps_list(g, x)[i]),
{
    assert(mutual_recursion::deps_list(g, x).to_set().contains(mutual_recursion::deps_list(g, x)[i]));
}

proof fn lemma_chain_push(d: Deps, path: Seq<Str>, y: Str)
    requires
        path.len() > 0,
        name_graph::is_chain(d, path),
        name_graph::dep(d, path.last(), y),
    ensures
        name_graph::is_chain(d, path.push(y)),
{
    let p = path.push(y);
    assert forall|i: int| 0 <= i < p.len() - 1 implies name_graph::dep(d, #[trigger] p[i], p[i + 1]) by {
        if i < path.len() - 1 {
            assert(name_graph::dep(d, path[i], path[i + 1]));
        }
    }
}

/// What is found goes on from the path and is a cycle.
pub proof fn lemma_search_sound(g: Gr, comp: Seq<Str>, path: Seq<Str>, i: nat)
    requires
        is_path_in(comp, path),
        name_graph::is_chain(graph_deps(g), path),
    ensures
        search(g, comp, path, i) matches Some(p) ==> {
            &&& is_cycle(graph_deps(g), p)
            &&& is_path_in(comp, p)
            &&& p[0] == path[0]
            &&& p.len() > 1
        },
    decreases comp.len() - path.len(), mutual_recursion::deps_list(g, path.last()).len() - i,
{
    let ds = mutual_recursion::deps_list(g, path.last());
    if i < ds.len() {
        let y = ds[i as int];
        lemma_dep(g, path.last(), i as int);
        if comp.contains(y) && y == path[0] && path.len() > 1 {
        } else {
            lemma_search_sound(g, comp, path, i + 1);
            if comp.contains(y) && !path.contains(y) && path.len() < comp.len() {
                lemma_path_len(comp, path, y);
                lemma_chain_push(graph_deps(g), path, y);
                lemma_search_sound(g, comp, path.push(y), 0);
            }
        }
    }
}

/// The function that follows the end of a path, when it goes on with `rest`
/// and then closes.
pub open spec fn next_of(path: Seq<Str>, rest: Seq<Str>) -> Str {
    if rest.len() > 0 {
        rest[0]
    } else {
        path[0]
    }
}

/// The path can go on with `rest` and then close.
pub open spec fn goes_on(d: Deps, comp: Seq<Str>, path: Seq<Str>, rest: Seq<Str>) -> bool {
    &&& rest.no_duplicates()
    &&& forall|i: int| 0 <= i < rest.len() ==> comp.contains(#[trigger] rest[i])
    &&& forall|i: int| 0 <= i < rest.len() ==> !path.contains(#[trigger] rest[i])
    &&& name_graph::dep(d, path.last(), next_of(path, rest))
    &&& name_graph::is_chain(d, rest)
    &&& rest.len() > 0 ==> name_graph::dep(d, rest.last(), path[0])
    &&& path.len() + rest.len() > 1
}

/// Something is found if there is a way to go on.
proof fn lemma_search_complete(
    g: Gr,
    comp: Seq<Str>,
    path: Seq<Str>,
    rest: Seq<Str>,
    i: nat,
    j: int,
)
    requires
        is_path_in(comp, path),
        goes_on(graph_deps(g), comp, path, rest),
        i <= j < mutual_recursion::deps_list(g, path.last()).len(),
        mutual_recursion::deps_list(g, path.last())[j] == next_of(path, rest),
    ensures
        search(g, comp, path, i) is Some,
    decreases rest.len(), j - i,
{
    let d = graph_deps(g);
    let ds = mutual_recursion::deps_list(g, path.last());
    let y = ds[i as int];
    assert(comp.contains(path[0]));
    if i < j {
        lemma_search_complete(g, comp, path, rest, i + 1, j);
    } else if rest.len() > 0 {
        assert(comp.contains(rest[0]) && !path.contains(rest[0]));
        lemma_path_len(comp, path, y);
        let (p, r) = (path.push(y), rest.drop_first());
        assert(y != path[0]) by {
            assert(path.contains(path[0]));
        }
        assert(r.no_duplicates());
        assert forall|k: int| 0 <= k < r.len() implies comp.contains(#[trigger] r[k]) && !p.contains(
            r[k],
        ) by {
            assert(r[k] == rest[k + 1]);
            assert(comp.contains(rest[k + 1]) && !path.contains(rest[k + 1]));
            mutual_recursion::lemma_contains_push(path, y, r[k]);
        }
        assert forall|k: int| 0 <= k < r.len() - 1 implies name_graph::dep(
            d,
            #[trigger] r[k],
            r[k + 1],
        ) by {
            assert(name_graph::dep(d, rest[k + 1], rest[k + 1 + 1]));
        }
        assert(name_graph::dep(d, y, next_of(p, r))) by {
            if r.len() > 0 {
                assert(name_graph::dep(d, rest[0], rest[0int + 1]));
            }
        }
        assert(goes_on(d, comp, p, r));
        let es = mutual_recursion::deps_list(g, y);
        assert(es.to_set().contains(next_of(p, r)));
        let k = choose|k: int| 0 <= k < es.len() && es[k] == next_of(p, r);
        lemma_search_complete(g, comp, p, r, 0, k);
    }
}

/// A chain without repetitions with the same ends.
proof fn lemma_simple_chain(d: Deps, p: Seq<Str>) -> (q: Seq<Str>)
    requires
        name_graph::is_chain(d, p),
        p.len() > 0,
    ensures
        name_graph::is_chain(d, q),
        q.len() > 0,
        q.no_duplicates(),
        q[0] == p[0],
        q.last() == p.last(),
    decreases p.len(),
{
    if p.no_duplicates() {
        p
    } else {
        let (i, j) = choose|i: int, j: int|
            0 <= i < p.len() && 0 <= j < p.len() && i != j && p[i] == p[j];
        let (a, b) = if i < j {
            (i, j)
        } else {
            (j, i)
        };
        let r = p.take(a + 1) + p.skip(b + 1);
        assert forall|k: int| 0 <= k < r.len() - 1 implies name_graph::dep(
            d,
            #[trigger] r[k],
            r[k + 1],
        ) by {
            if k < a {
                assert(name_graph::dep(d, p[k], p[k + 1]));
            } else {
                let m = k + b - a;
                assert(name_graph::dep(d, p[m], p[m + 1]));
                assert(r[k + 1] == p[m + 1]);
                if k > a {
                    assert(r[k] == p[m]);
                }
            }
        }
        assert(name_graph::is_chain(d, r));
        assert(r[0] == p[0]);
        assert(r.last() == p.last()) by {
            if b + 1 < p.len() {
                assert(r.last() == p.skip(b + 1).last());
            }
        }
        lemma_simple_chain(d, r)
    }
}

/// The suffix of a chain shows that each of its functions needs the last one,
/// and the prefix that the first one needs it.
pub proof fn lemma_on_chain(d: Deps, p: Seq<Str>, i: int)
    requires
        name_graph::is_chain(d, p),
        0 <= i < p.len(),
    ensures
        name_graph::needs(d, p[0], p[i]),
        name_graph::needs(d, p[i], p.last()),
{
    let (a, b) = (p.take(i + 1), p.skip(i));
    assert forall|k: int| 0 <= k < a.len() - 1 implies name_graph::dep(d, #[trigger] a[k], a[k + 1]) by {
        assert(name_graph::dep(d, p[k], p[k + 1]));
    }
    assert forall|k: int| 0 <= k < b.len() - 1 implies name_graph::dep(d, #[trigger] b[k], b[k + 1]) by {
        assert(name_graph::dep(d, p[i + k], p[i + k + 1]));
    }
    assert(name_graph::is_chain(d, a) && name_graph::is_chain(d, b));
    assert(a[0] == p[0] && a.last() == p[i]);
    assert(b[0] == p[i] && b.last() == p.last());
}

/// There is a cycle through a function that others are tied to.
pub proof fn lemma_cycle_exists(g: Gr, comp: Seq<Str>, x: Str)
    requires
        forall|y: Str| #[trigger]
            comp.contains(y) <==> name_graph::tied(graph_deps(g), x, y),
        !is_lone(g, x),
    ensures
        search(g, comp, seq![x], 0) is Some,
{
    let d = graph_deps(g);
    let y = choose|y: Str| #[trigger] name_graph::tied(d, x, y) && y != x;
    let p0 = choose|p: Seq<Str>| #[trigger]
        name_graph::is_chain(d, p) && p.len() > 0 && p[0] == x && p.last() == y;
    let p = lemma_simple_chain(d, p0);
    let z = p[1];
    assert(name_graph::dep(d, p[0], p[0int + 1]));
    assert(z != x);
    lemma_on_chain(d, p, 1);
    name_graph::lemma_needs_trans(d, z, y, x);
    let q0 = choose|q: Seq<Str>| #[trigger]
        name_graph::is_chain(d, q) && q.len() > 0 && q[0] == z && q.last() == x;
    let q = lemma_simple_chain(d, q0);
    let rest = q.drop_last();
    let path = seq![x];
    assert forall|i: int| 0 <= i < rest.len() implies comp.contains(#[trigger] rest[i]) && !path.contains(
        rest[i],
    ) by {
        assert(rest[i] == q[i]);
        lemma_on_chain(d, q, i);
        name_graph::lemma_dep_needs(d, x, z);
        name_graph::lemma_needs_trans(d, x, z, q[i]);
        assert(name_graph::tied(d, x, q[i]));
        assert(q[q.len() - 1] == x);
    }
    assert forall|k: int| 0 <= k < rest.len() - 1 implies name_graph::dep(
        d,
        #[trigger] rest[k],
        rest[k + 1],
    ) by {
        assert(name_graph::dep(d, q[k], q[k + 1]));
    }
    assert(name_graph::dep(d, q[q.len() - 2], q[q.len() - 2 + 1]));
    assert(rest[0] == z && rest.last() == q[q.len() - 2]);
    assert(path.last() == x && path[0] == x);
    assert(goes_on(d, comp, path, rest));
    name_graph::lemma_needs_refl(d, x);
    assert(comp.contains(x));
    assert(is_path_in(comp, path));
    let ds = mutual_recursion::deps_list(g, x);
    assert(ds.to_set().contains(z));
    let k = choose|k: int| 0 <= k < ds.len() && ds[k] == z;
    lemma_search_complete(g, comp, path, rest, 0, k);
}

pub proof fn lemma_component(g: Gr, comp: Seq<Str>, x: Str)
    requires
        name::sorted(comp),
        forall|y: Str| #[trigger]
            comp.contains(y) <==> name_graph::tied(graph_deps(g), x, y),
    ensures
        component(g, x) == comp,
{
    name::lemma_in_order(comp);
    assert(comp.to_set() =~= Set::new(|y: Str| name_graph::tied(graph_deps(g), x, y)));
}

/// A function of a group is lone if and only if the group is it alone.
pub proof fn lemma_lone(g: Gr, gs: Seq<Seq<Str>>, k: int, x: Str)
    requires
        name_graph::is_partition(graph_deps(g), gs),
        0 <= k < gs.len(),
        gs[k].contains(x),
    ensures
        is_lone(g, x) <==> gs[k].len() == 1,
        forall|y: Str| #[trigger]
            gs[k].contains(y) <==> name_graph::tied(graph_deps(g), x, y),
{
    let d = graph_deps(g);
    assert forall|y: Str| #[trigger] gs[k].contains(y) <==> name_graph::tied(d, x, y) by {
        if name_graph::tied(d, x, y) {
            name_graph::lemma_needs_nodes(d, x, y);
        }
    }
    let i = choose|i: int| 0 <= i < gs[k].len() && gs[k][i] == x;
    if gs[k].len() > 1 {
        let j: int = if i == 0 {
            1
        } else {
            0
        };
        name::lemma_sorted_no_duplicates(gs[k]);
        assert(gs[k].contains(gs[k][j]));
        assert(name_graph::tied(d, x, gs[k][j]));
    } else {
        assert forall|y: Str| #[trigger] name_graph::tied(d, x, y) implies y == x by {
            assert(gs[k].contains(y));
        }
    }
}

} // verus!
