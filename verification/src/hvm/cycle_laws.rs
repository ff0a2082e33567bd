//! What the cycles of a graph are.

use crate::hvm::ast::Nt;
use crate::hvm::cycle_search;
use crate::hvm::mutual_recursion;
use crate::hvm::mutual_recursion::Gr;
use crate::indexed;
use crate::name;
use crate::name::Str;
use crate::name_graph;
use vstd::prelude::*;

verus! {

/// All functions that are tied to one of the graph are in the graph, and they
/// make up its component.
pub proof fn lemma_component_of(g: Gr, x: Str)
    requires
        mutual_recursion::is_graph(g),
        indexed::keys(g).contains(x),
    ensures
        forall|y: Str| #[trigger]
            cycle_search::component(g, x).contains(y) <==> name_graph::tied(
                cycle_search::graph_deps(g),
                x,
                y,
            ),
        forall|y: Str| #[trigger]
            name_graph::tied(cycle_search::graph_deps(g), x, y) ==> indexed::keys(g).contains(y),
{
    let d = cycle_search::graph_deps(g);
    let ks = indexed::keys(g);
    let s = Set::new(|y: Str| name_graph::tied(d, x, y));
    assert forall|y: Str| #[trigger] name_graph::tied(d, x, y) implies ks.contains(y) by {
        let p = choose|p: Seq<Str>| #[trigger]
            name_graph::is_chain(d, p) && p.len() > 0 && p[0] == x && p.last() == y;
        if p.len() > 1 {
            let z = p[p.len() - 2];
            assert(name_graph::dep(d, p[p.len() - 2], p[p.len() - 2 + 1]));
            let i = ks.index_of(z);
            assert(ks.contains(z));
            assert(g[i].1.contains(y));
        }
    }
    assert(s.subset_of(ks.to_set()));
    vstd::seq_lib::seq_to_set_is_finite(ks);
    vstd::set_lib::lemma_set_subset_finite(ks.to_set(), s);
    name::lemma_finite_in_order(s);
    assert forall|y: Str| #[trigger] cycle_search::component(g, x).contains(y) <==> name_graph::tied(
        d,
        x,
        y,
    ) by {
        assert(cycle_search::component(g, x).to_set().contains(y) <==> s.contains(y));
    }
}

/// The cycle begins with this function, which leads its component.
pub open spec fn is_led_by(g: Gr, c: Seq<Str>, i: int) -> bool {
    &&& 0 <= i < g.len()
    &&& cycle_search::is_leader(g, i)
    &&& cycle_search::is_cycle(cycle_search::graph_deps(g), c)
    &&& c[0] == g[i].0
    &&& c.len() == 1 <==> cycle_search::is_lone(g, g[i].0)
}

pub proof fn lemma_long(g: Gr, i: int)
    requires
        mutual_recursion::is_graph(g),
        0 <= i < g.len(),
        cycle_search::is_leader(g, i),
        !cycle_search::is_lone(g, g[i].0),
    ensures
        is_led_by(g, cycle_search::first_cycle(g, g[i].0), i),
{
    let d = cycle_search::graph_deps(g);
    let x = g[i].0;
    assert(indexed::keys(g)[i] == x);
    lemma_component_of(g, x);
    let comp = cycle_search::component(g, x);
    cycle_search::lemma_cycle_exists(g, comp, x);
    name_graph::lemma_needs_refl(d, x);
    assert(comp.contains(x));
    assert(cycle_search::is_path_in(comp, seq![x]));
    assert(name_graph::is_chain(d, seq![x]));
    cycle_search::lemma_search_sound(g, comp, seq![x], 0);
}

pub proof fn lemma_lone_cycle(g: Gr, i: int)
    requires
        0 <= i < g.len(),
        cycle_search::is_leader(g, i),
        cycle_search::is_lone(g, g[i].0),
    ensures
        is_led_by(g, seq![g[i].0], i),
{
    let d = cycle_search::graph_deps(g);
    let x = g[i].0;
    let y = choose|y: Str| #[trigger] name_graph::dep(d, x, y) && name_graph::needs(d, y, x);
    name_graph::lemma_dep_needs(d, x, y);
    assert(name_graph::tied(d, x, y));
    assert(name_graph::is_chain(d, seq![x]));
}

/// The place of the leader of each cycle.
spec fn is_listed(g: Gr, n: int, cs: Seq<Seq<Str>>, lone: bool) -> bool {
    &&& forall|k: int| 0 <= k < cs.len() ==> has_leader(g, n, #[trigger] cs[k])
    &&& forall|i: int|
        0 <= i < n && #[trigger] cycle_search::is_leader(g, i) && cycle_search::is_lone(g, g[i].0)
            == lone ==> exists|k: int| 0 <= k < cs.len() && is_led_by(g, #[trigger] cs[k], i)
    &&& forall|k: int, l: int|
        0 <= k < l < cs.len() ==> are_apart(g, #[trigger] cs[k], #[trigger] cs[l])
    &&& forall|k: int| 0 <= k < cs.len() ==> ((#[trigger] cs[k]).len() == 1 <==> lone)
}

spec fn has_leader(g: Gr, n: int, c: Seq<Str>) -> bool {
    exists|i: int| i < n && #[trigger] is_led_by(g, c, i)
}

/// The first functions of the cycles are not tied.
spec fn are_apart(g: Gr, b: Seq<Str>, c: Seq<Str>) -> bool {
    !name_graph::tied(cycle_search::graph_deps(g), b[0], c[0])
}

proof fn lemma_apart(g: Gr, b: Seq<Str>, i: int, c: Seq<Str>, j: int)
    requires
        is_led_by(g, b, i),
        is_led_by(g, c, j),
        i != j,
    ensures
        are_apart(g, b, c),
{
    let d = cycle_search::graph_deps(g);
    if name_graph::tied(d, b[0], c[0]) {
        if i < j {
            assert(!name_graph::tied(d, g[j].0, g[i].0));
        } else {
            assert(!name_graph::tied(d, g[i].0, g[j].0));
        }
    }
}

proof fn lemma_push_listed(g: Gr, n: int, cs: Seq<Seq<Str>>, c: Seq<Str>, lone: bool)
    requires
        0 <= n < g.len(),
        is_listed(g, n, cs, lone),
        is_led_by(g, c, n),
        cycle_search::is_lone(g, g[n].0) == lone,
    ensures
        is_listed(g, n + 1, cs.push(c), lone),
{
    let es = cs.push(c);
    assert forall|k: int| 0 <= k < es.len() implies has_leader(g, n + 1, #[trigger] es[k]) by {
        if k < cs.len() {
            assert(has_leader(g, n, cs[k]));
            let i = choose|i: int| i < n && #[trigger] is_led_by(g, cs[k], i);
            assert(i < n + 1 && is_led_by(g, es[k], i));
        } else {
            assert(n < n + 1 && is_led_by(g, es[k], n));
        }
    }
    assert forall|i: int|
        0 <= i < n + 1 && #[trigger] cycle_search::is_leader(g, i) && cycle_search::is_lone(
            g,
            g[i].0,
        ) == lone implies exists|k: int| 0 <= k < es.len() && is_led_by(g, #[trigger] es[k], i) by {
        if i < n {
            let k = choose|k: int| 0 <= k < cs.len() && is_led_by(g, #[trigger] cs[k], i);
            assert(is_led_by(g, es[k], i));
        } else {
            assert(is_led_by(g, es[cs.len() as int], i));
        }
    }
    assert forall|k: int, l: int| 0 <= k < l < es.len() implies are_apart(
        g,
        #[trigger] es[k],
        #[trigger] es[l],
    ) by {
        if l == cs.len() {
            assert(has_leader(g, n, cs[k]));
            let i = choose|i: int| i < n && #[trigger] is_led_by(g, cs[k], i);
            lemma_apart(g, cs[k], i, c, n);
        }
    }
}

proof fn lemma_keep_listed(g: Gr, n: int, cs: Seq<Seq<Str>>, lone: bool)
    requires
        0 <= n < g.len(),
        is_listed(g, n, cs, lone),
        !cycle_search::is_leader(g, n) || cycle_search::is_lone(g, g[n].0) != lone,
    ensures
        is_listed(g, n + 1, cs, lone),
{
    assert forall|k: int| 0 <= k < cs.len() implies has_leader(g, n + 1, #[trigger] cs[k]) by {
        assert(has_leader(g, n, cs[k]));
        let i = choose|i: int| i < n && #[trigger] is_led_by(g, cs[k], i);
        assert(i < n + 1 && is_led_by(g, cs[k], i));
    }
}

proof fn lemma_listed(g: Gr, n: nat)
    requires
        mutual_recursion::is_graph(g),
        n <= g.len(),
    ensures
        is_listed(g, n as int, cycle_search::long_cycles(g, n), false),
        is_listed(g, n as int, cycle_search::lone_cycles(g, n), true),
    decreases n,
{
    if n > 0 {
        let i = n - 1;
        lemma_listed(g, (n - 1) as nat);
        let (a, b) = (
            cycle_search::long_cycles(g, (n - 1) as nat),
            cycle_search::lone_cycles(g, (n - 1) as nat),
        );
        if cycle_search::is_leader(g, i) {
            if cycle_search::is_lone(g, g[i].0) {
                lemma_lone_cycle(g, i);
                lemma_push_listed(g, i, b, seq![g[i].0], true);
                lemma_keep_listed(g, i, a, false);
            } else {
                lemma_long(g, i);
                lemma_push_listed(g, i, a, cycle_search::first_cycle(g, g[i].0), false);
                lemma_keep_listed(g, i, b, true);
            }
        } else {
            lemma_keep_listed(g, i, a, false);
            lemma_keep_listed(g, i, b, true);
        }
    }
}

/// Every cycle of a graph is a path of different functions, each of which
/// depends on the next one and the last one on the first.
pub proof fn law_cycles_are_cycles(g: Gr, k: int)
    requires
        mutual_recursion::is_graph(g),
        0 <= k < cycle_search::graph_cycles(g).len(),
    ensures
        cycle_search::is_cycle(cycle_search::graph_deps(g), cycle_search::graph_cycles(g)[k]),
{
    lemma_listed(g, g.len());
    let (a, b) = (
        cycle_search::long_cycles(g, g.len()),
        cycle_search::lone_cycles(g, g.len()),
    );
    if k < a.len() {
        assert(has_leader(g, g.len() as int, a[k]));
    } else {
        assert(has_leader(g, g.len() as int, b[k - a.len()]));
    }
}

/// The least place of a function that is tied to this one.
proof fn lemma_least(g: Gr, x: Str, i: int) -> (j: int)
    requires
        0 <= i < g.len(),
        name_graph::tied(cycle_search::graph_deps(g), x, g[i].0),
    ensures
        0 <= j <= i,
        name_graph::tied(cycle_search::graph_deps(g), x, g[j].0),
        forall|l: int|
            0 <= l < j ==> !name_graph::tied(cycle_search::graph_deps(g), x, (#[trigger] g[l]).0),
    decreases i,
{
    if exists|l: int|
        0 <= l < i && name_graph::tied(cycle_search::graph_deps(g), x, (#[trigger] g[l]).0) {
        let l = choose|l: int|
            0 <= l < i && name_graph::tied(cycle_search::graph_deps(g), x, (#[trigger] g[l]).0);
        lemma_least(g, x, l)
    } else {
        i
    }
}

/// A function that depends on itself is tied to the first function of one of
/// the cycles.
pub proof fn law_cycles_cover(g: Gr, x: Str)
    requires
        mutual_recursion::is_graph(g),
        name_graph::is_recursive(cycle_search::graph_deps(g), x),
    ensures
        exists|k: int|
            0 <= k < cycle_search::graph_cycles(g).len() && name_graph::tied(
                cycle_search::graph_deps(g),
                x,
                (#[trigger] cycle_search::graph_cycles(g)[k])[0],
            ),
{
    let d = cycle_search::graph_deps(g);
    let ks = indexed::keys(g);
    assert(ks.contains(x));
    let i = ks.index_of(x);
    name_graph::lemma_needs_refl(d, x);
    let j = lemma_least(g, x, i);
    let y = g[j].0;
    let z = choose|z: Str| #[trigger] name_graph::dep(d, x, z) && name_graph::needs(d, z, x);
    assert(name_graph::is_recursive(d, y)) by {
        lemma_tied_recursive(g, x, y, z);
    }
    assert forall|l: int| 0 <= l < j implies !name_graph::tied(d, y, (#[trigger] g[l]).0) by {
        if name_graph::tied(d, y, g[l].0) {
            name_graph::lemma_needs_trans(d, x, y, g[l].0);
            name_graph::lemma_needs_trans(d, g[l].0, y, x);
        }
    }
    assert(cycle_search::is_leader(g, j));
    lemma_listed(g, g.len());
    let (a, b) = (
        cycle_search::long_cycles(g, g.len()),
        cycle_search::lone_cycles(g, g.len()),
    );
    if cycle_search::is_lone(g, y) {
        let k = choose|k: int| 0 <= k < b.len() && is_led_by(g, #[trigger] b[k], j);
        assert(cycle_search::graph_cycles(g)[a.len() + k] == b[k]);
    } else {
        let k = choose|k: int| 0 <= k < a.len() && is_led_by(g, #[trigger] a[k], j);
        assert(cycle_search::graph_cycles(g)[k] == a[k]);
    }
}

proof fn lemma_tied_recursive(g: Gr, x: Str, y: Str, z: Str)
    requires
        name_graph::tied(cycle_search::graph_deps(g), x, y),
        name_graph::dep(cycle_search::graph_deps(g), x, z),
        name_graph::needs(cycle_search::graph_deps(g), z, x),
    ensures
        name_graph::is_recursive(cycle_search::graph_deps(g), y),
{
    let d = cycle_search::graph_deps(g);
    if y != x {
        let p = choose|p: Seq<Str>| #[trigger]
            name_graph::is_chain(d, p) && p.len() > 0 && p[0] == y && p.last() == x;
        assert(name_graph::dep(d, p[0], p[0int + 1]));
        cycle_search::lemma_on_chain(d, p, 1);
        name_graph::lemma_needs_trans(d, p[1], x, y);
    } else {
        assert(name_graph::dep(d, x, z) && name_graph::needs(d, z, x));
    }
}

/// No two cycles are of the same component.
pub proof fn law_cycles_apart(g: Gr, k: int, l: int)
    requires
        mutual_recursion::is_graph(g),
        0 <= k < l < cycle_search::graph_cycles(g).len(),
    ensures
        !name_graph::tied(
            cycle_search::graph_deps(g),
            cycle_search::graph_cycles(g)[k][0],
            cycle_search::graph_cycles(g)[l][0],
        ),
{
    lemma_listed(g, g.len());
    let (a, b) = (
        cycle_search::long_cycles(g, g.len()),
        cycle_search::lone_cycles(g, g.len()),
    );
    if l < a.len() {
        assert(are_apart(g, a[k], a[l]));
    } else if k >= a.len() {
        assert(are_apart(g, b[k - a.len()], b[l - a.len()]));
    } else {
        let (c, e) = (a[k], b[l - a.len()]);
        assert(has_leader(g, g.len() as int, c) && has_leader(g, g.len() as int, e));
        let i = choose|i: int| i < g.len() && #[trigger] is_led_by(g, c, i);
        let j = choose|j: int| j < g.len() && #[trigger] is_led_by(g, e, j);
        lemma_apart(g, c, i, e, j);
    }
}

/// There is a cycle to warn of if and only if some function depends on itself.
pub proof fn law_cycles_exist(g: Gr)
    requires
        mutual_recursion::is_graph(g),
    ensures
        cycle_search::graph_cycles(g).len() > 0 <==> exists|x: Str| #[trigger]
            name_graph::is_recursive(cycle_search::graph_deps(g), x),
{
    let d = cycle_search::graph_deps(g);
    if cycle_search::graph_cycles(g).len() > 0 {
        let c = cycle_search::graph_cycles(g)[0];
        law_cycles_are_cycles(g, 0);
        cycle_search::lemma_on_chain(d, c, c.len() - 1);
        assert(name_graph::dep(d, c.last(), c[0]) && name_graph::needs(d, c[0], c.last()));
        assert(name_graph::is_recursive(d, c.last()));
    }
    if exists|x: Str| #[trigger] name_graph::is_recursive(d, x) {
        let x = choose|x: Str| #[trigger] name_graph::is_recursive(d, x);
        law_cycles_cover(g, x);
    }
}

proof fn lemma_added_dep(g: Gr, x: Str, y: Str, a: Str, b: Str)
    requires
        mutual_recursion::is_graph(g),
    ensures
        name_graph::dep(cycle_search::graph_deps(mutual_recursion::added(g, x, y)), a, b) <==> {
            ||| name_graph::dep(cycle_search::graph_deps(g), a, b)
            ||| a == x && b == y
        },
{
    let h = mutual_recursion::with_dep(g, x, y);
    let k = mutual_recursion::with_key(h, y);
    let (gs, hs, ks) = (indexed::keys(g), indexed::keys(h), indexed::keys(k));
    mutual_recursion::lemma_added(g, x, y);
    if gs.contains(x) {
        mutual_recursion::lemma_keys(
            g,
            x,
            mutual_recursion::inserted(g[gs.index_of(x)].1, y),
        );
    } else {
        mutual_recursion::lemma_keys(g, x, seq![y]);
    }
    mutual_recursion::lemma_keys(h, y, Seq::empty());
    assert(hs.contains(a) <==> gs.contains(a) || a == x) by {
        mutual_recursion::lemma_contains_push(gs, x, a);
    }
    assert(ks.contains(a) <==> hs.contains(a) || a == y) by {
        mutual_recursion::lemma_contains_push(hs, y, a);
    }
    let old_list = mutual_recursion::deps_list(g, a);
    let new_list = mutual_recursion::deps_list(k, a);
    assert(ks.no_duplicates());
    if gs.contains(a) {
        let p = gs.index_of(a);
        assert(ks[p] == a);
        assert(ks.index_of(a) == p);
        if a == x {
            assert(new_list == mutual_recursion::inserted(old_list, y));
            mutual_recursion::lemma_contains_push(old_list, y, b);
        } else {
            assert(new_list == old_list);
        }
    } else if a == x {
        assert(ks[gs.len() as int] == x);
        assert(ks.index_of(a) == gs.len());
        assert(new_list == seq![y]);
        assert(seq![y][0] == y);
    } else if a == y {
        assert(ks[hs.len() as int] == y);
        assert(ks.index_of(a) == hs.len());
        assert(new_list == Seq::<Str>::empty());
    }
}

proof fn lemma_added_all_dep(g: Gr, x: Str, ys: Seq<Str>, a: Str, b: Str)
    requires
        mutual_recursion::is_graph(g),
    ensures
        name_graph::dep(cycle_search::graph_deps(mutual_recursion::added_all(g, x, ys)), a, b)
            <==> {
            ||| name_graph::dep(cycle_search::graph_deps(g), a, b)
            ||| a == x && ys.contains(b)
        },
    decreases ys.len(),
{
    if ys.len() > 0 {
        let init = ys.drop_last();
        lemma_added_all_dep(g, x, init, a, b);
        mutual_recursion::lemma_graph_added_all(g, x, init);
        lemma_added_dep(mutual_recursion::added_all(g, x, init), x, ys.last(), a, b);
        assert(ys =~= init.push(ys.last()));
        mutual_recursion::lemma_contains_push(init, ys.last(), b);
    }
}

proof fn lemma_names_dep(bk: Map<Str, Nt>, names: Seq<Str>, a: Str, b: Str)
    ensures
        name_graph::dep(
            cycle_search::graph_deps(mutual_recursion::graph_of_names(bk, names)),
            a,
            b,
        ) <==> names.contains(a) && mutual_recursion::net_active_refs(bk[a]).contains(b),
    decreases names.len(),
{
    if names.len() > 0 {
        let init = names.drop_last();
        let x = names.last();
        lemma_names_dep(bk, init, a, b);
        mutual_recursion::lemma_graph_of_names(bk, init);
        lemma_added_all_dep(
            mutual_recursion::graph_of_names(bk, init),
            x,
            mutual_recursion::net_active_refs(bk[x]),
            a,
            b,
        );
        assert(names =~= init.push(x));
        mutual_recursion::lemma_contains_push(init, x, a);
    }
}

/// A function of the graph of a program depends on those that it refers to
/// actively.
pub proof fn law_graph_of(bk: Map<Str, Nt>, a: Str, b: Str)
    requires
        bk.dom().finite(),
    ensures
        mutual_recursion::is_graph(mutual_recursion::graph_of(bk)),
        name_graph::dep(cycle_search::graph_deps(mutual_recursion::graph_of(bk)), a, b)
            <==> bk.contains_key(a) && mutual_recursion::net_active_refs(bk[a]).contains(b),
{
    let names = name::in_order(bk.dom());
    mutual_recursion::lemma_graph_of_names(bk, names);
    lemma_names_dep(bk, names, a, b);
    name::lemma_finite_in_order(bk.dom());
    assert(names.to_set().contains(a) <==> bk.dom().contains(a));
}

} // verus!
