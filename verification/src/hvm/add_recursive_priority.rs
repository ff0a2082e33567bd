//! Priorities for the redexes of recursive functions.

use crate::hvm::ast;
use crate::hvm::ast::{Book, Net, Nt, Redex, Tr, Tree};
use crate::hvm::priority_laws;
use crate::name;
use crate::name::{Name, Str};
use crate::name_graph;
use crate::name_graph::Deps;
use crate::name_map::{NameMap, NameSet};
use crate::text;
use vstd::prelude::*;

verus! {

/// The functions that each function refers to.
pub type DepGraph = NameMap<NameSet>;

/// Groups of functions that refer to each other.
pub type Cycles = Vec<Vec<String>>;

/* Cycles */

/// The recursive components of a graph: each holds, in their order, all names
/// that are tied to one that depends on itself. They come in the order of
/// their first names, which is the order of the lists themselves.
pub open spec fn is_cycles(d: Deps, cs: Seq<Seq<Str>>) -> bool {
    &&& forall|k: int| 0 <= k < cs.len() ==> (#[trigger] cs[k]).len() > 0 && name::sorted(cs[k])
    &&& forall|k: int, l: int|
        0 <= k < l < cs.len() ==> name::str_lt((#[trigger] cs[k])[0], (#[trigger] cs[l])[0])
    &&& forall|k: int, x: Str|
        0 <= k < cs.len() && #[trigger] cs[k].contains(x) ==> name_graph::is_recursive(d, x)
    &&& forall|k: int, x: Str, y: Str|
        0 <= k < cs.len() && #[trigger] cs[k].contains(x) ==> (#[trigger] cs[k].contains(y)
            <==> name_graph::tied(d, x, y))
    &&& forall|x: Str| #[trigger]
        name_graph::is_recursive(d, x) ==> exists|k: int| 0 <= k < cs.len() && #[trigger] cs[k].contains(x)
}

proof fn lemma_place(d: Deps, cs: Seq<Seq<Str>>, es: Seq<Seq<Str>>, k: int) -> (j: int)
    requires
        is_cycles(d, cs),
        is_cycles(d, es),
        0 <= k < cs.len(),
    ensures
        0 <= j < es.len(),
        es[j] == cs[k],
{
    let x = cs[k][0];
    assert(cs[k].contains(x));
    assert(name_graph::is_recursive(d, x));
    let j = choose|j: int| 0 <= j < es.len() && #[trigger] es[j].contains(x);
    assert forall|y: Str| cs[k].contains(y) <==> es[j].contains(y) by {
        assert(cs[k].contains(y) <==> name_graph::tied(d, x, y));
        assert(es[j].contains(y) <==> name_graph::tied(d, x, y));
    }
    assert(cs[k].to_set() =~= es[j].to_set());
    name::lemma_sorted_unique(cs[k], es[j]);
    j
}

/// The place of a cycle in another list of the same cycles is not before its
/// own place.
proof fn lemma_place_increases(d: Deps, cs: Seq<Seq<Str>>, es: Seq<Seq<Str>>, k: int, j: int)
    requires
        is_cycles(d, cs),
        is_cycles(d, es),
        0 <= k < cs.len(),
        0 <= j < es.len(),
        es[j] == cs[k],
    ensures
        k <= j,
    decreases k,
{
    if k > 0 {
        let i = lemma_place(d, cs, es, k - 1);
        lemma_place_increases(d, cs, es, k - 1, i);
        assert(name::str_lt(cs[k - 1][0], cs[k][0]));
        if j <= i {
            if j < i {
                assert(name::str_lt(es[j][0], es[i][0]));
                name::lemma_str_lt_transitive(cs[k - 1][0], cs[k][0], cs[k - 1][0]);
            }
            name::lemma_str_lt_irreflexive(cs[k - 1][0]);
        }
    }
}

/// A graph has one list of recursive components.
pub proof fn law_cycles_unique(d: Deps, cs: Seq<Seq<Str>>, es: Seq<Seq<Str>>)
    requires
        is_cycles(d, cs),
        is_cycles(d, es),
    ensures
        cs == es,
{
    assert forall|k: int| 0 <= k < cs.len() implies k < es.len() && #[trigger] cs[k] == es[k] by {
        let j = lemma_place(d, cs, es, k);
        lemma_place_increases(d, cs, es, k, j);
        lemma_place_increases(d, es, cs, j, k);
    }
    assert forall|k: int| 0 <= k < es.len() implies k < cs.len() && #[trigger] es[k] == cs[k] by {
        let j = lemma_place(d, es, cs, k);
        lemma_place_increases(d, es, cs, k, j);
        lemma_place_increases(d, cs, es, j, k);
    }
    if cs.len() < es.len() {
        assert(es[cs.len() as int] == es[cs.len() as int]);
    }
    if es.len() < cs.len() {
        assert(cs[es.len() as int] == cs[es.len() as int]);
    }
    assert(cs =~= es);
}

/// The list is one of the first groups, which is recursive.
spec fn is_cycle_of(d: Deps, gs: Seq<Seq<Str>>, n: int, c: Seq<Str>) -> bool {
    exists|i: int| 0 <= i < n && #[trigger] gs[i] == c && name_graph::is_recursive(d, gs[i][0])
}

/// The lists are those of the first groups that are recursive, in the order of
/// their first names.
spec fn are_cycles_of(d: Deps, gs: Seq<Seq<Str>>, n: int, cs: Seq<Seq<Str>>) -> bool {
    &&& forall|k: int, l: int|
        0 <= k < l < cs.len() ==> name::str_lt((#[trigger] cs[k])[0], (#[trigger] cs[l])[0])
    &&& forall|k: int| 0 <= k < cs.len() ==> is_cycle_of(d, gs, n, #[trigger] cs[k])
    &&& forall|i: int|
        0 <= i < n && name_graph::is_recursive(d, (#[trigger] gs[i])[0]) ==> exists|k: int|
            0 <= k < cs.len() && #[trigger] cs[k] == gs[i]
}

proof fn lemma_cycles(d: Deps, gs: Seq<Seq<Str>>, cs: Seq<Seq<Str>>)
    requires
        name_graph::is_partition(d, gs),
        are_cycles_of(d, gs, gs.len() as int, cs),
    ensures
        is_cycles(d, cs),
{
    assert forall|k: int| 0 <= k < cs.len() implies (#[trigger] cs[k]).len() > 0 && name::sorted(
        cs[k],
    ) by {
        let i = choose|i: int|
            0 <= i < gs.len() && #[trigger] gs[i] == cs[k] && name_graph::is_recursive(d, gs[i][0]);
        assert(gs[i].len() > 0);
    }
    assert forall|k: int, x: Str, y: Str|
        0 <= k < cs.len() && #[trigger] cs[k].contains(x) implies (#[trigger] cs[k].contains(y)
        <==> name_graph::tied(d, x, y)) by {
        let i = choose|i: int|
            0 <= i < gs.len() && #[trigger] gs[i] == cs[k] && name_graph::is_recursive(d, gs[i][0]);
        assert(gs[i].contains(x));
        if name_graph::tied(d, x, y) {
            name_graph::lemma_needs_nodes(d, x, y);
            assert(gs[i].contains(y));
        }
        if cs[k].contains(y) {
            assert(gs[i].contains(y));
            assert(name_graph::nodes(d).contains(y));
        }
    }
    assert forall|k: int, x: Str| 0 <= k < cs.len() && #[trigger] cs[k].contains(x) implies name_graph::is_recursive(
        d,
        x,
    ) by {
        let i = choose|i: int|
            0 <= i < gs.len() && #[trigger] gs[i] == cs[k] && name_graph::is_recursive(d, gs[i][0]);
        let f = gs[i][0];
        assert(gs[i].len() > 0);
        assert(gs[i].contains(f));
        name_graph::lemma_recursive_group(d, gs, i, f);
        name_graph::lemma_recursive_group(d, gs, i, x);
        if gs[i].len() == 1 {
            assert(x == f);
        }
    }
    assert forall|x: Str| #[trigger] name_graph::is_recursive(d, x) implies exists|k: int|
        0 <= k < cs.len() && #[trigger] cs[k].contains(x) by {
        assert(d.contains_key(x));
        assert(name_graph::nodes(d).contains(x));
        let i = choose|i: int| 0 <= i < gs.len() && #[trigger] gs[i].contains(x);
        let f = gs[i][0];
        assert(gs[i].contains(f));
        name_graph::lemma_recursive_group(d, gs, i, f);
        name_graph::lemma_recursive_group(d, gs, i, x);
        if gs[i].len() == 1 {
            assert(x == f);
        }
        let k = choose|k: int| 0 <= k < cs.len() && #[trigger] cs[k] == gs[i];
        assert(cs[k].contains(x));
    }
}

/// The names of a list as texts.
fn to_strings(ns: &Vec<Name>) -> (r: Vec<String>)
    ensures
        text::texts(r@) == name::texts(ns@),
        r@.len() == ns@.len(),
{
    let n: usize = ns.len();
    let mut r: Vec<String> = Vec::new();
    let mut i: usize = 0;
    while i < n
        invariant
            i <= n,
            n == ns@.len(),
            r@.len() == i,
            forall|j: int| 0 <= j < i ==> (#[trigger] r@[j])@ == ns@[j]@,
        decreases n - i,
    {
        r.push(ns[i].0.clone());
        i += 1;
    }
    assert(text::texts(r@) =~= name::texts(ns@));
    r
}

/// Puts a list among lists that come in the order of their first texts.
fn insert_cycle(cs: &mut Cycles, c: Vec<String>)
    requires
        c@.len() > 0,
        forall|k: int| 0 <= k < old(cs)@.len() ==> (#[trigger] old(cs)@[k])@.len() > 0,
        forall|k: int, l: int|
            0 <= k < l < old(cs)@.len() ==> name::str_lt(
                (#[trigger] old(cs)@[k])@[0]@,
                (#[trigger] old(cs)@[l])@[0]@,
            ),
        forall|k: int| 0 <= k < old(cs)@.len() ==> (#[trigger] old(cs)@[k])@[0]@ != c@[0]@,
    ensures
        forall|k: int, l: int|
            0 <= k < l < final(cs)@.len() ==> name::str_lt(
                (#[trigger] final(cs)@[k])@[0]@,
                (#[trigger] final(cs)@[l])@[0]@,
            ),
        exists|p: int| 0 <= p <= old(cs)@.len() && final(cs)@ == #[trigger] old(cs)@.insert(p, c),
{
    let n: usize = cs.len();
    let mut p: usize = 0;
    while p < n && name::string_lt(&cs[p][0], &c[0])
        invariant
            p <= n,
            n == cs@.len(),
            cs@ == old(cs)@,
            c@.len() > 0,
            forall|k: int| 0 <= k < cs@.len() ==> (#[trigger] cs@[k])@.len() > 0,
            forall|k: int| 0 <= k < p ==> name::str_lt((#[trigger] cs@[k])@[0]@, c@[0]@),
        ensures
            p <= n,
            p == n || !name::str_lt(cs@[p as int]@[0]@, c@[0]@),
            forall|k: int| 0 <= k < p ==> name::str_lt((#[trigger] cs@[k])@[0]@, c@[0]@),
        decreases n - p,
    {
        p += 1;
    }
    proof {
        let f = c@[0]@;
        let out = cs@.insert(p as int, c);
        assert forall|k: int, l: int| 0 <= k < l < out.len() implies name::str_lt(
            (#[trigger] out[k])@[0]@,
            (#[trigger] out[l])@[0]@,
        ) by {
            if p < n {
                let q = cs@[p as int]@[0]@;
                name::lemma_str_lt_total(q, f);
                if k == p && l > p + 1 {
                    assert(name::str_lt(cs@[p as int]@[0]@, cs@[l - 1]@[0]@));
                    name::lemma_str_lt_transitive(f, q, cs@[l - 1]@[0]@);
                }
            }
        }
    }
    cs.insert(p, c);
}

/// Whether a group of names is a recursive component.
fn is_cycle(deps: &DepGraph, g: &Vec<Name>) -> (r: bool)
    requires
        g@.len() > 0,
    ensures
        r <==> g@.len() > 1 || name_graph::dep(deps@, g@[0]@, g@[0]@),
{
    if g.len() > 1 {
        true
    } else {
        match deps.get(&g[0]) {
            Some(ds) => ds.contains(&g[0]),
            None => false,
        }
    }
}

/// Finds all recursive strongly connected components of the dependency graph.
pub fn cycles(deps: &DepGraph) -> (r: Cycles)
    ensures
        is_cycles(deps@, text::lists(r@)),
{
    let groups = name_graph::groups(deps);
    let ghost (d, gs) = (deps@, name_graph::lists(groups@));
    let n: usize = groups.len();
    let mut r: Cycles = Vec::new();
    let mut i: usize = 0;
    while i < n
        invariant
            i <= n,
            n == groups@.len(),
            d == deps@,
            gs == name_graph::lists(groups@),
            gs.len() == n,
            name_graph::is_groups(d, gs),
            are_cycles_of(d, gs, i as int, text::lists(r@)),
            forall|k: int| 0 <= k < r@.len() ==> (#[trigger] r@[k])@.len() > 0,
        decreases n - i,
    {
        let ghost (cs, g) = (text::lists(r@), gs[i as int]);
        let ghost r0 = r@;
        proof {
            assert(g == name::texts(groups@[i as int]@));
            assert(g.contains(g[0]));
            name_graph::lemma_recursive_group(d, gs, i as int, g[0]);
        }
        if is_cycle(deps, &groups[i]) {
            let c = to_strings(&groups[i]);
            proof {
                assert(c@[0]@ == text::texts(c@)[0]);
                assert forall|k: int| 0 <= k < r@.len() implies (#[trigger] r@[k])@[0]@ != c@[0]@ by {
                    assert(cs[k] == text::texts(r@[k]@));
                    let j = choose|j: int|
                        0 <= j < i && #[trigger] gs[j] == cs[k] && name_graph::is_recursive(d, gs[j][0]);
                    if cs[k][0] == g[0] {
                        assert(gs[j].contains(g[0]));
                        name_graph::lemma_disjoint(d, gs, i as int, j, g[0]);
                    }
                }
                assert forall|k: int, l: int| 0 <= k < l < r@.len() implies name::str_lt(
                    (#[trigger] r@[k])@[0]@,
                    (#[trigger] r@[l])@[0]@,
                ) by {
                    assert(name::str_lt(cs[k][0], cs[l][0]));
                }
            }
            insert_cycle(&mut r, c);
            proof {
                let p = choose|p: int| 0 <= p <= r0.len() && r@ == #[trigger] r0.insert(p, c);
                let es = text::lists(r@);
                assert(es =~= cs.insert(p, g));
                assert forall|k: int, l: int| 0 <= k < l < es.len() implies name::str_lt(
                    (#[trigger] es[k])[0],
                    (#[trigger] es[l])[0],
                ) by {
                    assert(r@[k]@.len() > 0 && r@[l]@.len() > 0);
                    assert(name::str_lt(r@[k]@[0]@, r@[l]@[0]@));
                }
                assert forall|k: int| 0 <= k < es.len() implies is_cycle_of(
                    d,
                    gs,
                    i + 1,
                    #[trigger] es[k],
                ) by {
                    if k == p {
                        assert(gs[i as int] == es[k]);
                    } else {
                        let k0 = if k < p {
                            k
                        } else {
                            k - 1
                        };
                        assert(es[k] == cs[k0]);
                        let j = choose|j: int|
                            0 <= j < i && #[trigger] gs[j] == cs[k0] && name_graph::is_recursive(d, gs[j][0]);
                        assert(gs[j] == es[k]);
                    }
                }
                assert forall|j: int| 0 <= j < i + 1 && name_graph::is_recursive(d, (#[trigger] gs[j])[0]) implies exists|
                    k: int,
                | 0 <= k < es.len() && #[trigger] es[k] == gs[j] by {
                    if j == i {
                        assert(es[p] == gs[j]);
                    } else {
                        let k0 = choose|k: int| 0 <= k < cs.len() && #[trigger] cs[k] == gs[j];
                        let k = if k0 < p {
                            k0
                        } else {
                            k0 + 1
                        };
                        assert(es[k] == gs[j]);
                    }
                }
            }
        } else {
            proof {
                assert forall|k: int| 0 <= k < cs.len() implies is_cycle_of(
                    d,
                    gs,
                    i + 1,
                    #[trigger] cs[k],
                ) by {
                    let j = choose|j: int|
                        0 <= j < i && #[trigger] gs[j] == cs[k] && name_graph::is_recursive(d, gs[j][0]);
                    assert(gs[j] == cs[k]);
                }
            }
        }
        i += 1;
    }
    proof {
        lemma_cycles(d, gs, text::lists(r@));
    }
    r
}

/* Dependencies */

/// The names that a tree refers to.
pub open spec fn tree_refs(t: Tr) -> Set<Str>
    decreases t,
{
    match t {
        Tr::Ref(n) => set![n],
        Tr::Con(a, b) => tree_refs(*a).union(tree_refs(*b)),
        Tr::Dup(a, b) => tree_refs(*a).union(tree_refs(*b)),
        Tr::Opr(a, b) => tree_refs(*a).union(tree_refs(*b)),
        Tr::Swi(a, b) => tree_refs(*a).union(tree_refs(*b)),
        _ => Set::empty(),
    }
}

/// The names that a net refers to.
pub open spec fn net_refs(net: Nt) -> Set<Str> {
    Set::new(
        |n: Str|
            tree_refs(net.root).contains(n) || exists|i: int|
                0 <= i < net.rbag.len() && (tree_refs((#[trigger] net.rbag[i]).a).contains(n)
                    || tree_refs(net.rbag[i].b).contains(n)),
    )
}

/// The names that each net refers to.
pub open spec fn deps_of(bk: Map<Str, Nt>) -> Deps {
    Map::new(|n: Str| bk.contains_key(n), |n: Str| net_refs(bk[n]))
}

/// Adds the names that a tree refers to.
fn dependencies_tree(tree: &Tree, deps: &mut NameSet)
    ensures
        final(deps)@ == old(deps)@.union(tree_refs(tree@)),
    decreases tree,
{
    if let Tree::Ref { nam } = tree {
        deps.insert(Name::new(nam.clone()));
        assert(deps@ =~= old(deps)@.union(tree_refs(tree@)));
    } else {
        let kids = ast::tree_children(tree);
        let n: usize = kids.len();
        if n == 2 {
            proof {
                assert(kids@[0]@ == ast::tr_kids(tree@)[0]);
                assert(kids@[1]@ == ast::tr_kids(tree@)[1]);
            }
            dependencies_tree(kids[0], deps);
            dependencies_tree(kids[1], deps);
        }
        assert(deps@ =~= old(deps)@.union(tree_refs(tree@)));
    }
}

/// The names that a net directly depends on.
fn dependencies(net: &Net) -> (r: NameSet)
    ensures
        r@ == net_refs(net@),
{
    let mut deps = NameSet::new();
    dependencies_tree(&net.root, &mut deps);
    let ghost m = net@;
    let n: usize = net.rbag.len();
    let mut i: usize = 0;
    while i < n
        invariant
            i <= n,
            m == net@,
            n == net.rbag@.len(),
            forall|x: Str| #[trigger]
                deps@.contains(x) <==> tree_refs(m.root).contains(x) || exists|j: int|
                    0 <= j < i && (tree_refs((#[trigger] m.rbag[j]).a).contains(x) || tree_refs(
                        m.rbag[j].b,
                    ).contains(x)),
        decreases n - i,
    {
        let ghost before = deps@;
        dependencies_tree(&net.rbag[i].1, &mut deps);
        dependencies_tree(&net.rbag[i].2, &mut deps);
        proof {
            let r = m.rbag[i as int];
            assert forall|x: Str| #[trigger] deps@.contains(x) <==> tree_refs(m.root).contains(x)
                || exists|j: int|
                0 <= j < i + 1 && (tree_refs((#[trigger] m.rbag[j]).a).contains(x) || tree_refs(
                    m.rbag[j].b,
                ).contains(x)) by {
                assert(deps@.contains(x) <==> before.contains(x) || tree_refs(r.a).contains(x)
                    || tree_refs(r.b).contains(x));
                if before.contains(x) && !tree_refs(m.root).contains(x) {
                    let j = choose|j: int|
                        0 <= j < i && (tree_refs((#[trigger] m.rbag[j]).a).contains(x) || tree_refs(
                            m.rbag[j].b,
                        ).contains(x));
                    assert(tree_refs(m.rbag[j].a).contains(x) || tree_refs(m.rbag[j].b).contains(x));
                }
            }
        }
        i += 1;
    }
    assert(deps@ =~= net_refs(m));
    deps
}

/// The names that each net directly depends on.
fn dependency_graph(book: &Book) -> (r: DepGraph)
    ensures
        r@ == deps_of(book@),
{
    let n: usize = book.defs.len();
    let ghost (bk, ns) = (book@, book.defs.names());
    let mut r: DepGraph = NameMap::new();
    let mut i: usize = 0;
    assert(ns.take(0) =~= Seq::empty());
    while i < n
        invariant
            i <= n,
            bk == book@,
            ns == book.defs.names(),
            n == ns.len(),
            forall|x: Str| #[trigger] r@.contains_key(x) <==> ns.take(i as int).contains(x),
            forall|x: Str| #[trigger] r@.contains_key(x) ==> r@[x] == net_refs(bk[x]),
        decreases n - i,
    {
        let ghost before = r@;
        let ds = dependencies(book.defs.value_at(i));
        r.insert(book.defs.name_at(i).clone(), ds);
        proof {
            let (a, b) = (ns.take(i as int), ns.take(i + 1));
            assert(b =~= a.push(ns[i as int]));
            assert forall|x: Str| #[trigger] r@.contains_key(x) <==> b.contains(x) by {
                assert(before.contains_key(x) <==> a.contains(x));
                if a.contains(x) {
                    let j = choose|j: int| 0 <= j < a.len() && a[j] == x;
                    assert(b[j] == x);
                }
                assert(b[i as int] == ns[i as int]);
            }
        }
        i += 1;
    }
    proof {
        assert(ns.take(n as int) =~= ns);
        assert forall|x: Str| #[trigger] r@.contains_key(x) <==> bk.contains_key(x) by {
            assert(ns.to_set().contains(x) <==> bk.dom().contains(x));
        }
        assert(r@ =~= deps_of(bk));
    }
    r
}

/* Priorities */

/// One side of the redex is a reference to the name.
pub open spec fn has_ref(r: Redex, n: Str) -> bool {
    r.a == Tr::Ref(n) || r.b == Tr::Ref(n)
}

/// How many sides of redexes are references to the name.
pub open spec fn ref_count(rbag: Seq<Redex>, n: Str) -> nat
    decreases rbag.len(),
{
    if rbag.len() == 0 {
        0
    } else {
        let r = rbag.last();
        let a: nat = if r.a == Tr::Ref(n) {
            1
        } else {
            0
        };
        let b: nat = if r.b == Tr::Ref(n) {
            1
        } else {
            0
        };
        ref_count(rbag.drop_last(), n) + a + b
    }
}

/// The net with priority on the redexes that refer to one of the names, where
/// the net refers to that name more than once.
pub open spec fn raised(net: Nt, names: Set<Str>) -> Nt {
    Nt {
        root: net.root,
        rbag: Seq::new(
            net.rbag.len(),
            |i: int|
                Redex {
                    pri: net.rbag[i].pri || is_raised(net, names, net.rbag[i]),
                    a: net.rbag[i].a,
                    b: net.rbag[i].b,
                },
        ),
    }
}

/// The redex refers to one of the names, to which the net refers more than once.
pub open spec fn is_raised(net: Nt, names: Set<Str>, r: Redex) -> bool {
    exists|n: Str|
        #![trigger has_ref(r, n)]
        has_ref(r, n) && names.contains(n) && ref_count(net.rbag, n) > 1
}

/// The names that a net refers to and that lead back to it.
pub open spec fn recursive_refs(d: Deps, n: Str) -> Set<Str> {
    Set::new(|x: Str| name_graph::dep(d, n, x) && name_graph::needs(d, x, n))
}

/// The program with priority on the redexes that repeat a recursive reference.
pub open spec fn prioritized(bk: Map<Str, Nt>) -> Map<Str, Nt> {
    Map::new(
        |n: Str| bk.contains_key(n),
        |n: Str| raised(bk[n], recursive_refs(deps_of(bk), n)),
    )
}

/// Whether a tree is a reference to the name.
fn is_ref_to(tree: &Tree, nxt: &String) -> (r: bool)
    ensures
        r == (tree@ == Tr::Ref(nxt@)),
{
    match tree {
        Tree::Ref { nam } => *nam == *nxt,
        _ => false,
    }
}

proof fn lemma_ref_count_take(rbag: Seq<Redex>, i: int, n: Str)
    requires
        0 <= i <= rbag.len(),
    ensures
        ref_count(rbag.take(i), n) <= ref_count(rbag, n),
        i < rbag.len() ==> ref_count(rbag.take(i + 1), n) == ref_count(rbag.take(i), n) + (
        if rbag[i].a == Tr::Ref(n) {
            1nat
        } else {
            0
        }) + (if rbag[i].b == Tr::Ref(n) {
            1nat
        } else {
            0
        }),
    decreases rbag.len() - i,
{
    if i < rbag.len() {
        assert(rbag.take(i + 1).drop_last() =~= rbag.take(i));
        assert(rbag.take(i + 1).last() == rbag[i]);
        lemma_ref_count_take(rbag, i + 1, n);
    } else {
        assert(rbag.take(i) =~= rbag);
    }
}

/// Whether more than one side of the redexes is a reference to the name.
fn is_repeated(net: &Net, nxt: &String) -> (r: bool)
    ensures
        r == (ref_count(net@.rbag, nxt@) > 1),
{
    let ghost (rbag, x) = (net@.rbag, nxt@);
    let n: usize = net.rbag.len();
    let mut count: usize = 0;
    let mut i: usize = 0;
    assert(rbag.take(0) =~= Seq::empty());
    while i < n
        invariant
            i <= n,
            n == net.rbag@.len(),
            rbag == net@.rbag,
            x == nxt@,
            count == ref_count(rbag.take(i as int), x),
            count <= 1,
        decreases n - i,
    {
        proof {
            lemma_ref_count_take(rbag, i as int, x);
            lemma_ref_count_take(rbag, i + 1, x);
            assert(rbag[i as int].a == net.rbag@[i as int].1@);
        }
        if is_ref_to(&net.rbag[i].1, nxt) {
            count += 1;
        }
        if is_ref_to(&net.rbag[i].2, nxt) {
            count += 1;
        }
        if count > 1 {
            return true;
        }
        i += 1;
    }
    assert(rbag.take(n as int) =~= rbag);
    false
}

/// Gives priority to the redexes that refer to the name, if the net refers to
/// it more than once.
fn add_priority_next_in_cycle(net: &mut Net, nxt: &String)
    ensures
        final(net)@ == raised(old(net)@, set![nxt@]),
{
    let ghost (m, x) = (net@, nxt@);
    if is_repeated(net, nxt) {
        let n: usize = net.rbag.len();
        let mut i: usize = 0;
        while i < n
            invariant
                i <= n,
                n == net.rbag@.len(),
                x == nxt@,
                net@.root == m.root,
                net@.rbag.len() == m.rbag.len(),
                forall|j: int|
                    0 <= j < n ==> (#[trigger] net@.rbag[j]).a == m.rbag[j].a && net@.rbag[j].b
                        == m.rbag[j].b && net@.rbag[j].pri == (m.rbag[j].pri || j < i && has_ref(
                        m.rbag[j],
                        x,
                    )),
            decreases n - i,
        {
            let ghost before = net@;
            let redex: &mut (bool, Tree, Tree) = &mut net.rbag[i];
            if is_ref_to(&redex.1, nxt) {
                redex.0 = true;
            }
            if is_ref_to(&redex.2, nxt) {
                redex.0 = true;
            }
            proof {
                assert forall|j: int| 0 <= j < n implies (#[trigger] net@.rbag[j]).a == m.rbag[j].a
                    && net@.rbag[j].b == m.rbag[j].b && net@.rbag[j].pri == (m.rbag[j].pri || j < i
                    + 1 && has_ref(m.rbag[j], x)) by {
                    assert(before.rbag[j].a == m.rbag[j].a);
                }
            }
            i += 1;
        }
    }
    proof {
        let out = raised(m, set![x]);
        assert forall|j: int| 0 <= j < m.rbag.len() implies net@.rbag[j] == #[trigger] out.rbag[j] by {
            let r = m.rbag[j];
            if has_ref(r, x) && ref_count(m.rbag, x) > 1 {
                assert(is_raised(m, set![x], r));
            }
            assert(net@.rbag[j].a == r.a);
        }
        assert(net@.rbag =~= out.rbag);
    }
}

proof fn lemma_raised_count(a: Seq<Redex>, b: Seq<Redex>, n: Str)
    requires
        a.len() == b.len(),
        forall|i: int| 0 <= i < a.len() ==> (#[trigger] a[i]).a == b[i].a && a[i].b == b[i].b,
    ensures
        ref_count(a, n) == ref_count(b, n),
    decreases a.len(),
{
    if a.len() > 0 {
        assert forall|i: int| 0 <= i < a.drop_last().len() implies (#[trigger] a.drop_last()[i]).a
            == b.drop_last()[i].a && a.drop_last()[i].b == b.drop_last()[i].b by {
            assert(a[i].a == b[i].a);
        }
        lemma_raised_count(a.drop_last(), b.drop_last(), n);
        assert(a[a.len() - 1].a == b[a.len() - 1].a);
    }
}

/// Raising for some names and then for others raises for all of them.
proof fn lemma_raised_twice(net: Nt, xs: Set<Str>, ys: Set<Str>)
    ensures
        raised(raised(net, xs), ys) == raised(net, xs.union(ys)),
{
    let m = raised(net, xs);
    let (a, b) = (raised(m, ys), raised(net, xs.union(ys)));
    assert forall|i: int| 0 <= i < net.rbag.len() implies #[trigger] a.rbag[i] == b.rbag[i] by {
        let (r, s) = (net.rbag[i], m.rbag[i]);
        assert forall|n: Str| has_ref(r, n) == #[trigger] has_ref(s, n) by {}
        if is_raised(m, ys, s) {
            let n = choose|n: Str|
                #![trigger has_ref(s, n)]
                has_ref(s, n) && ys.contains(n) && ref_count(m.rbag, n) > 1;
            lemma_raised_count(m.rbag, net.rbag, n);
            assert(has_ref(r, n) && xs.union(ys).contains(n));
        }
        if is_raised(net, xs, r) {
            let n = choose|n: Str|
                #![trigger has_ref(r, n)]
                has_ref(r, n) && xs.contains(n) && ref_count(net.rbag, n) > 1;
            assert(has_ref(r, n) && xs.union(ys).contains(n));
        }
        if is_raised(net, xs.union(ys), r) {
            let n = choose|n: Str|
                #![trigger has_ref(r, n)]
                has_ref(r, n) && xs.union(ys).contains(n) && ref_count(net.rbag, n) > 1;
            if xs.contains(n) {
                assert(is_raised(net, xs, r));
            } else {
                lemma_raised_count(m.rbag, net.rbag, n);
                assert(has_ref(s, n) && ys.contains(n));
            }
        }
    }
    assert(a.rbag =~= b.rbag);
}

/// Raising for no names changes nothing.
proof fn lemma_raised_none(net: Nt)
    ensures
        raised(net, Set::empty()) == net,
{
    assert(raised(net, Set::empty()).rbag =~= net.rbag);
}

/// The texts of a list as a set of names.
fn to_name_set(c: &Vec<String>) -> (r: NameSet)
    ensures
        forall|x: Str| #[trigger] r@.contains(x) <==> text::texts(c@).contains(x),
{
    let ghost s = text::texts(c@);
    let n: usize = c.len();
    let mut r = NameSet::new();
    let mut i: usize = 0;
    while i < n
        invariant
            i <= n,
            n == c@.len(),
            s == text::texts(c@),
            forall|x: Str| #[trigger] r@.contains(x) <==> s.take(i as int).contains(x),
        decreases n - i,
    {
        let ghost before = r@;
        r.insert(Name::new(c[i].clone()));
        proof {
            let (a, b) = (s.take(i as int), s.take(i + 1));
            assert(b =~= a.push(s[i as int]));
            assert forall|x: Str| #[trigger] r@.contains(x) <==> b.contains(x) by {
                assert(before.contains(x) <==> a.contains(x));
                if a.contains(x) {
                    let j = choose|j: int| 0 <= j < a.len() && a[j] == x;
                    assert(b[j] == x);
                }
                assert(b[i as int] == s[i as int]);
            }
        }
        i += 1;
    }
    assert(s.take(n as int) =~= s);
    r
}

/// Gives priority to the redexes of a net that repeat a reference to a net of
/// the same cycle.
fn add_priority_in_cycle(net: &mut Net, deps: &NameSet, in_cycle: &NameSet)
    ensures
        final(net)@ == raised(old(net)@, deps@.intersect(in_cycle@)),
{
    let n: usize = deps.len();
    let ghost (m, ns, c) = (net@, deps.names(), in_cycle@);
    let mut i: usize = 0;
    proof {
        lemma_raised_none(m);
        assert(ns.take(0).to_set().intersect(c) =~= Set::empty());
    }
    while i < n
        invariant
            i <= n,
            ns == deps.names(),
            n == ns.len(),
            c == in_cycle@,
            net@ == raised(m, ns.take(i as int).to_set().intersect(c)),
        decreases n - i,
    {
        let nxt = deps.name_at(i);
        proof {
            let (a, b) = (ns.take(i as int), ns.take(i + 1));
            let x = ns[i as int];
            assert(b =~= a.push(x));
            assert forall|y: Str| b.to_set().contains(y) <==> a.to_set().contains(y) || y == x by {
                if a.contains(y) {
                    let j = choose|j: int| 0 <= j < a.len() && a[j] == y;
                    assert(b[j] == y);
                }
                assert(b[i as int] == x);
            }
            if c.contains(x) {
                lemma_raised_twice(m, a.to_set().intersect(c), set![x]);
                assert(a.to_set().intersect(c).union(set![x]) =~= b.to_set().intersect(c));
            } else {
                assert(a.to_set().intersect(c) =~= b.to_set().intersect(c));
            }
        }
        if in_cycle.contains(nxt) {
            add_priority_next_in_cycle(net, &nxt.0);
        }
        i += 1;
    }
    assert(ns.take(n as int) =~= ns);
}

/// A name of the first cycles, or of the first names of the next one.
spec fn is_done(cs: Seq<Seq<Str>>, k: int, j: int, x: Str) -> bool {
    (exists|i: int| 0 <= i < k && #[trigger] cs[i].contains(x)) || k < cs.len() && cs[k].take(
        j,
    ).contains(x)
}

/// The nets of the names that are done have their priorities, and the others
/// are as they were.
spec fn is_prioritized_upto(
    bk: Map<Str, Nt>,
    cs: Seq<Seq<Str>>,
    k: int,
    j: int,
    now: Map<Str, Nt>,
) -> bool {
    &&& now.dom() == bk.dom()
    &&& forall|x: Str| #[trigger]
        bk.contains_key(x) ==> now[x] == if is_done(cs, k, j, x) {
            raised(bk[x], recursive_refs(deps_of(bk), x))
        } else {
            bk[x]
        }
}

proof fn lemma_done_next(cs: Seq<Seq<Str>>, k: int, j: int, x: Str)
    requires
        0 <= k < cs.len(),
        0 <= j < cs[k].len(),
    ensures
        is_done(cs, k, j + 1, x) <==> is_done(cs, k, j, x) || x == cs[k][j],
{
    let (a, b) = (cs[k].take(j), cs[k].take(j + 1));
    if a.contains(x) {
        let i = choose|i: int| 0 <= i < a.len() && a[i] == x;
        assert(b[i] == x);
    }
    if b.contains(x) && x != cs[k][j] {
        let i = choose|i: int| 0 <= i < b.len() && b[i] == x;
        assert(a[i] == x);
    }
    assert(b[j] == cs[k][j]);
}

proof fn lemma_done_cycle(cs: Seq<Seq<Str>>, k: int, x: Str)
    requires
        0 <= k < cs.len(),
    ensures
        is_done(cs, k + 1, 0, x) <==> is_done(cs, k, cs[k].len() as int, x),
{
    assert(cs[k].take(cs[k].len() as int) =~= cs[k]);
    if exists|i: int| 0 <= i < k && #[trigger] cs[i].contains(x) {
        let i = choose|i: int| 0 <= i < k && #[trigger] cs[i].contains(x);
        assert(0 <= i < k + 1 && cs[i].contains(x));
    }
    if cs[k].contains(x) {
        assert(0 <= k < k + 1 && cs[k].contains(x));
    }
}

/// The references of a net of a cycle to nets of the cycle are those that lead
/// back to it.
proof fn lemma_cycle_refs(d: Deps, cs: Seq<Seq<Str>>, k: int, x: Str, in_cycle: Set<Str>)
    requires
        is_cycles(d, cs),
        0 <= k < cs.len(),
        cs[k].contains(x),
        forall|y: Str| #[trigger] in_cycle.contains(y) <==> cs[k].contains(y),
    ensures
        d.contains_key(x),
        d[x].intersect(in_cycle) == recursive_refs(d, x),
{
    assert(name_graph::is_recursive(d, x));
    assert forall|y: Str| d[x].intersect(in_cycle).contains(y) <==> recursive_refs(d, x).contains(y) by {
        if name_graph::dep(d, x, y) {
            name_graph::lemma_dep_needs(d, x, y);
            assert(cs[k].contains(y) <==> name_graph::tied(d, x, y));
        }
    }
    assert(d[x].intersect(in_cycle) =~= recursive_refs(d, x));
}

/// Gives priority to the redexes that repeat a recursive reference: those that
/// refer to a net of the same recursive component to which the net refers more
/// than once.
pub fn add_recursive_priority(book: &mut Book)
    ensures
        final(book)@ == prioritized(old(book)@),
        priority_laws::has_priorities(old(book)@, final(book)@),
{
    let ghost bk = book@;
    let deps = dependency_graph(book);
    let cycles = cycles(&deps);
    let ghost (d, cs) = (deps@, text::lists(cycles@));
    let n: usize = cycles.len();
    let mut k: usize = 0;
    proof {
        assert forall|x: Str| !#[trigger] is_done(cs, 0, 0, x) by {}
    }
    while k < n
        invariant
            k <= n,
            n == cycles@.len(),
            d == deps@,
            d == deps_of(bk),
            cs == text::lists(cycles@),
            is_cycles(d, cs),
            is_prioritized_upto(bk, cs, k as int, 0, book@),
        decreases n - k,
    {
        let in_cycle = to_name_set(&cycles[k]);
        let m: usize = cycles[k].len();
        let mut j: usize = 0;
        assert(cs[k as int] == text::texts(cycles@[k as int]@));
        while j < m
            invariant
                j <= m,
                k < n,
                n == cycles@.len(),
                m == cycles@[k as int]@.len(),
                d == deps@,
                d == deps_of(bk),
                cs == text::lists(cycles@),
                cs[k as int] == text::texts(cycles@[k as int]@),
                is_cycles(d, cs),
                forall|y: Str| #[trigger] in_cycle@.contains(y) <==> cs[k as int].contains(y),
                is_prioritized_upto(bk, cs, k as int, j as int, book@),
            decreases m - j,
        {
            let cur = Name::new(cycles[k][j].clone());
            let ghost (x, before) = (cur@, book@);
            proof {
                assert(cs[k as int][j as int] == x);
                lemma_cycle_refs(d, cs, k as int, x, in_cycle@);
                assert(bk.contains_key(x));
                assert(before.dom().contains(x));
            }
            if let Some(ds) = deps.get(&cur) {
                if let Some(old_net) = book.defs.remove(&cur) {
                    let mut net = old_net;
                    add_priority_in_cycle(&mut net, ds, &in_cycle);
                    proof {
                        lemma_raised_twice(bk[x], recursive_refs(d, x), recursive_refs(d, x));
                        assert(recursive_refs(d, x).union(recursive_refs(d, x)) =~= recursive_refs(
                            d,
                            x,
                        ));
                        assert(net@ == raised(bk[x], recursive_refs(d, x)));
                    }
                    book.defs.insert(cur, net);
                }
            }
            proof {
                assert(book@ =~= before.insert(x, raised(bk[x], recursive_refs(d, x))));
                assert(book@.dom() =~= bk.dom());
                assert forall|y: Str| #[trigger] bk.contains_key(y) implies book@[y] == (
                if is_done(cs, k as int, j + 1, y) {
                    raised(bk[y], recursive_refs(d, y))
                } else {
                    bk[y]
                }) by {
                    lemma_done_next(cs, k as int, j as int, y);
                }
            }
            j += 1;
        }
        proof {
            assert forall|y: Str| #[trigger] bk.contains_key(y) implies book@[y] == (if is_done(
                cs,
                k + 1,
                0,
                y,
            ) {
                raised(bk[y], recursive_refs(d, y))
            } else {
                bk[y]
            }) by {
                lemma_done_cycle(cs, k as int, y);
            }
        }
        k += 1;
    }
    proof {
        assert forall|x: Str| #[trigger] bk.contains_key(x) implies book@[x] == raised(
            bk[x],
            recursive_refs(d, x),
        ) by {
            if !is_done(cs, n as int, 0, x) {
                assert(!name_graph::is_recursive(d, x));
                assert(recursive_refs(d, x) =~= Set::empty());
                lemma_raised_none(bk[x]);
            }
        }
        assert(book@ =~= prioritized(bk));
        priority_laws::law_priorities(bk);
    }
}

/* Laws */

/// Only priorities change, and none is taken away.
pub proof fn law_priority_keeps_nets(bk: Map<Str, Nt>, n: Str, i: int)
    requires
        bk.contains_key(n),
    ensures
        prioritized(bk).dom() == bk.dom(),
        prioritized(bk)[n].root == bk[n].root,
        prioritized(bk)[n].rbag.len() == bk[n].rbag.len(),
        0 <= i < bk[n].rbag.len() ==> {
            let (r, s) = (bk[n].rbag[i], prioritized(bk)[n].rbag[i]);
            s.a == r.a && s.b == r.b && (r.pri ==> s.pri)
        },
{
    assert(prioritized(bk).dom() =~= bk.dom());
}

proof fn lemma_raised_refs(net: Nt, names: Set<Str>)
    ensures
        net_refs(raised(net, names)) == net_refs(net),
{
    let m = raised(net, names);
    assert forall|x: Str| net_refs(m).contains(x) <==> net_refs(net).contains(x) by {
        if net_refs(m).contains(x) && !tree_refs(net.root).contains(x) {
            let i = choose|i: int|
                0 <= i < m.rbag.len() && (tree_refs((#[trigger] m.rbag[i]).a).contains(x) || tree_refs(
                    m.rbag[i].b,
                ).contains(x));
            assert(tree_refs(net.rbag[i].a).contains(x) || tree_refs(net.rbag[i].b).contains(x));
        }
        if net_refs(net).contains(x) && !tree_refs(net.root).contains(x) {
            let i = choose|i: int|
                0 <= i < net.rbag.len() && (tree_refs((#[trigger] net.rbag[i]).a).contains(x)
                    || tree_refs(net.rbag[i].b).contains(x));
            assert(tree_refs(m.rbag[i].a).contains(x) || tree_refs(m.rbag[i].b).contains(x));
        }
    }
    assert(net_refs(m) =~= net_refs(net));
}

/// Priorities change no dependencies, and adding them again changes nothing.
pub proof fn law_priority_once(bk: Map<Str, Nt>)
    ensures
        deps_of(prioritized(bk)) == deps_of(bk),
        prioritized(prioritized(bk)) == prioritized(bk),
{
    let (p, d) = (prioritized(bk), deps_of(bk));
    assert forall|n: Str| bk.contains_key(n) implies net_refs(p[n]) == net_refs(bk[n]) by {
        lemma_raised_refs(bk[n], recursive_refs(d, n));
    }
    assert(deps_of(p) =~= d);
    assert forall|n: Str| bk.contains_key(n) implies raised(p[n], recursive_refs(d, n)) == p[n] by {
        let s = recursive_refs(d, n);
        lemma_raised_twice(bk[n], s, s);
        assert(s.union(s) =~= s);
    }
    assert(prioritized(p) =~= p);
}

} // verus!
