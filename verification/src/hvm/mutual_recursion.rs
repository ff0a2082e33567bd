//! Cycles of functions that call each other without end.

use crate::diagnostics;
use crate::diagnostics::{Diag, Diagnostics, Diags, Message, Msg, Org, WarningType};
use crate::hvm::ast;
use crate::hvm::ast::{Book, Net, Nt, Redex, Tr, Tree};
use crate::hvm::check_laws;
use crate::hvm::cycle_search;
use crate::hvm::cycle_text;
use crate::indexed;
use crate::name;
use crate::name::{Name, Str};
use crate::name_graph;
use crate::name_map::{NameMap, NameSet};
use crate::text;
use indexmap::{IndexMap, IndexSet};
use vstd::prelude::*;

verus! {

pub type Ref = String;

pub type RefSet = IndexSet<Ref>;

/// The functions that each function refers to actively, in the order in which
/// they were found.
pub struct Graph(IndexMap<Ref, RefSet>);

/// The mathematical content of a graph.
pub type Gr = Seq<(Str, Seq<Str>)>;

impl View for Graph {
    type V = Gr;

    closed spec fn view(&self) -> Gr {
        indexed::edges(self.0)
    }
}

/// A function has one entry, which holds a dependency once, and dependencies
/// have entries too.
pub open spec fn is_graph(g: Gr) -> bool {
    &&& indexed::keys(g).no_duplicates()
    &&& forall|i: int| 0 <= i < g.len() ==> (#[trigger] g[i]).1.no_duplicates()
    &&& forall|i: int, y: Str|
        0 <= i < g.len() && #[trigger] g[i].1.contains(y) ==> indexed::keys(g).contains(y)
}

/// The dependencies of a function in their order.
pub open spec fn deps_list(g: Gr, x: Str) -> Seq<Str> {
    if indexed::keys(g).contains(x) {
        g[indexed::keys(g).index_of(x)].1
    } else {
        Seq::empty()
    }
}

/// The items with one more, unless it is there.
pub open spec fn inserted(s: Seq<Str>, y: Str) -> Seq<Str> {
    if s.contains(y) {
        s
    } else {
        s.push(y)
    }
}

/// The graph with a dependency, whose function has an entry.
pub open spec fn with_dep(g: Gr, x: Str, y: Str) -> Gr {
    if indexed::keys(g).contains(x) {
        let p = indexed::keys(g).index_of(x);
        g.update(p, (x, inserted(g[p].1, y)))
    } else {
        g.push((x, seq![y]))
    }
}

/// The graph with an entry for a function.
pub open spec fn with_key(g: Gr, y: Str) -> Gr {
    if indexed::keys(g).contains(y) {
        g
    } else {
        g.push((y, Seq::empty()))
    }
}

/// The graph with a dependency of a function.
pub open spec fn added(g: Gr, x: Str, y: Str) -> Gr {
    with_key(with_dep(g, x, y), y)
}

/// What changing a set of dependencies or adding an entry does to the keys.
pub proof fn lemma_keys(g: Gr, x: Str, s: Seq<Str>)
    ensures
        indexed::keys(g.push((x, s))) == indexed::keys(g).push(x),
        indexed::keys(g).contains(x) ==> indexed::keys(
            g.update(indexed::keys(g).index_of(x), (x, s)),
        ) == indexed::keys(g),
{
    let ks = indexed::keys(g);
    assert(indexed::keys(g.push((x, s))) =~= ks.push(x));
    if ks.contains(x) {
        assert(indexed::keys(g.update(ks.index_of(x), (x, s))) =~= ks);
    }
}

pub proof fn lemma_contains_push(s: Seq<Str>, y: Str, z: Str)
    ensures
        s.push(y).contains(z) <==> s.contains(z) || z == y,
{
    if s.contains(z) {
        let i = choose|i: int| 0 <= i < s.len() && s[i] == z;
        assert(s.push(y)[i] == z);
    }
    assert(s.push(y)[s.len() as int] == y);
}

pub proof fn lemma_added(g: Gr, x: Str, y: Str)
    requires
        is_graph(g),
    ensures
        is_graph(added(g, x, y)),
{
    let h = with_dep(g, x, y);
    let (ks, hs) = (indexed::keys(g), indexed::keys(h));
    let p = ks.index_of(x);
    assert(hs.no_duplicates()) by {
        if ks.contains(x) {
            lemma_keys(g, x, inserted(g[p].1, y));
        } else {
            lemma_keys(g, x, seq![y]);
        }
    }
    assert forall|i: int| 0 <= i < h.len() implies (#[trigger] h[i]).1.no_duplicates() by {
        if i < g.len() {
            assert(g[i].1.no_duplicates());
        }
    }
    assert forall|z: Str| ks.contains(z) implies hs.contains(z) by {
        if ks.contains(x) {
            lemma_keys(g, x, inserted(g[p].1, y));
        } else {
            lemma_keys(g, x, seq![y]);
            lemma_contains_push(ks, x, z);
        }
    }
    assert forall|i: int, z: Str| 0 <= i < h.len() && #[trigger] h[i].1.contains(z) implies hs.contains(
        z,
    ) || z == y by {
        if i < g.len() {
            if ks.contains(x) && i == p {
                lemma_contains_push(g[p].1, y, z);
            }
            if g[i].1.contains(z) {
                assert(ks.contains(z));
            }
        } else {
            assert(h[i].1 == seq![y]);
        }
    }
    let k = with_key(h, y);
    if !hs.contains(y) {
        lemma_keys(h, y, Seq::empty());
        assert forall|i: int| 0 <= i < k.len() implies (#[trigger] k[i]).1.no_duplicates() by {
            if i < h.len() {
                assert(k[i] == h[i]);
            }
        }
    }
    assert forall|i: int, z: Str| 0 <= i < k.len() && #[trigger] k[i].1.contains(z) implies indexed::keys(
        k,
    ).contains(z) by {
        if i < h.len() {
            assert(h[i].1.contains(z));
        }
        if !hs.contains(y) {
            lemma_contains_push(hs, y, z);
        }
    }
}

impl Graph {
    #[verifier::type_invariant]
    spec fn inv(self) -> bool {
        is_graph(indexed::edges(self.0))
    }

    /// A graph without functions.
    pub fn new() -> (r: Self)
        ensures
            r@ == Seq::<(Str, Seq<Str>)>::empty(),
    {
        Self::default()
    }

    /// Adds a dependency of a function. Both get an entry.
    pub fn add(&mut self, r: Ref, dependency: Ref)
        ensures
            final(self)@ == added(old(self)@, r@, dependency@),
    {
        proof {
            use_type_invariant(&*self);
            lemma_added(self@, r@, dependency@);
        }
        let mut m = indexed::edges_new();
        std::mem::swap(&mut m, &mut self.0);
        let ghost (g, x, y) = (indexed::edges(m), r@, dependency@);
        let deps = indexed::edges_entry(&mut m, r);
        indexed::set_insert(deps, dependency.clone());
        assert(indexed::edges(m) == with_dep(g, x, y)) by {
            assert(Seq::<Str>::empty().push(y) =~= seq![y]);
        }
        let ghost h = indexed::edges(m);
        indexed::edges_entry(&mut m, dependency);
        proof {
            if indexed::keys(h).contains(y) {
                let p = indexed::keys(h).index_of(y);
                assert(indexed::edges(m) =~= h);
            }
        }
        self.0 = m;
    }

    /// The dependencies of a function, if it has an entry.
    pub fn get(&self, r: &Ref) -> (s: Option<&RefSet>)
        ensures
            match s {
                Some(deps) => indexed::keys(self@).contains(r@) && indexed::items(*deps)
                    == deps_list(self@, r@),
                None => !indexed::keys(self@).contains(r@),
            },
    {
        indexed::edges_get(&self.0, r)
    }
}

impl Default for Graph {
    /// A graph without functions.
    fn default() -> (r: Self)
        ensures
            r@ == Seq::<(Str, Seq<Str>)>::empty(),
    {
        Graph(indexed::edges_new())
    }
}

impl Graph {
    /// The functions and their dependencies in the order in which they came.
    pub fn entries(&self) -> (r: Vec<(Ref, Vec<Ref>)>)
        ensures
            r@.len() == self@.len(),
            forall|i: int|
                0 <= i < r@.len() ==> (#[trigger] r@[i]).0@ == self@[i].0 && text::texts(r@[i].1@)
                    == self@[i].1,
    {
        let n: usize = indexed::edges_len(&self.0);
        let mut r: Vec<(Ref, Vec<Ref>)> = Vec::new();
        let mut i: usize = 0;
        while i < n
            invariant
                i <= n,
                n == self@.len(),
                r@.len() == i,
                forall|j: int|
                    0 <= j < i ==> (#[trigger] r@[j]).0@ == self@[j].0 && text::texts(r@[j].1@)
                        == self@[j].1,
            decreases n - i,
        {
            if let Some((x, deps)) = indexed::edges_get_index(&self.0, i) {
                r.push((x.clone(), to_refs(deps)));
            }
            i += 1;
        }
        r
    }
}

/// The items of a set in their order.
fn to_refs(deps: &RefSet) -> (r: Vec<Ref>)
    ensures
        text::texts(r@) == indexed::items(*deps),
{
    let n: usize = indexed::set_len(deps);
    let mut r: Vec<Ref> = Vec::new();
    let mut i: usize = 0;
    while i < n
        invariant
            i <= n,
            n == indexed::items(*deps).len(),
            r@.len() == i,
            forall|j: int| 0 <= j < i ==> (#[trigger] r@[j])@ == indexed::items(*deps)[j],
        decreases n - i,
    {
        if let Some(x) = indexed::set_get_index(deps, i) {
            r.push(x.clone());
        }
        i += 1;
    }
    assert(text::texts(r@) =~= indexed::items(*deps));
    r
}

/* Active references */

/// The references of a tree that are expanded when the tree is, from left to
/// right. What is on the first side of a constructor is not.
pub open spec fn active_refs(t: Tr) -> Seq<Str>
    decreases t,
{
    match t {
        Tr::Ref(n) => seq![n],
        Tr::Con(_, b) => active_refs(*b),
        Tr::Dup(a, b) => active_refs(*a) + active_refs(*b),
        Tr::Opr(a, b) => active_refs(*a) + active_refs(*b),
        Tr::Swi(a, b) => active_refs(*a) + active_refs(*b),
        _ => Seq::empty(),
    }
}

/// The reference that a side of a redex is.
pub open spec fn side_ref(t: Tr) -> Seq<Str> {
    match t {
        Tr::Ref(n) => seq![n],
        _ => Seq::empty(),
    }
}

/// The references that sides of redexes are.
pub open spec fn redex_refs(rbag: Seq<Redex>) -> Seq<Str>
    decreases rbag.len(),
{
    if rbag.len() == 0 {
        Seq::empty()
    } else {
        redex_refs(rbag.drop_last()) + side_ref(rbag.last().a) + side_ref(rbag.last().b)
    }
}

/// The active references of a net: those of the root and the sides of redexes.
pub open spec fn net_active_refs(net: Nt) -> Seq<Str> {
    active_refs(net.root) + redex_refs(net.rbag)
}

/// The graph with dependencies of a function, one after the other.
pub open spec fn added_all(g: Gr, x: Str, ys: Seq<Str>) -> Gr
    decreases ys.len(),
{
    if ys.len() == 0 {
        g
    } else {
        added(added_all(g, x, ys.drop_last()), x, ys.last())
    }
}

proof fn lemma_added_all(g: Gr, x: Str, a: Seq<Str>, b: Seq<Str>)
    ensures
        added_all(g, x, a + b) == added_all(added_all(g, x, a), x, b),
    decreases b.len(),
{
    if b.len() == 0 {
        assert(a + b =~= a);
    } else {
        assert((a + b).drop_last() =~= a + b.drop_last());
        assert((a + b).last() == b.last());
        lemma_added_all(g, x, a, b.drop_last());
    }
}

proof fn lemma_added_one(g: Gr, x: Str, y: Str)
    ensures
        added_all(g, x, seq![y]) == added(g, x, y),
{
    assert(seq![y].drop_last() =~= Seq::empty());
    assert(seq![y].last() == y);
    reveal_with_fuel(added_all, 2);
}

/// The graph of the active references of the functions with these names.
pub open spec fn graph_of_names(bk: Map<Str, Nt>, names: Seq<Str>) -> Gr
    decreases names.len(),
{
    if names.len() == 0 {
        Seq::empty()
    } else {
        added_all(
            graph_of_names(bk, names.drop_last()),
            names.last(),
            net_active_refs(bk[names.last()]),
        )
    }
}

/// The graph of the active references of a program.
pub open spec fn graph_of(bk: Map<Str, Nt>) -> Gr {
    graph_of_names(bk, name::in_order(bk.dom()))
}

pub proof fn lemma_graph_added_all(g: Gr, x: Str, ys: Seq<Str>)
    requires
        is_graph(g),
    ensures
        is_graph(added_all(g, x, ys)),
    decreases ys.len(),
{
    if ys.len() > 0 {
        lemma_graph_added_all(g, x, ys.drop_last());
        lemma_added(added_all(g, x, ys.drop_last()), x, ys.last());
    }
}

pub proof fn lemma_graph_of_names(bk: Map<Str, Nt>, names: Seq<Str>)
    ensures
        is_graph(graph_of_names(bk, names)),
    decreases names.len(),
{
    if names.len() > 0 {
        lemma_graph_of_names(bk, names.drop_last());
        lemma_graph_added_all(
            graph_of_names(bk, names.drop_last()),
            names.last(),
            net_active_refs(bk[names.last()]),
        );
    }
}

/// Adds the active references of a tree.
fn collect_refs(current: &Ref, tree: &Tree, graph: &mut Graph)
    ensures
        final(graph)@ == added_all(old(graph)@, current@, active_refs(tree@)),
    decreases tree,
{
    let ghost (g, x) = (graph@, current@);
    match tree {
        Tree::Ref { nam } => {
            graph.add(current.clone(), nam.clone());
            proof {
                lemma_added_one(g, x, nam@);
            }
        },
        Tree::Con { snd, .. } => {
            collect_refs(current, &**snd, graph);
        },
        _ => {
            let kids = ast::tree_children(tree);
            let n: usize = kids.len();
            if n == 2 {
                proof {
                    let ks = ast::tr_kids(tree@);
                    assert(kids@[0]@ == ks[0]);
                    assert(kids@[1]@ == ks[1]);
                    lemma_added_all(g, x, active_refs(ks[0]), active_refs(ks[1]));
                }
                collect_refs(current, kids[0], graph);
                collect_refs(current, kids[1], graph);
            }
        },
    }
}

/// Adds the reference that a side of a redex is.
fn collect_side(current: &Ref, tree: &Tree, graph: &mut Graph)
    ensures
        final(graph)@ == added_all(old(graph)@, current@, side_ref(tree@)),
{
    if let Tree::Ref { nam } = tree {
        proof {
            lemma_added_one(graph@, current@, nam@);
        }
        graph.add(current.clone(), nam.clone());
    }
}

/// Adds the active references of a net.
fn collect_net(current: &Ref, net: &Net, graph: &mut Graph)
    ensures
        final(graph)@ == added_all(old(graph)@, current@, net_active_refs(net@)),
{
    let ghost (g, x, m) = (graph@, current@, net@);
    collect_refs(current, &net.root, graph);
    let n: usize = net.rbag.len();
    let mut i: usize = 0;
    proof {
        assert(m.rbag.take(0) =~= Seq::empty());
        assert(active_refs(m.root) + Seq::<Str>::empty() =~= active_refs(m.root));
    }
    while i < n
        invariant
            i <= n,
            n == net.rbag@.len(),
            m == net@,
            x == current@,
            graph@ == added_all(g, x, active_refs(m.root) + redex_refs(m.rbag.take(i as int))),
        decreases n - i,
    {
        proof {
            let r = m.rbag[i as int];
            let a = active_refs(m.root) + redex_refs(m.rbag.take(i as int));
            assert(m.rbag.take(i + 1).drop_last() =~= m.rbag.take(i as int));
            assert(m.rbag.take(i + 1).last() == r);
            lemma_added_all(g, x, a, side_ref(r.a));
            lemma_added_all(g, x, a + side_ref(r.a), side_ref(r.b));
            assert(a + side_ref(r.a) + side_ref(r.b) =~= active_refs(m.root) + redex_refs(
                m.rbag.take(i + 1),
            ));
        }
        collect_side(current, &net.rbag[i].1, graph);
        collect_side(current, &net.rbag[i].2, graph);
        i += 1;
    }
    assert(m.rbag.take(n as int) =~= m.rbag);
}

impl<'a> From<&'a Book> for Graph {
    /// The graph of the active references of a program.
    fn from(book: &'a Book) -> (r: Self)
        ensures
            r@ == graph_of(book@),
    {
        let names = book.defs.keys();
        let ghost (bk, ns) = (book@, name::texts(names@));
        let n: usize = names.len();
        let mut graph = Graph::default();
        let mut i: usize = 0;
        assert(ns.take(0) =~= Seq::empty());
        while i < n
            invariant
                i <= n,
                n == names@.len(),
                bk == book@,
                ns == name::texts(names@),
                ns.to_set() == bk.dom(),
                graph@ == graph_of_names(bk, ns.take(i as int)),
            decreases n - i,
        {
            proof {
                assert(ns.take(i + 1).drop_last() =~= ns.take(i as int));
                assert(ns.take(i + 1).last() == names@[i as int]@);
                assert(ns[i as int] == names@[i as int]@);
                assert(ns.to_set().contains(ns[i as int]));
            }
            if let Some(net) = book.defs.get(&names[i]) {
                collect_net(&names[i].0, net, &mut graph);
            }
            i += 1;
        }
        assert(ns.take(n as int) =~= ns);
        graph
    }
}

/// Which graph it is, only its view says.
impl<'a> vstd::std_specs::convert::FromSpecImpl<&'a Book> for Graph {
    open spec fn obeys_from_spec() -> bool {
        false
    }

    open spec fn from_spec(book: &'a Book) -> Self {
        choose|g: Graph| g@ == graph_of(book@)
    }
}

/* Cycles */

impl Graph {
    /// Goes on from a path until it can be closed. If it cannot be closed, the
    /// path is left as it was.
    fn find_cycle_to_start(
        &self,
        current: &Ref,
        start: &Ref,
        in_component: &RefSet,
        on_path: &mut RefSet,
        path: &mut Vec<Ref>,
        Ghost(comp): Ghost<Seq<Str>>,
    ) -> (r: bool)
        requires
            cycle_search::is_path_in(comp, text::texts(old(path)@)),
            text::texts(old(path)@).last() == current@,
            text::texts(old(path)@)[0] == start@,
            indexed::items(*old(on_path)) == text::texts(old(path)@),
            forall|y: Str| #[trigger]
                indexed::items(*in_component).contains(y) <==> comp.contains(y),
        ensures
            ({
                let found = cycle_search::search(self@, comp, text::texts(old(path)@), 0);
                &&& r == found.is_some()
                &&& r ==> text::texts(final(path)@) == found.unwrap()
            }),
            !r ==> text::texts(final(path)@) == text::texts(old(path)@) && indexed::items(
                *final(on_path),
            ) == indexed::items(*old(on_path)),
        decreases comp.len() - old(path)@.len(),
    {
        let ghost (g, p) = (self@, text::texts(path@));
        let dependencies = match self.get(current) {
            Some(deps) => deps,
            None => {
                return false;
            },
        };
        let n: usize = indexed::set_len(dependencies);
        let mut i: usize = 0;
        while i < n
            invariant
                i <= n,
                g == self@,
                n == indexed::items(*dependencies).len(),
                indexed::items(*dependencies) == deps_list(g, p.last()),
                p == text::texts(old(path)@),
                text::texts(path@) == p,
                indexed::items(*on_path) == p,
                cycle_search::is_path_in(comp, p),
                p.last() == current@,
                p[0] == start@,
                forall|y: Str| #[trigger]
                    indexed::items(*in_component).contains(y) <==> comp.contains(y),
                cycle_search::search(g, comp, p, 0) == cycle_search::search(g, comp, p, i as nat),
            decreases n - i,
        {
            if let Some(dep) = indexed::set_get_index(dependencies, i) {
                let ghost y = dep@;
                if indexed::set_contains(in_component, dep) {
                    if *dep == *start && path.len() > 1 {
                        return true;
                    }
                    if indexed::set_insert(on_path, dep.clone()) {
                        let ghost path0 = path@;
                        path.push(dep.clone());
                        proof {
                            cycle_search::lemma_path_len(comp, p, y);
                            assert(text::texts(path@) =~= p.push(y));
                        }
                        if self.find_cycle_to_start(
                            dep,
                            start,
                            in_component,
                            on_path,
                            path,
                            Ghost(comp),
                        ) {
                            return true;
                        }
                        let ghost back = path@;
                        path.pop();
                        proof {
                            assert(text::texts(back).drop_last() =~= text::texts(path@));
                            assert(p.push(y).drop_last() =~= p);
                            let q = p.push(y);
                            lemma_contains_push(p, y, y);
                            assert(q.index_of(y) == p.len()) by {
                                assert(q[p.len() as int] == y);
                                assert(q.no_duplicates());
                            }
                            assert(q.remove(p.len() as int) =~= p);
                        }
                        indexed::set_shift_remove(on_path, dep);
                    }
                }
            }
            i += 1;
        }
        false
    }
}

/* The cycles of a graph */

/// The items as names.
fn to_name_set(deps: &RefSet) -> (r: NameSet)
    ensures
        r@ == indexed::items(*deps).to_set(),
{
    let ghost s = indexed::items(*deps);
    let n: usize = indexed::set_len(deps);
    let mut r = NameSet::new();
    let mut i: usize = 0;
    assert(s.take(0).to_set() =~= Set::empty());
    while i < n
        invariant
            i <= n,
            s == indexed::items(*deps),
            n == s.len(),
            r@ == s.take(i as int).to_set(),
        decreases n - i,
    {
        if let Some(x) = indexed::set_get_index(deps, i) {
            r.insert(Name::new(x.clone()));
        }
        proof {
            let (a, y) = (s.take(i as int), s[i as int]);
            assert(s.take(i + 1) =~= a.push(y));
            assert(a.push(y).to_set() =~= a.to_set().insert(y)) by {
                assert forall|z: Str| a.push(y).to_set().contains(z) <==> a.to_set().insert(
                    y,
                ).contains(z) by {
                    lemma_contains_push(a, y, z);
                }
            }
        }
        i += 1;
    }
    assert(s.take(n as int) =~= s);
    r
}

impl Graph {
    /// The dependencies of each function.
    fn dependencies(&self) -> (r: NameMap<NameSet>)
        ensures
            r@ == cycle_search::graph_deps(self@),
            is_graph(self@),
    {
        proof {
            use_type_invariant(self);
        }
        let ghost (g, ks) = (self@, indexed::keys(self@));
        let n: usize = indexed::edges_len(&self.0);
        let mut r: NameMap<NameSet> = NameMap::new();
        let mut i: usize = 0;
        while i < n
            invariant
                i <= n,
                g == self@,
                ks == indexed::keys(g),
                n == g.len(),
                is_graph(g),
                forall|x: Str| #[trigger] r@.contains_key(x) <==> ks.take(i as int).contains(x),
                forall|x: Str| #[trigger] r@.contains_key(x) ==> r@[x] == deps_list(g, x).to_set(),
            decreases n - i,
        {
            let ghost before = r@;
            if let Some((x, deps)) = indexed::edges_get_index(&self.0, i) {
                r.insert(Name::new(x.clone()), to_name_set(deps));
                proof {
                    let (a, b, y) = (ks.take(i as int), ks.take(i + 1), ks[i as int]);
                    assert(b =~= a.push(y));
                    assert(ks.contains(y));
                    assert(ks.index_of(y) == i);
                    assert forall|z: Str| #[trigger] r@.contains_key(z) <==> b.contains(z) by {
                        assert(before.contains_key(z) <==> a.contains(z));
                        lemma_contains_push(a, y, z);
                    }
                }
            }
            i += 1;
        }
        proof {
            assert(ks.take(n as int) =~= ks);
            assert(r@ =~= cycle_search::graph_deps(g));
        }
        r
    }

    /// A cycle through the first function of a component.
    fn representative_cycle(&self, start: &Ref, component: &Vec<Name>) -> (r: Vec<Ref>)
        requires
            name::sorted(name::texts(component@)),
            forall|y: Str| #[trigger]
                name::texts(component@).contains(y) <==> name_graph::tied(
                    cycle_search::graph_deps(self@),
                    start@,
                    y,
                ),
            !cycle_search::is_lone(self@, start@),
        ensures
            text::texts(r@) == cycle_search::first_cycle(self@, start@),
    {
        let ghost (g, comp, x) = (self@, name::texts(component@), start@);
        let n: usize = component.len();
        let mut in_component = indexed::set_new();
        let mut i: usize = 0;
        while i < n
            invariant
                i <= n,
                n == component@.len(),
                comp == name::texts(component@),
                forall|y: Str| #[trigger]
                    indexed::items(in_component).contains(y) <==> comp.take(i as int).contains(y),
            decreases n - i,
        {
            let ghost before = indexed::items(in_component);
            indexed::set_insert(&mut in_component, component[i].0.clone());
            proof {
                let (a, b, z) = (comp.take(i as int), comp.take(i + 1), comp[i as int]);
                assert(z == component@[i as int]@);
                assert(b =~= a.push(z));
                assert forall|y: Str| #[trigger] indexed::items(in_component).contains(y)
                    <==> b.contains(y) by {
                    lemma_contains_push(a, z, y);
                    lemma_contains_push(before, z, y);
                    assert(before.contains(y) <==> a.contains(y));
                }
            }
            i += 1;
        }
        proof {
            assert(comp.take(n as int) =~= comp);
            cycle_search::lemma_component(g, comp, x);
            cycle_search::lemma_cycle_exists(g, comp, x);
            name_graph::lemma_needs_refl(cycle_search::graph_deps(g), x);
            assert(comp.contains(x));
        }
        let mut path: Vec<Ref> = Vec::new();
        path.push(start.clone());
        let mut on_path = indexed::set_new();
        indexed::set_insert(&mut on_path, start.clone());
        proof {
            assert(text::texts(path@) =~= seq![x]);
            assert(Seq::<Str>::empty().push(x) =~= seq![x]);
            assert(cycle_search::is_path_in(comp, seq![x]));
        }
        self.find_cycle_to_start(start, start, &in_component, &mut on_path, &mut path, Ghost(comp));
        path
    }
}

/// Each name of a group has a group that it stands in.
spec fn are_places(gs: Seq<Seq<Str>>, places: Map<Str, usize>, x: Str) -> bool {
    &&& places.contains_key(x)
    &&& places[x] < gs.len()
    &&& gs[places[x] as int].contains(x)
}

/// The number of the group that each name stands in.
fn group_places(groups: &Vec<Vec<Name>>) -> (r: NameMap<usize>)
    ensures
        forall|k: int, x: Str|
            0 <= k < groups@.len() && #[trigger] name_graph::lists(groups@)[k].contains(x)
                ==> are_places(name_graph::lists(groups@), r@, x),
{
    let ghost gs = name_graph::lists(groups@);
    let n: usize = groups.len();
    let mut r: NameMap<usize> = NameMap::new();
    let mut k: usize = 0;
    while k < n
        invariant
            k <= n,
            n == groups@.len(),
            gs == name_graph::lists(groups@),
            forall|l: int, x: Str|
                0 <= l < k && #[trigger] gs[l].contains(x) ==> are_places(gs, r@, x),
        decreases n - k,
    {
        let m: usize = groups[k].len();
        let mut j: usize = 0;
        assert(gs[k as int] == name::texts(groups@[k as int]@));
        while j < m
            invariant
                j <= m,
                k < n,
                n == groups@.len(),
                gs == name_graph::lists(groups@),
                gs[k as int] == name::texts(groups@[k as int]@),
                m == groups@[k as int]@.len(),
                forall|l: int, x: Str|
                    0 <= l < k && #[trigger] gs[l].contains(x) ==> are_places(gs, r@, x),
                forall|i: int| 0 <= i < j ==> are_places(gs, r@, #[trigger] gs[k as int][i]),
            decreases m - j,
        {
            let ghost before = r@;
            r.insert(groups[k][j].clone(), k);
            proof {
                let y = gs[k as int][j as int];
                assert(y == groups@[k as int]@[j as int]@);
                assert(gs[k as int].contains(y));
                assert forall|x: Str| are_places(gs, before, x) implies are_places(gs, r@, x) by {}
                assert(are_places(gs, r@, y));
            }
            j += 1;
        }
        proof {
            assert forall|l: int, x: Str|
                0 <= l < k + 1 && #[trigger] gs[l].contains(x) implies are_places(gs, r@, x) by {
                if l == k {
                    let i = choose|i: int| 0 <= i < gs[l].len() && gs[l][i] == x;
                    assert(are_places(gs, r@, gs[k as int][i]));
                }
            }
        }
        k += 1;
    }
    r
}

impl Graph {
    /// A cycle for each recursive component of the graph. Those of more than
    /// one function come first. Otherwise they come in the order in which their
    /// first functions came into the graph.
    pub fn cycles(&self) -> (r: Vec<Vec<Ref>>)
        ensures
            text::lists(r@) == cycle_search::graph_cycles(self@),
    {
        let deps = self.dependencies();
        let groups = name_graph::groups(&deps);
        let places = group_places(&groups);
        let ghost (g, d, gs) = (self@, cycle_search::graph_deps(self@), name_graph::lists(groups@));
        let n: usize = indexed::edges_len(&self.0);
        let mut seen: Vec<bool> = Vec::new();
        let mut k: usize = 0;
        while k < groups.len()
            invariant
                k <= groups@.len(),
                seen@.len() == k,
                forall|l: int| 0 <= l < k ==> !#[trigger] seen@[l],
            decreases groups@.len() - k,
        {
            seen.push(false);
            k += 1;
        }
        let mut long: Vec<Vec<Ref>> = Vec::new();
        let mut lone: Vec<Vec<Ref>> = Vec::new();
        let mut i: usize = 0;
        proof {
            assert(text::lists(long@) =~= Seq::empty());
            assert(text::lists(lone@) =~= Seq::empty());
        }
        while i < n
            invariant
                i <= n,
                g == self@,
                n == g.len(),
                d == cycle_search::graph_deps(g),
                d == deps@,
                is_graph(g),
                gs == name_graph::lists(groups@),
                name_graph::is_groups(d, gs),
                seen@.len() == gs.len(),
                gs.len() == groups@.len(),
                forall|l: int, x: Str|
                    0 <= l < gs.len() && #[trigger] gs[l].contains(x) ==> are_places(gs, places@, x),
                forall|l: int|
                    0 <= l < gs.len() ==> (#[trigger] seen@[l] <==> exists|j: int|
                        0 <= j < i && gs[l].contains((#[trigger] g[j]).0)),
                text::lists(long@) == cycle_search::long_cycles(g, i as nat),
                text::lists(lone@) == cycle_search::lone_cycles(g, i as nat),
            decreases n - i,
        {
            if let Some((x, deps_of_x)) = indexed::edges_get_index(&self.0, i) {
                let ghost y = g[i as int].0;
                proof {
                    assert(indexed::keys(g)[i as int] == y);
                    assert(d.contains_key(y));
                    assert(name_graph::nodes(d).contains(y));
                    let l = choose|l: int| 0 <= l < gs.len() && #[trigger] gs[l].contains(y);
                    assert(are_places(gs, places@, y));
                }
                if let Some(p) = places.get(&Name::new(x.clone())) {
                    let place: usize = *p;
                    let ghost seen0 = seen@;
                    let first = !seen[place];
                    proof {
                        cycle_search::lemma_lone(g, gs, place as int, y);
                        name_graph::lemma_recursive_group(d, gs, place as int, y);
                        assert(first <==> forall|j: int|
                            0 <= j < i ==> !name_graph::tied(d, y, #[trigger] g[j].0)) by {
                            assert forall|j: int| 0 <= j < i implies (gs[place as int].contains(
                                (#[trigger] g[j]).0,
                            ) <==> name_graph::tied(d, y, g[j].0)) by {}
                            if !first {
                                let j = choose|j: int|
                                    0 <= j < i && gs[place as int].contains((#[trigger] g[j]).0);
                                assert(name_graph::tied(d, y, g[j].0));
                            }
                        }
                        assert(gs[place as int] == name::texts(groups@[place as int]@));
                        assert(deps_list(g, y) == indexed::items(*deps_of_x)) by {
                            assert(indexed::keys(g).contains(y));
                            assert(indexed::keys(g).index_of(y) == i);
                        }
                        assert(name_graph::dep(d, y, y) <==> indexed::items(*deps_of_x).contains(y));
                    }
                    if first {
                        seen.set(place, true);
                        if groups[place].len() > 1 {
                            let ghost before = text::lists(long@);
                            let c = self.representative_cycle(x, &groups[place]);
                            long.push(c);
                            assert(text::lists(long@) =~= before.push(cycle_search::first_cycle(g, y)));
                        } else if indexed::set_contains(deps_of_x, x) {
                            let ghost before = text::lists(lone@);
                            let mut c: Vec<Ref> = Vec::new();
                            c.push(x.clone());
                            assert(text::texts(c@) =~= seq![y]);
                            lone.push(c);
                            assert(text::lists(lone@) =~= before.push(seq![y]));
                        }
                    }
                    proof {
                        assert forall|l: int| 0 <= l < gs.len() implies (#[trigger] seen@[l]
                            <==> exists|j: int|
                            0 <= j < i + 1 && gs[l].contains((#[trigger] g[j]).0)) by {
                            assert(seen0[l] <==> exists|j: int|
                                0 <= j < i && gs[l].contains((#[trigger] g[j]).0));
                            if seen0[l] {
                                let j = choose|j: int|
                                    0 <= j < i && gs[l].contains((#[trigger] g[j]).0);
                                assert(gs[l].contains(g[j].0));
                            }
                            if gs[l].contains(y) {
                                assert(gs[l].contains(g[i as int].0));
                                name_graph::lemma_disjoint(d, gs, l, place as int, y);
                            }
                            if l == place {
                                assert(gs[l].contains(g[i as int].0));
                            }
                        }
                    }
                }
            }
            i += 1;
        }
        let ghost (a, b) = (long@, lone@);
        long.append(&mut lone);
        assert(text::lists(long@) =~= text::lists(a) + text::lists(b));
        long
    }
}

/* The check */

/// The diagnostics with a warning about the cycles of a graph, if there are any.
pub open spec fn with_cycles_warning(ds: Diags, g: Gr) -> Diags {
    if cycle_search::graph_cycles(g).len() > 0 {
        diagnostics::with_item(
            ds,
            Diag {
                message: Msg::RecursionCycles(cycle_text::shown_cycles(cycle_search::graph_cycles(g))),
                severity: ds.config.recursion_cycle,
                origin: Org::Book,
                source: diagnostics::unknown_source(),
            },
        )
    } else {
        ds
    }
}

/// Warns of functions that call each other without end. Fails if a diagnostic
/// is an error, be it this warning or an earlier one.
pub fn check_cycles(book: &Book, diagnostics: &mut Diagnostics) -> (r: Result<(), Diagnostics>)
    ensures
        ({
            let ds = with_cycles_warning(old(diagnostics)@, graph_of(book@));
            match r {
                Ok(()) => !diagnostics::any_error(ds) && final(diagnostics)@ == ds,
                Err(e) => diagnostics::any_error(ds) && e@ == ds && final(diagnostics)@
                    == diagnostics::no_diagnostics(),
            }
        }),
        match r {
            Ok(()) => {
                &&& check_laws::is_warned(book@, old(diagnostics)@, final(diagnostics)@)
                &&& !check_laws::has_error(final(diagnostics)@)
            },
            Err(e) => {
                &&& check_laws::is_warned(book@, old(diagnostics)@, e@)
                &&& check_laws::has_error(e@)
                &&& final(diagnostics)@.items.len() == 0
            },
        },
{
    proof {
        book.defs.lemma_finite();
        check_laws::law_cycles_warning(book@, old(diagnostics)@);
    }
    let graph = Graph::from(book);
    let cycles = graph.cycles();
    if cycles.len() > 0 {
        let shown = cycle_text::show_cycles(&cycles);
        diagnostics.add_book_warning(
            Message::RecursionCycles(shown),
            WarningType::RecursionCycle,
        );
    }
    diagnostics.fatal()
}

} // verus!
