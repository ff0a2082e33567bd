//! Strongly connected components of a finite directed graph.
//!
//! The nodes of a graph are the numbers below the length of its adjacency
//! list. The components come in the order in which a depth first search that
//! starts from each node in turn, and follows the edges of a node in turn,
//! finishes the last node of each.

use vstd::prelude::*;

verus! {

/// An adjacency list: the successors of each node.
pub type Adj = Seq<Vec<usize>>;

/// Every edge leads to a node.
pub open spec fn is_graph(g: Adj) -> bool {
    forall|u: int, k: int|
        0 <= u < g.len() && 0 <= k < g[u]@.len() ==> #[trigger] g[u]@[k] < g.len()
}

pub open spec fn edge(g: Adj, u: int, v: int) -> bool {
    0 <= u < g.len() && exists|k: int| 0 <= k < g[u]@.len() && #[trigger] g[u]@[k] == v
}

/// Every two neighbours in the sequence are joined by an edge.
pub open spec fn is_path(g: Adj, p: Seq<int>) -> bool {
    forall|i: int| 0 <= i < p.len() - 1 ==> edge(g, #[trigger] p[i], p[i + 1])
}

/// There is a path, maybe of no edge, from one node to another.
pub open spec fn reach(g: Adj, u: int, v: int) -> bool {
    exists|p: Seq<int>| #[trigger] is_path(g, p) && p.len() > 0 && p[0] == u && p.last() == v
}

/// Each of the two nodes reaches the other.
pub open spec fn linked(g: Adj, u: int, v: int) -> bool {
    reach(g, u, v) && reach(g, v, u)
}

pub proof fn lemma_reach_refl(g: Adj, u: int)
    ensures
        reach(g, u, u),
{
    assert(is_path(g, seq![u]));
    assert(seq![u].last() == u);
}

pub proof fn lemma_reach_edge(g: Adj, u: int, v: int)
    requires
        edge(g, u, v),
    ensures
        reach(g, u, v),
{
    let p = seq![u, v];
    assert(is_path(g, p));
    assert(p[0] == u && p.last() == v);
}

pub proof fn lemma_reach_trans(g: Adj, u: int, v: int, w: int)
    requires
        reach(g, u, v),
        reach(g, v, w),
    ensures
        reach(g, u, w),
{
    let p = choose|p: Seq<int>| #[trigger] is_path(g, p) && p.len() > 0 && p[0] == u && p.last() == v;
    let q = choose|q: Seq<int>| #[trigger] is_path(g, q) && q.len() > 0 && q[0] == v && q.last() == w;
    let r = p + q.drop_first();
    assert forall|i: int| 0 <= i < r.len() - 1 implies edge(g, #[trigger] r[i], r[i + 1]) by {
        if i < p.len() - 1 {
            assert(r[i] == p[i] && r[i + 1] == p[i + 1]);
        } else {
            let j = i - (p.len() - 1);
            assert(r[i] == q[j] && r[i + 1] == q[j + 1]);
        }
    }
    assert(is_path(g, r));
    assert(r[0] == u);
    assert(r.last() == w);
}

/// A set that no edge leaves holds everything that its nodes reach.
pub proof fn lemma_closed_reach(g: Adj, s: Set<int>, u: int, v: int)
    requires
        forall|a: int, b: int| s.contains(a) && #[trigger] edge(g, a, b) ==> s.contains(b),
        s.contains(u),
        reach(g, u, v),
    ensures
        s.contains(v),
{
    let p = choose|p: Seq<int>| #[trigger] is_path(g, p) && p.len() > 0 && p[0] == u && p.last() == v;
    lemma_closed_path(g, s, p, p.len() - 1);
}

proof fn lemma_closed_path(g: Adj, s: Set<int>, p: Seq<int>, i: int)
    requires
        forall|a: int, b: int| s.contains(a) && #[trigger] edge(g, a, b) ==> s.contains(b),
        is_path(g, p),
        0 <= i < p.len(),
        s.contains(p[0]),
    ensures
        s.contains(p[i]),
    decreases i,
{
    if i > 0 {
        lemma_closed_path(g, s, p, i - 1);
        assert(edge(g, p[i - 1], p[i - 1 + 1]));
    }
}

/* Depth first search */

/// What a depth first search has seen: the nodes that it has entered, and
/// those that it has left in the order in which it left them.
pub struct Walk {
    pub seen: Set<int>,
    pub done: Seq<int>,
}

/// Enters a node that was not seen, walks its successors and leaves it.
pub open spec fn visit(g: Adj, v: int, w: Walk, fuel: nat) -> Walk
    decreases fuel, 0nat,
{
    if fuel == 0 || w.seen.contains(v) {
        w
    } else {
        let w1 = visit_from(g, v, 0, Walk { seen: w.seen.insert(v), done: w.done }, (fuel - 1) as nat);
        Walk { seen: w1.seen, done: w1.done.push(v) }
    }
}

/// Visits the successors of a node from the given one on.
pub open spec fn visit_from(g: Adj, v: int, k: int, w: Walk, fuel: nat) -> Walk
    decreases fuel, 1nat, g[v]@.len() - k,
{
    if 0 <= k < g[v]@.len() {
        visit_from(g, v, k + 1, visit(g, g[v]@[k] as int, w, fuel), fuel)
    } else {
        w
    }
}

/// Visits every node from the given one on.
pub open spec fn visit_roots(g: Adj, v: int, w: Walk) -> Walk
    decreases g.len() - v,
{
    if 0 <= v < g.len() {
        visit_roots(g, v + 1, visit(g, v, w, g.len()))
    } else {
        w
    }
}

/// The nodes in the order in which the search leaves them.
pub open spec fn finish_order(g: Adj) -> Seq<int> {
    visit_roots(g, 0, Walk { seen: Set::empty(), done: Seq::empty() }).done
}

/* Components */

/// The node stands in the component.
pub open spec fn member(c: Vec<usize>, x: int) -> bool {
    exists|i: int| 0 <= i < c@.len() && #[trigger] c@[i] == x
}

/// The node stands in one of the components.
pub open spec fn covered(cs: Seq<Vec<usize>>, x: int) -> bool {
    exists|k: int| 0 <= k < cs.len() && member(#[trigger] cs[k], x)
}

/// The lists hold each node once.
pub open spec fn apart(cs: Seq<Vec<usize>>) -> bool {
    forall|k: int, i: int, l: int, j: int|
        0 <= k < cs.len() && 0 <= l < cs.len() && 0 <= i < cs[k]@.len() && 0 <= j < cs[l]@.len()
            && #[trigger] cs[k]@[i] == #[trigger] cs[l]@[j] ==> k == l && i == j
}

/// Each list is a whole strongly connected component.
pub open spec fn whole(g: Adj, cs: Seq<Vec<usize>>) -> bool {
    &&& forall|k: int| 0 <= k < cs.len() ==> (#[trigger] cs[k])@.len() > 0
    &&& forall|k: int, i: int|
        0 <= k < cs.len() && 0 <= i < cs[k]@.len() ==> #[trigger] cs[k]@[i] < g.len()
    &&& forall|k: int, i: int, y: int|
        #![trigger cs[k]@[i], linked(g, cs[k]@[i] as int, y)]
        0 <= k < cs.len() && 0 <= i < cs[k]@.len() ==> (member(cs[k], y) <==> linked(
            g,
            cs[k]@[i] as int,
            y,
        ))
}

/// The last node of each list is the one of them that was left last, and the
/// lists stand in the order in which their last nodes were left.
pub open spec fn by_finish(done: Seq<int>, cs: Seq<Vec<usize>>) -> bool {
    &&& forall|k: int, i: int|
        0 <= k < cs.len() && 0 <= i < cs[k]@.len() ==> done.contains(#[trigger] cs[k]@[i] as int)
            && done.index_of(cs[k]@[i] as int) <= done.index_of(cs[k]@.last() as int)
    &&& forall|k: int, l: int|
        0 <= k < l < cs.len() ==> done.index_of((#[trigger] cs[k])@.last() as int) < done.index_of(
            (#[trigger] cs[l])@.last() as int,
        )
}

/// An edge leads into the same component or into one that comes before.
pub open spec fn downward(g: Adj, cs: Seq<Vec<usize>>) -> bool {
    forall|k: int, i: int, y: int|
        #![trigger cs[k]@[i], edge(g, cs[k]@[i] as int, y)]
        0 <= k < cs.len() && 0 <= i < cs[k]@.len() && edge(g, cs[k]@[i] as int, y) ==> covered(
            cs.take(k + 1),
            y,
        )
}

/// The strongly connected components of a graph, each once, in the order in
/// which the depth first search leaves them.
pub open spec fn components_of(g: Adj, cs: Seq<Vec<usize>>) -> bool {
    &&& whole(g, cs)
    &&& apart(cs)
    &&& forall|x: int| 0 <= x < g.len() ==> #[trigger] covered(cs, x)
    &&& downward(g, cs)
    &&& by_finish(finish_order(g), cs)
}

proof fn lemma_index_push(done: Seq<int>, v: int, x: int)
    requires
        done.push(v).no_duplicates(),
        done.contains(x),
    ensures
        done.push(v).index_of(x) == done.index_of(x),
        0 <= done.index_of(x) < done.len(),
{
    let d1 = done.push(v);
    let i = done.index_of(x);
    assert(done[i] == x);
    assert(d1[i] == x);
    assert(d1.contains(x));
    let j = d1.index_of(x);
    assert(d1[j] == x);
    assert(i == j);
}

/// Leaving one more node does not move the earlier ones.
proof fn lemma_finish_push(done: Seq<int>, v: int, cs: Seq<Vec<usize>>)
    requires
        done.push(v).no_duplicates(),
        by_finish(done, cs),
        forall|k: int| 0 <= k < cs.len() ==> (#[trigger] cs[k])@.len() > 0,
    ensures
        by_finish(done.push(v), cs),
        forall|k: int| 0 <= k < cs.len() ==> done.push(v).index_of((#[trigger] cs[k])@.last() as int) < done.len(),
{
    let d1 = done.push(v);
    assert forall|k: int| 0 <= k < cs.len() implies d1.index_of((#[trigger] cs[k])@.last() as int)
        == done.index_of(cs[k]@.last() as int) && d1.index_of(cs[k]@.last() as int) < done.len() by {
        let i = cs[k]@.len() - 1;
        assert(done.contains(cs[k]@[i] as int));
        lemma_index_push(done, v, cs[k]@[i] as int);
    }
    assert forall|k: int, i: int| 0 <= k < cs.len() && 0 <= i < cs[k]@.len() implies d1.contains(
        #[trigger] cs[k]@[i] as int,
    ) && d1.index_of(cs[k]@[i] as int) <= d1.index_of(cs[k]@.last() as int) by {
        let x = cs[k]@[i] as int;
        assert(done.contains(x));
        lemma_index_push(done, v, x);
        assert(d1[done.index_of(x)] == x);
        assert(cs[k]@.len() > 0);
    }
}

struct Tarjan<'a> {
    adj: &'a Vec<Vec<usize>>,
    index: usize,
    indices: Vec<Option<usize>>,
    stack: Vec<usize>,
    on_stack: Vec<bool>,
    components: Vec<Vec<usize>>,
    done: Ghost<Seq<int>>,
}

impl<'a> Tarjan<'a> {
    spec fn g(self) -> Adj {
        self.adj@
    }

    spec fn n(self) -> int {
        self.adj@.len() as int
    }

    spec fn seen(self, x: int) -> bool {
        0 <= x < self.n() && self.indices@[x] is Some
    }

    spec fn idx(self, x: int) -> int {
        self.indices@[x]->0 as int
    }

    spec fn on(self, x: int) -> bool {
        0 <= x < self.n() && self.on_stack@[x]
    }

    /// Entered, left and put into a component.
    spec fn settled(self, x: int) -> bool {
        self.seen(x) && !self.on(x)
    }

    spec fn walk(self, path: Seq<int>) -> Walk {
        Walk { seen: path.to_set().union(self.done@.to_set()), done: self.done@ }
    }

    spec fn sizes(self) -> bool {
        &&& is_graph(self.g())
        &&& self.indices@.len() == self.n()
        &&& self.on_stack@.len() == self.n()
    }

    /// The nodes that were entered are those on the path and those that were left.
    spec fn counted(self, path: Seq<int>) -> bool {
        &&& self.index == self.done@.len() + path.len()
        &&& self.done@.no_duplicates()
        &&& path.no_duplicates()
        &&& forall|x: int| path.contains(x) ==> !self.done@.contains(x)
        &&& forall|x: int| #[trigger] self.seen(x) <==> path.contains(x) || self.done@.contains(x)
        &&& forall|x: int| #[trigger] self.seen(x) ==> self.idx(x) < self.index
    }

    spec fn stacked(self, path: Seq<int>) -> bool {
        &&& forall|i: int| 0 <= i < self.stack@.len() ==> self.on(#[trigger] self.stack@[i] as int)
        &&& forall|x: int| #[trigger] self.on(x) ==> self.seen(x) && exists|i: int| 0 <= i < self.stack@.len() && self.stack@[i] == x
        &&& forall|i: int, j: int|
            0 <= i < j < self.stack@.len() ==> self.idx(#[trigger] self.stack@[i] as int) < self.idx(
                #[trigger] self.stack@[j] as int,
            )
        &&& forall|i: int| 0 <= i < path.len() ==> self.on(#[trigger] path[i])
        &&& forall|i: int, j: int|
            0 <= i < j < path.len() ==> self.idx(#[trigger] path[i]) < self.idx(#[trigger] path[j])
    }

    /// The node reaches a node of the path that was entered no later.
    #[verifier::opaque]
    spec fn anchored(self, path: Seq<int>, y: int) -> bool {
        exists|i: int|
            0 <= i < path.len() && self.idx(#[trigger] path[i]) <= self.idx(y) && reach(self.g(), y, path[i])
    }

    proof fn lemma_anchor(self, path: Seq<int>, y: int) -> (i: int)
        requires
            self.anchored(path, y),
        ensures
            0 <= i < path.len(),
            self.idx(path[i]) <= self.idx(y),
            reach(self.g(), y, path[i]),
    {
        reveal(Tarjan::anchored);
        choose|i: int|
            0 <= i < path.len() && self.idx(#[trigger] path[i]) <= self.idx(y) && reach(self.g(), y, path[i])
    }

    proof fn lemma_anchored(self, path: Seq<int>, y: int, i: int)
        requires
            0 <= i < path.len(),
            self.idx(path[i]) <= self.idx(y),
            reach(self.g(), y, path[i]),
        ensures
            self.anchored(path, y),
    {
        reveal(Tarjan::anchored);
    }

    spec fn tied(self, path: Seq<int>) -> bool {
        &&& forall|y: int| #[trigger] self.on(y) ==> self.anchored(path, y)
        &&& forall|i: int, y: int|
            0 <= i < path.len() && #[trigger] self.on(y) && self.idx(#[trigger] path[i]) <= self.idx(y)
                ==> reach(self.g(), path[i], y)
    }

    spec fn grouped(self) -> bool {
        &&& whole(self.g(), self.components@)
        &&& apart(self.components@)
        &&& forall|k: int, i: int|
            0 <= k < self.components@.len() && 0 <= i < self.components@[k]@.len() ==> self.settled(
                #[trigger] self.components@[k]@[i] as int,
            )
        &&& forall|x: int| #[trigger]
            self.settled(x) ==> covered(self.components@, x)
        &&& downward(self.g(), self.components@)
        &&& by_finish(self.done@, self.components@)
    }

    spec fn edges_done(self) -> bool {
        &&& forall|x: int, y: int|
            self.settled(x) && #[trigger] edge(self.g(), x, y) ==> self.settled(y)
        &&& forall|x: int, y: int|
            self.done@.contains(x) && #[trigger] edge(self.g(), x, y) ==> self.seen(y)
    }

    #[verifier::opaque]
    spec fn inv(self, path: Seq<int>) -> bool {
        &&& self.sizes()
        &&& self.counted(path)
        &&& self.stacked(path)
        &&& self.tied(path)
        &&& self.grouped()
        &&& self.edges_done()
    }

    /// Nothing of an earlier state is lost.
    spec fn extends(self, old: Self) -> bool {
        &&& self.adj == old.adj
        &&& self.index >= old.index
        &&& old.stack@.len() <= self.stack@.len()
        &&& self.stack@.take(old.stack@.len() as int) == old.stack@
        &&& forall|x: int| #[trigger] old.seen(x) ==> self.seen(x) && self.indices@[x] == old.indices@[x]
            && self.on_stack@[x] == old.on_stack@[x]
        &&& forall|x: int| #[trigger] self.seen(x) && !old.seen(x) ==> self.idx(x) >= old.index
    }

    /// The lowest index that the nodes entered since `base` can step to.
    spec fn bounds(self, base: int, low: int) -> bool {
        forall|x: int, y: int|
            self.on(x) && self.idx(x) >= base && #[trigger] edge(self.g(), x, y) && self.on(y)
                && self.idx(y) < base ==> low <= self.idx(y)
    }

    /// Some node on the stack has this index and is reached.
    spec fn witness(self, v: int, low: int) -> bool {
        exists|y: int| #[trigger] self.on(y) && self.idx(y) == low && reach(self.g(), v, y)
    }

    /// There is room for one more node.
    proof fn lemma_room(self, path: Seq<int>, v: int)
        requires
            self.sizes(),
            self.counted(path),
            0 <= v < self.n(),
            !self.seen(v),
        ensures
            self.index < self.n(),
    {
        let all = self.done@ + path.push(v);
        assert forall|i: int, j: int| 0 <= i < j < all.len() implies all[i] != all[j] by {
            let d = self.done@.len();
            assert(0 <= i < d ==> self.done@.contains(all[i]));
            assert(0 <= j < d ==> self.done@.contains(all[j]));
            assert(d <= i < all.len() - 1 ==> all[i] == path[i - d] && path.contains(all[i]));
            assert(d <= j < all.len() - 1 ==> all[j] == path[j - d] && path.contains(all[j]));
            assert(self.seen(all[i]));
        }
        assert(all.no_duplicates());
        assert forall|x: int| all.to_set().contains(x) implies 0 <= x < self.n() by {
            let i = choose|i: int| 0 <= i < all.len() && all[i] == x;
            if i < self.done@.len() {
                assert(self.done@.contains(x));
                assert(self.seen(x));
            } else if i < all.len() - 1 {
                assert(path[i - self.done@.len()] == x);
                assert(path.contains(x));
                assert(self.seen(x));
            }
        }
        all.unique_seq_to_set();
        vstd::set_lib::lemma_int_range(0, self.n());
        let range = vstd::set_lib::set_int_range(0, self.n());
        assert(all.to_set().subset_of(range));
        vstd::set_lib::lemma_len_subset(all.to_set(), range);
    }

    /// The state after entering a node.
    spec fn entered(self, new: Self, node: usize, v: int) -> bool {
        &&& v == node
        &&& v < self.n()
        &&& !self.seen(v)
        &&& self.index < self.n()
        &&& new.adj == self.adj
        &&& new.index == self.index + 1
        &&& new.indices@ == self.indices@.update(v, Some(self.index))
        &&& new.stack@ == self.stack@.push(node)
        &&& new.on_stack@ == self.on_stack@.update(v, true)
        &&& new.components@ == self.components@
        &&& new.done@ == self.done@
    }

    /// Entering a node counts it.
    proof fn lemma_enter_counted(self, new: Self, path: Seq<int>, node: usize, v: int)
        requires
            self.sizes(),
            self.entered(new, node, v),
            self.counted(path),
        ensures
            new.counted(path.push(v)),
            new.walk(path.push(v)) == (Walk { seen: self.walk(path).seen.insert(v), done: self.done@ }),
    {
        let path1 = path.push(v);
        assert forall|x: int| x != v implies #[trigger] new.seen(x) == self.seen(x) && #[trigger] new.on(x)
            == self.on(x) && (0 <= x < self.n() ==> new.idx(x) == self.idx(x)) by {}
        assert(new.seen(v) && new.on(v) && new.idx(v) == self.index);
        assert(!path.contains(v) && !self.done@.contains(v)) by {
            assert(!self.seen(v));
        }
        assert forall|x: int| path1.contains(x) <==> path.contains(x) || x == v by {
            if path.contains(x) {
                let i = choose|i: int| 0 <= i < path.len() && path[i] == x;
                assert(path1[i] == x);
            }
            assert(path1[path.len() as int] == v);
        }
        assert(new.counted(path1)) by {
            assert forall|i: int, j: int| 0 <= i < j < path1.len() implies path1[i] != path1[j] by {
                assert(path.contains(path1[i]));
            }
            assert forall|x: int| #[trigger] new.seen(x) <==> path1.contains(x) || new.done@.contains(x) by {
                assert(self.seen(x) <==> path.contains(x) || self.done@.contains(x));
            }
            assert forall|x: int| #[trigger] new.seen(x) implies new.idx(x) < new.index by {
                if x != v {
                    assert(self.seen(x));
                }
            }
        }
        assert(new.walk(path1).seen =~= self.walk(path).seen.insert(v)) by {
            assert forall|x: int| path1.to_set().contains(x) <==> path.to_set().insert(v).contains(x) by {
                assert(path1.contains(x) <==> path.contains(x) || x == v);
            }
        }
    }

    /// Entering a node stacks it.
    proof fn lemma_enter_stacked(self, new: Self, path: Seq<int>, node: usize, v: int)
        requires
            self.sizes(),
            self.entered(new, node, v),
            self.counted(path),
            self.stacked(path),
        ensures
            new.stacked(path.push(v)),
    {
        let path1 = path.push(v);
        assert forall|x: int| x != v implies #[trigger] new.seen(x) == self.seen(x) && #[trigger] new.on(x)
            == self.on(x) && (0 <= x < self.n() ==> new.idx(x) == self.idx(x)) by {}
        assert(new.seen(v) && new.on(v) && new.idx(v) == self.index);
        assert(new.stacked(path1)) by {
            assert forall|x: int| #[trigger] new.on(x) implies new.seen(x) && exists|i: int|
                0 <= i < new.stack@.len() && new.stack@[i] == x by {
                if x == v {
                    assert(new.stack@[self.stack@.len() as int] == v);
                } else {
                    assert(self.on(x));
                    let i = choose|i: int| 0 <= i < self.stack@.len() && self.stack@[i] == x;
                    assert(new.stack@[i] == x);
                }
            }
            assert forall|i: int| 0 <= i < new.stack@.len() implies new.on(#[trigger] new.stack@[i] as int) by {
                if i < self.stack@.len() {
                    assert(self.on(self.stack@[i] as int));
                }
            }
            assert forall|i: int, j: int| 0 <= i < j < new.stack@.len() implies new.idx(
                #[trigger] new.stack@[i] as int,
            ) < new.idx(#[trigger] new.stack@[j] as int) by {
                assert(self.on(self.stack@[i] as int));
                assert(self.seen(self.stack@[i] as int));
                if j < self.stack@.len() {
                    assert(self.on(self.stack@[j] as int));
                    assert(self.seen(self.stack@[j] as int));
                }
            }
            assert forall|i: int| 0 <= i < path1.len() implies new.on(#[trigger] path1[i]) by {
                if i < path.len() {
                    assert(self.on(path[i]));
                }
            }
            assert forall|i: int, j: int| 0 <= i < j < path1.len() implies new.idx(#[trigger] path1[i])
                < new.idx(#[trigger] path1[j]) by {
                assert(self.on(path[i]));
                assert(self.seen(path[i]));
                if j < path.len() {
                    assert(self.on(path[j]));
                }
            }
        }
    }

    /// Entering a node ties it to the path.
    proof fn lemma_enter_tied(self, new: Self, path: Seq<int>, node: usize, v: int)
        requires
            self.sizes(),
            self.entered(new, node, v),
            self.counted(path),
            self.stacked(path),
            self.tied(path),
            path.len() > 0 ==> reach(self.g(), path.last(), v),
        ensures
            new.tied(path.push(v)),
    {
        let path1 = path.push(v);
        assert forall|x: int| x != v implies #[trigger] new.seen(x) == self.seen(x) && #[trigger] new.on(x)
            == self.on(x) && (0 <= x < self.n() ==> new.idx(x) == self.idx(x)) by {}
        assert(new.seen(v) && new.on(v) && new.idx(v) == self.index);
        assert(new.tied(path1)) by {
            assert forall|y: int| #[trigger] new.on(y) implies new.anchored(path1, y) by {
                if y == v {
                    lemma_reach_refl(self.g(), v);
                    new.lemma_anchored(path1, y, path.len() as int);
                } else {
                    assert(self.on(y));
                    let i = self.lemma_anchor(path, y);
                    assert(self.on(path[i]));
                    new.lemma_anchored(path1, y, i);
                }
            }
            assert forall|i: int, y: int|
                0 <= i < path1.len() && #[trigger] new.on(y) && new.idx(#[trigger] path1[i]) <= new.idx(y) implies reach(
                self.g(),
                path1[i],
                y,
            ) by {
                if i == path.len() {
                    if y == v {
                        lemma_reach_refl(self.g(), v);
                    } else {
                        assert(self.on(y));
                        assert(self.seen(y));
                    }
                } else {
                    assert(self.on(path[i]));
                    assert(self.seen(path[i]));
                    if y == v {
                        let last = path.len() - 1;
                        assert(self.on(path[last]));
                        if i < last {
                            assert(self.idx(path[i]) < self.idx(path[last]));
                        }
                        assert(reach(self.g(), path[i], path[last]));
                        lemma_reach_trans(self.g(), path[i], path[last], v);
                    } else {
                        assert(self.on(y));
                    }
                }
            }
        }
    }

    /// Entering a node closes no component.
    proof fn lemma_enter_groups(self, new: Self, path: Seq<int>, node: usize, v: int)
        requires
            self.sizes(),
            self.entered(new, node, v),
            self.grouped(),
            self.edges_done(),
        ensures
            new.grouped(),
            new.edges_done(),
    {
        let path1 = path.push(v);
        assert forall|x: int| x != v implies #[trigger] new.seen(x) == self.seen(x) && #[trigger] new.on(x)
            == self.on(x) && (0 <= x < self.n() ==> new.idx(x) == self.idx(x)) by {}
        assert(new.seen(v) && new.on(v) && new.idx(v) == self.index);
        assert(new.grouped()) by {
            assert forall|k: int, i: int| 0 <= k < new.components@.len() && 0 <= i < new.components@[k]@.len() implies new.settled(
                #[trigger] new.components@[k]@[i] as int,
            ) by {
                assert(self.settled(self.components@[k]@[i] as int));
            }
            assert forall|x: int| #[trigger] new.settled(x) implies covered(new.components@, x) by {
                assert(self.settled(x));
            }
        }
        assert(new.edges_done()) by {
            assert forall|x: int, y: int| new.settled(x) && #[trigger] edge(new.g(), x, y) implies new.settled(y) by {
                assert(self.settled(x));
                assert(self.settled(y));
            }
            assert forall|x: int, y: int| new.done@.contains(x) && #[trigger] edge(new.g(), x, y) implies new.seen(y) by {
                assert(self.seen(y));
            }
        }
    }

    /// Entering a node puts it on the stack and at the end of the path.
    proof fn lemma_enter(self, new: Self, path: Seq<int>, node: usize, v: int)
        requires
            self.inv(path),
            self.entered(new, node, v),
            path.len() > 0 ==> reach(self.g(), path.last(), v),
        ensures
            new.inv(path.push(v)),
            new.extends(self),
            forall|x: int| #[trigger] new.on(x) ==> new.idx(x) <= self.index,
            new.walk(path.push(v)) == (Walk { seen: self.walk(path).seen.insert(v), done: self.done@ }),
    {
        reveal(Tarjan::inv);
        self.lemma_enter_counted(new, path, node, v);
        self.lemma_enter_stacked(new, path, node, v);
        self.lemma_enter_tied(new, path, node, v);
        self.lemma_enter_groups(new, path, node, v);
        assert(new.stack@.take(self.stack@.len() as int) =~= self.stack@);
        assert forall|x: int| #[trigger] new.on(x) implies new.idx(x) <= self.index by {
            assert(new.seen(x));
        }
    }

    /// The state after leaving a node that stays on the stack.
    spec fn left(self, new: Self, v: int) -> bool {
        &&& 0 <= v < self.n()
        &&& new.adj == self.adj
        &&& new.index == self.index
        &&& new.indices@ == self.indices@
        &&& new.stack@ == self.stack@
        &&& new.on_stack@ == self.on_stack@
        &&& new.components@ == self.components@
        &&& new.done@ == self.done@.push(v)
    }

    proof fn lemma_leave_stacked(self, new: Self, path: Seq<int>, v: int)
        requires
            self.left(new, v),
            self.stacked(path.push(v)),
            self.tied(path.push(v)),
            exists|y: int| #[trigger] self.on(y) && self.idx(y) < self.idx(v) && reach(self.g(), v, y),
        ensures
            new.stacked(path),
            new.tied(path),
    {
        let path1 = path.push(v);
        assert(new.stacked(path)) by {
            assert forall|i: int| 0 <= i < path.len() implies new.on(#[trigger] path[i]) by {
                assert(self.on(path1[i]));
            }
            assert forall|i: int, j: int| 0 <= i < j < path.len() implies new.idx(#[trigger] path[i])
                < new.idx(#[trigger] path[j]) by {
                assert(self.idx(path1[i]) < self.idx(path1[j]));
            }
            assert forall|x: int| #[trigger] new.on(x) implies new.seen(x) && exists|i: int|
                0 <= i < new.stack@.len() && new.stack@[i] == x by {
                assert(self.on(x));
            }
            assert forall|i: int| 0 <= i < new.stack@.len() implies new.on(#[trigger] new.stack@[i] as int) by {
                assert(self.on(self.stack@[i] as int));
            }
        }
        assert(new.tied(path)) by {
            let y0 = choose|y: int| #[trigger] self.on(y) && self.idx(y) < self.idx(v) && reach(self.g(), v, y);
            let i0 = self.lemma_anchor(path1, y0);
            assert(i0 < path.len());
            assert(path1[i0] == path[i0]);
            assert forall|y: int| #[trigger] new.on(y) implies new.anchored(path, y) by {
                assert(self.on(y));
                let i = self.lemma_anchor(path1, y);
                if i < path.len() {
                    assert(path1[i] == path[i]);
                    new.lemma_anchored(path, y, i);
                } else {
                    assert(path1[i] == v);
                    lemma_reach_trans(self.g(), y, v, y0);
                    lemma_reach_trans(self.g(), y, y0, path[i0]);
                    new.lemma_anchored(path, y, i0);
                }
            }
            assert forall|i: int, y: int|
                0 <= i < path.len() && #[trigger] new.on(y) && new.idx(#[trigger] path[i]) <= new.idx(y) implies reach(
                self.g(),
                path[i],
                y,
            ) by {
                assert(self.on(y));
                assert(path1[i] == path[i]);
            }
        }
    }

    proof fn lemma_leave_groups(self, new: Self, v: int)
        requires
            self.left(new, v),
            self.grouped(),
            self.edges_done(),
            new.done@.no_duplicates(),
            forall|x: int| #[trigger] new.done@.contains(x) <==> self.done@.contains(x) || x == v,
            forall|y: int| #[trigger] edge(self.g(), v, y) ==> self.seen(y),
        ensures
            new.grouped(),
            new.edges_done(),
    {
        assert(new.grouped()) by {
            assert forall|k: int, i: int| 0 <= k < new.components@.len() && 0 <= i < new.components@[k]@.len() implies new.settled(
                #[trigger] new.components@[k]@[i] as int,
            ) by {
                assert(self.settled(self.components@[k]@[i] as int));
            }
            assert forall|x: int| #[trigger] new.settled(x) implies covered(new.components@, x) by {
                assert(self.settled(x));
            }
            lemma_finish_push(self.done@, v, self.components@);
        }
        assert(new.edges_done()) by {
            assert forall|x: int, y: int| new.settled(x) && #[trigger] edge(new.g(), x, y) implies new.settled(y) by {
                assert(self.settled(x));
                assert(self.settled(y));
            }
            assert forall|x: int, y: int| new.done@.contains(x) && #[trigger] edge(new.g(), x, y) implies new.seen(y) by {
                assert(self.seen(y));
            }
        }
    }

    /// Leaving a node that reaches a lower one keeps it on the stack.
    proof fn lemma_leave(self, new: Self, path: Seq<int>, v: int)
        requires
            self.inv(path.push(v)),
            self.left(new, v),
            exists|y: int| #[trigger] self.on(y) && self.idx(y) < self.idx(v) && reach(self.g(), v, y),
            forall|y: int| #[trigger] edge(self.g(), v, y) ==> self.seen(y),
        ensures
            new.inv(path),
            new.walk(path) == (Walk {
                seen: self.walk(path.push(v)).seen,
                done: self.done@.push(v),
            }),
    {
        reveal(Tarjan::inv);
        self.lemma_left(new, path, v);
        self.lemma_leave_stacked(new, path, v);
        self.lemma_leave_groups(new, v);
    }

    /// What leaving a node does to the account of the nodes.
    proof fn lemma_left(self, new: Self, path: Seq<int>, v: int)
        requires
            self.sizes(),
            self.counted(path.push(v)),
            new.adj == self.adj,
            new.index == self.index,
            new.indices@ == self.indices@,
            new.done@ == self.done@.push(v),
        ensures
            new.counted(path),
            forall|x: int| #[trigger] new.done@.contains(x) <==> self.done@.contains(x) || x == v,
            !self.done@.contains(v),
            new.walk(path) == (Walk {
                seen: self.walk(path.push(v)).seen,
                done: self.done@.push(v),
            }),
    {
        let path1 = path.push(v);
        assert(path1[path.len() as int] == v);
        assert(path1.contains(v));
        assert forall|x: int| #[trigger] path1.contains(x) <==> path.contains(x) || x == v by {
            if path.contains(x) {
                let i = choose|i: int| 0 <= i < path.len() && path[i] == x;
                assert(path1[i] == x);
            }
        }
        assert(!path.contains(v)) by {
            if path.contains(v) {
                let i = choose|i: int| 0 <= i < path.len() && path[i] == v;
                assert(path1[i] == path1[path.len() as int]);
            }
        }
        let d1 = new.done@;
        assert forall|x: int| #[trigger] d1.contains(x) <==> self.done@.contains(x) || x == v by {
            if self.done@.contains(x) {
                let i = choose|i: int| 0 <= i < self.done@.len() && self.done@[i] == x;
                assert(d1[i] == x);
            }
            assert(d1[self.done@.len() as int] == v);
        }
        assert forall|i: int, j: int| 0 <= i < j < d1.len() implies d1[i] != d1[j] by {
            assert(self.done@.contains(d1[i]));
        }
        assert forall|i: int, j: int| 0 <= i < j < path.len() implies path[i] != path[j] by {
            assert(path1[i] != path1[j]);
        }
        assert forall|x: int| #[trigger] new.seen(x) <==> path.contains(x) || d1.contains(x) by {
            assert(self.seen(x) <==> path1.contains(x) || self.done@.contains(x));
        }
        assert forall|x: int| #[trigger] new.seen(x) implies new.idx(x) < new.index by {
            assert(self.seen(x));
        }
        assert forall|x: int| path.contains(x) implies !d1.contains(x) by {
            assert(path1.contains(x));
        }
        assert(new.walk(path).seen =~= self.walk(path1).seen);
    }

    /// The nodes that were entered since a node that reaches no lower one are
    /// its strongly connected component.
    proof fn lemma_component(self, path: Seq<int>, v: int, x: int)
        requires
            self.inv(path.push(v)),
            self.bounds(self.idx(v), self.idx(v)),
            0 <= v < self.n(),
            forall|y: int| #[trigger] edge(self.g(), v, y) ==> self.seen(y),
        ensures
            linked(self.g(), v, x) <==> self.on(x) && self.idx(x) >= self.idx(v),
            self.on(x) && self.idx(x) >= self.idx(v) && x != v ==> self.done@.contains(x),
    {
        reveal(Tarjan::inv);
        let path1 = path.push(v);
        let base = self.idx(v);
        assert(path1[path.len() as int] == v);
        assert(self.on(v));
        let c = Set::new(|a: int| self.settled(a) || (self.on(a) && self.idx(a) >= base));
        assert forall|a: int| #[trigger] self.on(a) && self.idx(a) >= base && a != v implies self.done@.contains(a) by {
            assert(self.seen(a));
            if path1.contains(a) {
                let i = choose|i: int| 0 <= i < path1.len() && path1[i] == a;
                if i < path.len() {
                    assert(self.idx(path1[i]) < self.idx(path1[path.len() as int]));
                }
            }
        }
        assert forall|a: int, b: int| c.contains(a) && #[trigger] edge(self.g(), a, b) implies c.contains(b) by {
            if self.settled(a) {
                assert(self.settled(b));
            } else {
                assert(self.seen(b)) by {
                    if a != v {
                        assert(self.done@.contains(a));
                    }
                }
                if self.on(b) && self.idx(b) < base {
                    assert(false);
                }
            }
        }
        if linked(self.g(), v, x) {
            lemma_closed_reach(self.g(), c, v, x);
            if self.settled(x) {
                let st = Set::new(|a: int| self.settled(a));
                lemma_closed_reach(self.g(), st, x, v);
                assert(false);
            }
        }
        if self.on(x) && self.idx(x) >= base {
            assert(reach(self.g(), path1[path.len() as int], x));
            let i = self.lemma_anchor(path1, x);
            if i < path.len() {
                lemma_closed_reach(self.g(), c, x, path1[i]);
                assert(self.on(path1[i]));
                assert(self.idx(path1[i]) < self.idx(path1[path.len() as int]));
                assert(false);
            }
        }
    }

    /// What closing a component leaves on the stack.
    proof fn lemma_close_stack(self, new: Self, path: Seq<int>, v: int, p: int)
        requires
            self.inv(path.push(v)),
            0 <= v < self.n(),
            0 <= p < self.stack@.len(),
            self.stack@[p] == v,
            new.adj == self.adj,
            new.indices@ == self.indices@,
            new.stack@ == self.stack@.take(p),
            new.on_stack@.len() == self.n(),
            forall|x: int| 0 <= x < self.n() ==> (#[trigger] new.on_stack@[x] <==> exists|j: int|
                0 <= j < p && self.stack@[j] == x),
        ensures
            new.stacked(path),
            new.tied(path),
            self.on(v),
            forall|x: int| #[trigger] new.on(x) <==> self.on(x) && self.idx(x) < self.idx(v),
    {
        reveal(Tarjan::inv);
        let path1 = path.push(v);
        let g = self.g();
        let base = self.idx(v);
        assert(path1[path.len() as int] == v);
        assert(self.on(v));
        assert forall|x: int| #[trigger] new.on(x) <==> self.on(x) && self.idx(x) < base by {
            if new.on(x) {
                let j = choose|j: int| 0 <= j < p && self.stack@[j] == x;
                assert(self.on(self.stack@[j] as int));
                assert(self.idx(self.stack@[j] as int) < self.idx(self.stack@[p] as int));
            }
            if self.on(x) && self.idx(x) < base {
                let j = choose|j: int| 0 <= j < self.stack@.len() && self.stack@[j] == x;
                if p < j {
                    assert(self.idx(self.stack@[p] as int) < self.idx(self.stack@[j] as int));
                }
                assert(new.on_stack@[x]);
            }
        }
        assert(new.stacked(path)) by {
            assert forall|i: int| 0 <= i < path.len() implies new.on(#[trigger] path[i]) by {
                assert(self.on(path1[i]));
                assert(self.idx(path1[i]) < self.idx(path1[path.len() as int]));
            }
            assert forall|i: int, j: int| 0 <= i < j < path.len() implies new.idx(#[trigger] path[i])
                < new.idx(#[trigger] path[j]) by {
                assert(self.idx(path1[i]) < self.idx(path1[j]));
            }
            assert forall|x: int| #[trigger] new.on(x) implies new.seen(x) && exists|i: int|
                0 <= i < new.stack@.len() && new.stack@[i] == x by {
                assert(self.on(x));
                let j = choose|j: int| 0 <= j < p && self.stack@[j] == x;
                assert(new.stack@[j] == x);
            }
            assert forall|i: int| 0 <= i < new.stack@.len() implies new.on(#[trigger] new.stack@[i] as int) by {
                assert(self.on(self.stack@[i] as int));
                assert(self.idx(self.stack@[i] as int) < self.idx(self.stack@[p] as int));
            }
            assert forall|i: int, j: int| 0 <= i < j < new.stack@.len() implies new.idx(
                #[trigger] new.stack@[i] as int,
            ) < new.idx(#[trigger] new.stack@[j] as int) by {
                assert(self.idx(self.stack@[i] as int) < self.idx(self.stack@[j] as int));
            }
        }
        assert(new.tied(path)) by {
            assert forall|y: int| #[trigger] new.on(y) implies new.anchored(path, y) by {
                assert(self.on(y));
                let i = self.lemma_anchor(path1, y);
                assert(i < path.len());
                assert(path1[i] == path[i]);
                new.lemma_anchored(path, y, i);
            }
            assert forall|i: int, y: int|
                0 <= i < path.len() && #[trigger] new.on(y) && new.idx(#[trigger] path[i]) <= new.idx(y) implies reach(
                g,
                path[i],
                y,
            ) by {
                assert(self.on(y));
                assert(path1[i] == path[i]);
            }
        }
    }

    /// The nodes that closing a component puts into it.
    proof fn lemma_close_members(self, path: Seq<int>, v: int, p: int, comp: Vec<usize>)
        requires
            self.inv(path.push(v)),
            0 <= p < self.stack@.len(),
            self.stack@[p] == v,
            comp@.len() == self.stack@.len() - p,
            forall|i: int| 0 <= i < comp@.len() ==> #[trigger] comp@[i] == self.stack@[self.stack@.len() - 1 - i],
        ensures
            comp@.len() > 0,
            comp@.last() == v,
            comp@.no_duplicates(),
            forall|x: int| #[trigger] member(comp, x) <==> self.on(x) && self.idx(x) >= self.idx(v),
    {
        reveal(Tarjan::inv);
        let base = self.idx(v);
        assert forall|x: int| #[trigger] member(comp, x) <==> self.on(x) && self.idx(x) >= base by {
            if member(comp, x) {
                let i = choose|i: int| 0 <= i < comp@.len() && comp@[i] == x;
                let j = self.stack@.len() - 1 - i;
                assert(self.on(self.stack@[j] as int));
                if p < j {
                    assert(self.idx(self.stack@[p] as int) < self.idx(self.stack@[j] as int));
                }
            }
            if self.on(x) && self.idx(x) >= base {
                let j = choose|j: int| 0 <= j < self.stack@.len() && self.stack@[j] == x;
                if j < p {
                    assert(self.idx(self.stack@[j] as int) < self.idx(self.stack@[p] as int));
                }
                assert(comp@[self.stack@.len() - 1 - j] == x);
            }
        }
        assert forall|i: int, j: int| 0 <= i < j < comp@.len() implies comp@[i] != comp@[j] by {
            let (a, b) = (self.stack@.len() - 1 - i, self.stack@.len() - 1 - j);
            assert(self.idx(self.stack@[b] as int) < self.idx(self.stack@[a] as int));
        }
    }

    proof fn lemma_close_edges(self, new: Self, path: Seq<int>, v: int)
        requires
            self.inv(path.push(v)),
            self.bounds(self.idx(v), self.idx(v)),
            0 <= v < self.n(),
            forall|y: int| #[trigger] edge(self.g(), v, y) ==> self.seen(y),
            new.adj == self.adj,
            new.indices@ == self.indices@,
            forall|x: int| #[trigger] new.on(x) <==> self.on(x) && self.idx(x) < self.idx(v),
            forall|x: int| #[trigger] new.done@.contains(x) <==> self.done@.contains(x) || x == v,
        ensures
            new.edges_done(),
    {
        reveal(Tarjan::inv);
        let base = self.idx(v);
        assert(new.edges_done()) by {
            assert forall|x: int, y: int| new.settled(x) && #[trigger] edge(new.g(), x, y) implies new.settled(y) by {
                if self.settled(x) {
                    assert(self.settled(y));
                } else {
                    assert(self.on(x) && self.idx(x) >= base);
                    self.lemma_component(path, v, x);
                    assert(self.seen(y)) by {
                        if x != v {
                            assert(self.done@.contains(x));
                        }
                    }
                    if new.on(y) {
                        assert(self.on(y) && self.idx(y) < base);
                        assert(false);
                    }
                }
            }
            assert forall|x: int, y: int| new.done@.contains(x) && #[trigger] edge(new.g(), x, y) implies new.seen(y) by {
                assert(self.seen(y));
            }
        }
    }

    /// Closing a component takes its nodes off the stack.
    proof fn lemma_close(self, new: Self, path: Seq<int>, v: int, p: int, comp: Vec<usize>)
        requires
            self.inv(path.push(v)),
            self.bounds(self.idx(v), self.idx(v)),
            0 <= v < self.n(),
            forall|y: int| #[trigger] edge(self.g(), v, y) ==> self.seen(y),
            0 <= p < self.stack@.len(),
            self.stack@[p] == v,
            comp@.len() == self.stack@.len() - p,
            forall|i: int| 0 <= i < comp@.len() ==> #[trigger] comp@[i] == self.stack@[self.stack@.len() - 1 - i],
            new.adj == self.adj,
            new.index == self.index,
            new.indices@ == self.indices@,
            new.stack@ == self.stack@.take(p),
            new.on_stack@.len() == self.n(),
            forall|x: int| 0 <= x < self.n() ==> (#[trigger] new.on_stack@[x] <==> exists|j: int|
                0 <= j < p && self.stack@[j] == x),
            new.components@ == self.components@.push(comp),
            new.done@ == self.done@.push(v),
        ensures
            new.inv(path),
            forall|x: int| #[trigger] new.on(x) <==> self.on(x) && self.idx(x) < self.idx(v),
            new.walk(path) == (Walk {
                seen: self.walk(path.push(v)).seen,
                done: self.done@.push(v),
            }),
    {
        reveal(Tarjan::inv);
        self.lemma_left(new, path, v);
        self.lemma_close_stack(new, path, v, p);
        self.lemma_close_members(path, v, p, comp);
        self.lemma_close_edges(new, path, v);
        self.lemma_close_groups(new, path, v, comp);
    }

    proof fn lemma_close_groups(self, new: Self, path: Seq<int>, v: int, comp: Vec<usize>)
        requires
            self.inv(path.push(v)),
            self.bounds(self.idx(v), self.idx(v)),
            0 <= v < self.n(),
            self.on(v),
            forall|y: int| #[trigger] edge(self.g(), v, y) ==> self.seen(y),
            comp@.len() > 0,
            comp@.last() == v,
            comp@.no_duplicates(),
            forall|x: int| #[trigger] member(comp, x) <==> self.on(x) && self.idx(x) >= self.idx(v),
            new.adj == self.adj,
            new.indices@ == self.indices@,
            forall|x: int| #[trigger] new.on(x) <==> self.on(x) && self.idx(x) < self.idx(v),
            new.components@ == self.components@.push(comp),
            new.done@ == self.done@.push(v),
            new.done@.no_duplicates(),
            forall|x: int| #[trigger] new.done@.contains(x) <==> self.done@.contains(x) || x == v,
            new.edges_done(),
        ensures
            new.grouped(),
    {
        reveal(Tarjan::inv);
        let g = self.g();
        let cs = self.components@;
        let ds = new.components@;
        assert forall|k: int, i: int| 0 <= k < ds.len() && 0 <= i < ds[k]@.len() implies new.settled(
            #[trigger] ds[k]@[i] as int,
        ) by {
            if k < cs.len() {
                assert(self.settled(cs[k]@[i] as int));
            } else {
                assert(member(comp, comp@[i] as int));
                assert(self.seen(comp@[i] as int));
            }
        }
        assert forall|x: int| #[trigger] new.settled(x) implies covered(ds, x) by {
            if self.settled(x) {
                assert(covered(cs, x));
                let k = choose|k: int| 0 <= k < cs.len() && member(#[trigger] cs[k], x);
                assert(member(ds[k], x));
            } else {
                assert(member(ds[cs.len() as int], x));
            }
        }
        assert(whole(g, ds)) by {
            assert forall|k: int| 0 <= k < ds.len() implies (#[trigger] ds[k])@.len() > 0 by {
                if k < cs.len() {
                    assert(ds[k] == cs[k]);
                }
            }
            assert forall|k: int, i: int| 0 <= k < ds.len() && 0 <= i < ds[k]@.len() implies #[trigger] ds[k]@[i]
                < g.len() by {
                if k < cs.len() {
                    assert(cs[k]@[i] < g.len());
                } else {
                    assert(member(comp, comp@[i] as int));
                }
            }
            assert forall|k: int, i: int, y: int|
                #![trigger ds[k]@[i], linked(g, ds[k]@[i] as int, y)]
                0 <= k < ds.len() && 0 <= i < ds[k]@.len() implies (member(ds[k], y) <==> linked(
                g,
                ds[k]@[i] as int,
                y,
            )) by {
                if k < cs.len() {
                    assert(ds[k] == cs[k]);
                    assert(member(cs[k], y) <==> linked(g, cs[k]@[i] as int, y));
                } else {
                    let x = comp@[i] as int;
                    assert(member(comp, x));
                    self.lemma_component(path, v, x);
                    self.lemma_component(path, v, y);
                    if linked(g, x, y) {
                        lemma_reach_trans(g, v, x, y);
                        lemma_reach_trans(g, y, x, v);
                    }
                    if linked(g, v, y) {
                        lemma_reach_trans(g, x, v, y);
                        lemma_reach_trans(g, y, v, x);
                    }
                    assert(member(comp, y) <==> self.on(y) && self.idx(y) >= self.idx(v));
                }
            }
        }
        assert(apart(ds)) by {
            assert forall|k: int, i: int, l: int, j: int|
                0 <= k < ds.len() && 0 <= l < ds.len() && 0 <= i < ds[k]@.len() && 0 <= j < ds[l]@.len()
                    && #[trigger] ds[k]@[i] == #[trigger] ds[l]@[j] implies k == l && i == j by {
                if k < cs.len() && l < cs.len() {
                    assert(cs[k]@[i] == cs[l]@[j]);
                } else if k < cs.len() {
                    assert(self.settled(cs[k]@[i] as int));
                    assert(member(comp, comp@[j] as int));
                } else if l < cs.len() {
                    assert(self.settled(cs[l]@[j] as int));
                    assert(member(comp, comp@[i] as int));
                }
            }
        }
        assert(downward(g, ds)) by {
            assert forall|k: int, i: int, y: int|
                #![trigger ds[k]@[i], edge(g, ds[k]@[i] as int, y)]
                0 <= k < ds.len() && 0 <= i < ds[k]@.len() && edge(g, ds[k]@[i] as int, y) implies covered(
                ds.take(k + 1),
                y,
            ) by {
                if k < cs.len() {
                    assert(edge(g, cs[k]@[i] as int, y));
                    assert(covered(cs.take(k + 1), y));
                    assert(ds.take(k + 1) =~= cs.take(k + 1));
                } else {
                    assert(new.settled(ds[k]@[i] as int));
                    assert(new.settled(y));
                    assert(ds.take(k + 1) =~= ds);
                }
            }
        }
        lemma_finish_push(self.done@, v, cs);
        let d1 = new.done@;
        assert(d1[self.done@.len() as int] == v);
        assert(d1.contains(v));
        assert(d1[d1.index_of(v)] == v);
        assert(d1.index_of(v) == self.done@.len());
        assert(by_finish(d1, ds)) by {
            assert forall|k: int, i: int| 0 <= k < ds.len() && 0 <= i < ds[k]@.len() implies d1.contains(
                #[trigger] ds[k]@[i] as int,
            ) && d1.index_of(ds[k]@[i] as int) <= d1.index_of(ds[k]@.last() as int) by {
                if k < cs.len() {
                    assert(ds[k] == cs[k]);
                    assert(d1.contains(cs[k]@[i] as int));
                } else {
                    let x = comp@[i] as int;
                    assert(member(comp, x));
                    self.lemma_component(path, v, x);
                    assert(d1.contains(x));
                    assert(d1[d1.index_of(x)] == x);
                }
            }
            assert forall|k: int, l: int| 0 <= k < l < ds.len() implies d1.index_of(
                (#[trigger] ds[k])@.last() as int,
            ) < d1.index_of((#[trigger] ds[l])@.last() as int) by {
                assert(ds[k] == cs[k]);
                if l < cs.len() {
                    assert(ds[l] == cs[l]);
                }
            }
        }
    }

    /// The successors of the node before the given one were walked, and no
    /// node entered since it steps lower than `low`.
    spec fn partial(self, v: int, k: int, low: int) -> bool {
        &&& forall|x: int, y: int|
            self.on(x) && self.idx(x) > self.idx(v) && #[trigger] edge(self.g(), x, y) && self.on(y)
                && self.idx(y) < self.idx(v) ==> low <= self.idx(y)
        &&& forall|j: int|
            0 <= j < k ==> self.seen(#[trigger] self.g()[v]@[j] as int) && (self.on(self.g()[v]@[j] as int)
                && self.idx(self.g()[v]@[j] as int) < self.idx(v) ==> low <= self.idx(self.g()[v]@[j] as int))
    }

    /// Two nodes on the stack with one index are one node.
    proof fn lemma_same_index(self, path: Seq<int>, x: int, y: int)
        requires
            self.stacked(path),
            self.on(x),
            self.on(y),
            self.idx(x) == self.idx(y),
        ensures
            x == y,
    {
        let i = choose|i: int| 0 <= i < self.stack@.len() && self.stack@[i] == x;
        let j = choose|j: int| 0 <= j < self.stack@.len() && self.stack@[j] == y;
        if i < j {
            assert(self.idx(self.stack@[i] as int) < self.idx(self.stack@[j] as int));
        } else if j < i {
            assert(self.idx(self.stack@[j] as int) < self.idx(self.stack@[i] as int));
        }
    }

    /// What the walk of one more successor adds.
    proof fn lemma_step(self, new: Self, path: Seq<int>, v: int, k: int, low: int, low_w: int, low1: int)
        requires
            self.inv(path),
            new.inv(path),
            new.extends(self),
            self.seen(v),
            0 <= k < self.g()[v]@.len(),
            self.partial(v, k, low),
            low1 <= low,
            low1 <= low_w,
            new.bounds(self.index as int, low_w),
            new.seen(self.g()[v]@[k] as int),
            !self.seen(self.g()[v]@[k] as int),
        ensures
            new.partial(v, k + 1, low1),
    {
        reveal(Tarjan::inv);
        assert forall|x: int, y: int|
            new.on(x) && new.idx(x) > new.idx(v) && #[trigger] edge(new.g(), x, y) && new.on(y) && new.idx(
                y,
            ) < new.idx(v) implies low1 <= new.idx(y) by {
            assert(new.seen(x) && new.seen(y));
            assert(self.idx(v) < self.index);
            assert(self.seen(y));
            if self.seen(x) {
                assert(self.on(x) && self.on(y));
            } else {
                assert(new.idx(x) >= self.index);
            }
        }
        assert forall|j: int| 0 <= j < k + 1 implies new.seen(#[trigger] new.g()[v]@[j] as int) && (new.on(
            new.g()[v]@[j] as int,
        ) && new.idx(new.g()[v]@[j] as int) < new.idx(v) ==> low1 <= new.idx(new.g()[v]@[j] as int)) by {
            let y = self.g()[v]@[j] as int;
            if j < k {
                assert(self.seen(y));
            } else {
                assert(new.idx(y) >= self.index);
                assert(self.idx(v) < self.index);
            }
        }
    }

    /// What is known of any state between two steps.
    proof fn lemma_facts(self, path: Seq<int>)
        requires
            self.inv(path),
        ensures
            self.sizes(),
            self.counted(path),
            self.stacked(path),
            forall|x: int| #[trigger] self.on(x) ==> self.seen(x),
            forall|x: int| #[trigger] self.walk(path).seen.contains(x) <==> self.seen(x),
    {
        reveal(Tarjan::inv);
        assert forall|x: int| #[trigger] self.walk(path).seen.contains(x) <==> self.seen(x) by {
            assert(self.seen(x) <==> path.contains(x) || self.done@.contains(x));
        }
    }

    /// Where a node stands whose successors were all walked.
    proof fn lemma_walked(self, path1: Seq<int>, v: int, base: int, low: int)
        requires
            self.inv(path1),
            self.on(v),
            self.idx(v) == base,
            self.partial(v, self.g()[v]@.len() as int, low),
        ensures
            forall|y: int| #[trigger] edge(self.g(), v, y) ==> self.seen(y),
            self.bounds(base, low),
    {
        self.lemma_facts(path1);
        let g = self.g();
        assert forall|y: int| #[trigger] edge(g, v, y) implies self.seen(y) by {
            let j = choose|j: int| 0 <= j < g[v]@.len() && #[trigger] g[v]@[j] == y;
            assert(self.seen(self.g()[v]@[j] as int));
        }
        assert forall|x: int, y: int|
            self.on(x) && self.idx(x) >= base && #[trigger] edge(self.g(), x, y) && self.on(y) && self.idx(y)
                < base implies low <= self.idx(y) by {
            if self.idx(x) == base {
                self.lemma_same_index(path1, x, v);
                let j = choose|j: int| 0 <= j < g[v]@.len() && #[trigger] g[v]@[j] == y;
                assert(self.seen(self.g()[v]@[j] as int));
            }
        }
    }

    /// Walking all successors of a node and leaving it is visiting it.
    proof fn lemma_visited(self, path: Seq<int>, v: int, w1: Walk, w4: Walk)
        requires
            self.inv(path),
            0 <= v < self.n(),
            !self.seen(v),
            w1 == (Walk { seen: self.walk(path).seen.insert(v), done: self.done@ }),
            forall|fuel: nat|
                fuel >= self.n() - self.index - 1 ==> w4 == #[trigger] visit_from(self.g(), v, 0, w1, fuel),
        ensures
            forall|fuel: nat|
                fuel >= self.n() - self.index ==> #[trigger] visit(self.g(), v, self.walk(path), fuel) == (Walk {
                    seen: w4.seen,
                    done: w4.done.push(v),
                }),
    {
        self.lemma_facts(path);
        self.lemma_room(path, v);
        assert forall|fuel: nat| fuel >= self.n() - self.index implies #[trigger] visit(
            self.g(),
            v,
            self.walk(path),
            fuel,
        ) == (Walk { seen: w4.seen, done: w4.done.push(v) }) by {
            let f = (fuel - 1) as nat;
            assert(visit_from(self.g(), v, 0, w1, f) == w4);
            assert(!self.walk(path).seen.contains(v));
        }
    }

    /// A state that changed only in what was left extends what it extended.
    proof fn lemma_extends_left(self, s4: Self, s0: Self)
        requires
            s4.extends(s0),
            self.adj == s4.adj,
            self.index == s4.index,
            self.indices@ == s4.indices@,
            self.stack@.len() >= s0.stack@.len(),
            self.stack@.take(s0.stack@.len() as int) == s0.stack@,
            forall|x: int| #[trigger] s0.seen(x) ==> self.on_stack@[x] == s4.on_stack@[x],
        ensures
            self.extends(s0),
    {
        assert forall|x: int| #[trigger] s0.seen(x) implies self.seen(x) && self.indices@[x] == s0.indices@[x]
            && self.on_stack@[x] == s0.on_stack@[x] by {
            assert(s4.seen(x));
        }
        assert forall|x: int| #[trigger] self.seen(x) && !s0.seen(x) implies self.idx(x) >= s0.index by {
            assert(s4.seen(x));
        }
    }

    /// When every node was entered and the path is empty, all is in components.
    proof fn lemma_all(self, path: Seq<int>)
        requires
            self.inv(path),
            path.len() == 0,
            forall|x: int| 0 <= x < self.n() ==> #[trigger] self.seen(x),
            self.done@ == finish_order(self.g()),
        ensures
            components_of(self.g(), self.components@),
    {
        reveal(Tarjan::inv);
        assert forall|x: int| 0 <= x < self.g().len() implies #[trigger] covered(self.components@, x) by {
            assert(self.seen(x));
            if self.on(x) {
                let i = self.lemma_anchor(path, x);
            }
            assert(self.settled(x));
        }
    }

    /// Earlier states of an earlier state.
    proof fn lemma_extends_trans(self, mid: Self, old: Self)
        requires
            self.extends(mid),
            mid.extends(old),
        ensures
            self.extends(old),
    {
        assert(self.stack@.take(old.stack@.len() as int) =~= self.stack@.take(mid.stack@.len() as int).take(
            old.stack@.len() as int,
        ));
        assert forall|x: int| #[trigger] old.seen(x) implies self.seen(x) && self.indices@[x] == old.indices@[x]
            && self.on_stack@[x] == old.on_stack@[x] by {
            assert(mid.seen(x));
        }
        assert forall|x: int| #[trigger] self.seen(x) && !old.seen(x) implies self.idx(x) >= old.index by {
            if mid.seen(x) {
                assert(self.indices@[x] == mid.indices@[x]);
            }
        }
    }

    /// Takes the nodes down to the given one off the stack, as a component.
    fn close(&mut self, v: usize, Ghost(before): Ghost<Self>, Ghost(path): Ghost<Seq<int>>, Ghost(p): Ghost<int>)
        requires
            before.inv(path.push(v as int)),
            before.bounds(before.idx(v as int), before.idx(v as int)),
            v < before.n(),
            forall|y: int| #[trigger] edge(before.g(), v as int, y) ==> before.seen(y),
            0 <= p < before.stack@.len(),
            before.stack@[p] == v,
            old(self).adj == before.adj,
            old(self).index == before.index,
            old(self).indices@ == before.indices@,
            old(self).stack@ == before.stack@,
            old(self).on_stack@ == before.on_stack@,
            old(self).components@ == before.components@,
            old(self).done@ == before.done@.push(v as int),
        ensures
            final(self).inv(path),
            final(self).adj == before.adj,
            final(self).index == before.index,
            final(self).indices@ == before.indices@,
            final(self).stack@ == before.stack@.take(p),
            forall|x: int| #[trigger] final(self).on(x) <==> before.on(x) && before.idx(x) < before.idx(v as int),
            final(self).walk(path) == (Walk {
                seen: before.walk(path.push(v as int)).seen,
                done: before.done@.push(v as int),
            }),
    {
        let mut comp: Vec<usize> = Vec::new();
        proof {
            before.lemma_facts(path.push(v as int));
        }
        let ghost len = before.stack@.len();
        assert(self.stack@ =~= before.stack@.take(len as int));
        assert forall|x: int| 0 <= x < before.n() implies (#[trigger] self.on_stack@[x] <==> exists|j: int|
            0 <= j < len && before.stack@[j] == x) by {
            assert(self.on_stack@[x] == before.on(x));
            if exists|j: int| 0 <= j < len && before.stack@[j] == x {
                let j = choose|j: int| 0 <= j < len && before.stack@[j] == x;
                assert(before.on(before.stack@[j] as int));
            }
        }
        loop
            invariant_except_break
                before.stacked(path.push(v as int)),
                before.sizes(),
                v < before.n(),
                len == before.stack@.len(),
                0 <= p < self.stack@.len() <= len,
                before.stack@[p] == v,
                self.stack@ == before.stack@.take(self.stack@.len() as int),
                comp@.len() == len - self.stack@.len(),
                forall|i: int| 0 <= i < comp@.len() ==> #[trigger] comp@[i] == before.stack@[len - 1 - i],
                self.on_stack@.len() == before.n(),
                forall|x: int| 0 <= x < before.n() ==> (#[trigger] self.on_stack@[x] <==> exists|j: int|
                    0 <= j < self.stack@.len() && before.stack@[j] == x),
                self.adj == before.adj,
                self.index == before.index,
                self.indices@ == before.indices@,
                self.components@ == before.components@,
                self.done@ == before.done@.push(v as int),
            ensures
                self.stack@ == before.stack@.take(p),
                comp@.len() == len - p,
                forall|i: int| 0 <= i < comp@.len() ==> #[trigger] comp@[i] == before.stack@[len - 1 - i],
                self.on_stack@.len() == before.n(),
                forall|x: int| 0 <= x < before.n() ==> (#[trigger] self.on_stack@[x] <==> exists|j: int|
                    0 <= j < p && before.stack@[j] == x),
                self.adj == before.adj,
                self.index == before.index,
                self.indices@ == before.indices@,
                self.components@ == before.components@,
                self.done@ == before.done@.push(v as int),
            decreases self.stack@.len(),
        {
            let ghost m = self.stack@.len() - 1;
            let w: usize = self.stack.pop().unwrap();
            proof {
                assert(w == before.stack@[m]);
                assert(before.on(before.stack@[m] as int));
            }
            self.on_stack.set(w, false);
            comp.push(w);
            proof {
                assert(self.stack@ =~= before.stack@.take(m));
                assert forall|x: int| 0 <= x < before.n() implies (#[trigger] self.on_stack@[x] <==> exists|j: int|
                    0 <= j < m && before.stack@[j] == x) by {
                    if exists|j: int| 0 <= j < m && before.stack@[j] == x {
                        let j = choose|j: int| 0 <= j < m && before.stack@[j] == x;
                        assert(before.idx(before.stack@[j] as int) < before.idx(before.stack@[m] as int));
                        assert(x != w);
                    }
                }
                if w == v && m != p {
                    assert(before.idx(before.stack@[p] as int) < before.idx(before.stack@[m] as int));
                }
            }
            if w == v {
                break;
            }
        }
        self.components.push(comp);
        proof {
            before.lemma_close(*self, path, v as int, p, comp);
        }
    }

    /// Walks everything that is reached from a node, and returns the lowest
    /// index on the stack that was met.
    fn strong_connect(&mut self, v: usize, Ghost(path): Ghost<Seq<int>>) -> (low: usize)
        requires
            old(self).inv(path),
            v < old(self).n(),
            !old(self).seen(v as int),
            path.len() > 0 ==> reach(old(self).g(), path.last(), v as int),
        ensures
            final(self).inv(path),
            final(self).extends(*old(self)),
            final(self).seen(v as int),
            final(self).indices@[v as int] == Some(old(self).index),
            low <= old(self).index,
            final(self).bounds(old(self).index as int, low as int),
            final(self).on(v as int) ==> final(self).witness(v as int, low as int),
            !final(self).on(v as int) ==> low == old(self).index,
            forall|fuel: nat|
                fuel >= old(self).n() - old(self).index ==> #[trigger] visit(
                    old(self).g(),
                    v as int,
                    old(self).walk(path),
                    fuel,
                ) == final(self).walk(path),
        decreases old(self).n() - old(self).index,
    {
        let ghost s0 = *self;
        let ghost path1 = path.push(v as int);
        let ghost g = self.g();
        let base: usize = self.index;
        let nodes: usize = self.adj.len();
        proof {
            self.lemma_facts(path);
            self.lemma_room(path, v as int);
        }
        self.indices.set(v, Some(self.index));
        self.index += 1;
        self.stack.push(v);
        self.on_stack.set(v, true);
        let mut low: usize = base;
        let ghost s1 = *self;
        proof {
            s0.lemma_enter(s1, path, v, v as int);
            s1.lemma_facts(path1);
            assert(s1.on(v as int));
            assert(s1.idx(v as int) == base);
            assert(s1.partial(v as int, 0, base as int)) by {
                assert forall|x: int, y: int|
                    s1.on(x) && s1.idx(x) > s1.idx(v as int) && #[trigger] edge(s1.g(), x, y) && s1.on(y)
                        && s1.idx(y) < s1.idx(v as int) implies base <= s1.idx(y) by {
                    assert(s1.idx(x) <= s0.index);
                }
            }
            lemma_reach_refl(g, v as int);
            assert(s1.witness(v as int, base as int));
        }

        let degree: usize = self.adj[v].len();
        let mut k: usize = 0;
        while k < degree
            invariant
                s0 == *old(self),
                g == s0.g(),
                g == self.g(),
                s0.index == base,
                s1.index == base + 1,
                v < s0.n(),
                path1 == path.push(v as int),
                degree == g[v as int]@.len(),
                k <= degree,
                self.inv(path1),
                self.extends(s0),
                !s0.seen(v as int),
                self.seen(v as int),
                self.on(v as int),
                self.indices@[v as int] == Some(base),
                self.index >= s1.index,
                s0.stack@.len() < self.stack@.len(),
                self.stack@[s0.stack@.len() as int] == v,
                low <= base,
                self.partial(v as int, k as int, low as int),
                self.witness(v as int, low as int),
                forall|fuel: nat|
                    fuel >= s0.n() - s1.index ==> visit_from(
                        g,
                        v as int,
                        k as int,
                        self.walk(path1),
                        fuel,
                    ) == #[trigger] visit_from(g, v as int, 0, s1.walk(path1), fuel),
            decreases degree - k,
        {
            let w: usize = self.adj[v][k];
            let ghost s2 = *self;
            let ghost low2 = low;
            proof {
                s2.lemma_facts(path1);
                assert(g[v as int]@[k as int] == w);
                assert(edge(g, v as int, w as int));
                lemma_reach_edge(g, v as int, w as int);
                assert(path1.last() == v as int);
                assert(w < g.len());
            }
            if self.indices[w].is_none() {
                assert(!s2.seen(w as int));
                proof {
                    s2.lemma_room(path1, w as int);
                }
                let low_w: usize = self.strong_connect(w, Ghost(path1));
                if low_w < low {
                    low = low_w;
                }
                proof {
                    s2.lemma_step(*self, path1, v as int, k as int, low2 as int, low_w as int, low as int);
                    self.lemma_extends_trans(s2, s0);
                    assert(self.stack@.take(s2.stack@.len() as int)[s0.stack@.len() as int] == v);
                    if low == low2 {
                        let y = choose|y: int| #[trigger] s2.on(y) && s2.idx(y) == low2 && reach(g, v as int, y);
                        assert(s2.seen(y));
                        assert(self.on(y));
                    } else {
                        assert(self.on(w as int));
                        let y = choose|y: int| #[trigger] self.on(y) && self.idx(y) == low_w && reach(g, w as int, y);
                        lemma_reach_trans(g, v as int, w as int, y);
                        assert(self.on(y));
                    }
                    assert(self.on(v as int));
                    assert forall|fuel: nat| fuel >= s0.n() - s1.index implies visit_from(
                        g,
                        v as int,
                        k + 1,
                        self.walk(path1),
                        fuel,
                    ) == #[trigger] visit_from(g, v as int, 0, s1.walk(path1), fuel) by {
                        assert(visit(g, w as int, s2.walk(path1), fuel) == self.walk(path1));
                        assert(visit_from(g, v as int, k as int, s2.walk(path1), fuel) == visit_from(
                            g,
                            v as int,
                            k + 1,
                            self.walk(path1),
                            fuel,
                        ));
                    }
                }
            } else {
                assert(self.seen(w as int));
                if self.on_stack[w] {
                    let idx_w: usize = self.indices[w].unwrap();
                    assert(self.on(w as int) && self.idx(w as int) == idx_w);
                    if idx_w < low {
                        low = idx_w;
                    }
                    assert(self.witness(v as int, low as int));
                }
                proof {
                    assert(self.partial(v as int, k + 1, low as int)) by {
                        assert forall|j: int| 0 <= j < k + 1 implies self.seen(#[trigger] self.g()[v as int]@[j] as int)
                            && (self.on(self.g()[v as int]@[j] as int) && self.idx(self.g()[v as int]@[j] as int)
                            < self.idx(v as int) ==> low <= self.idx(self.g()[v as int]@[j] as int)) by {
                            if j == k {
                                assert(self.g()[v as int]@[j] == w);
                            }
                        }
                    }
                    assert(s2.walk(path1).seen.contains(w as int));
                    assert forall|fuel: nat| fuel >= s0.n() - s1.index implies visit_from(
                        g,
                        v as int,
                        k + 1,
                        self.walk(path1),
                        fuel,
                    ) == #[trigger] visit_from(g, v as int, 0, s1.walk(path1), fuel) by {
                        assert(visit(g, w as int, s2.walk(path1), fuel) == s2.walk(path1));
                        assert(visit_from(g, v as int, k as int, s2.walk(path1), fuel) == visit_from(
                            g,
                            v as int,
                            k + 1,
                            s2.walk(path1),
                            fuel,
                        ));
                    }
                }
            }
            k += 1;
        }

        let ghost s4 = *self;
        proof {
            s4.lemma_walked(path1, v as int, base as int, low as int);
            assert forall|fuel: nat| fuel >= s0.n() - s0.index - 1 implies s4.walk(path1) == #[trigger] visit_from(
                g,
                v as int,
                0,
                s1.walk(path1),
                fuel,
            ) by {
                assert(visit_from(g, v as int, degree as int, s4.walk(path1), fuel) == s4.walk(path1));
            }
            s0.lemma_visited(path, v as int, s1.walk(path1), s4.walk(path1));
        }
        self.done = Ghost(self.done@.push(v as int));
        if low == base {
            self.close(v, Ghost(s4), Ghost(path), Ghost(s0.stack@.len() as int));
            proof {
                assert(self.stack@ =~= s0.stack@);
                assert(self.stack@.take(s0.stack@.len() as int) =~= s0.stack@);
                s0.lemma_facts(path);
                self.lemma_facts(path);
                assert forall|x: int| #[trigger] s0.seen(x) implies self.on_stack@[x] == s4.on_stack@[x] by {
                    assert(s4.seen(x));
                    assert(self.on(x) <==> s4.on(x) && s4.idx(x) < base);
                }
                self.lemma_extends_left(s4, s0);
                assert(!self.on(v as int));
                assert(self.bounds(base as int, low as int));
            }
        } else {
            proof {
                let y = choose|y: int| #[trigger] s4.on(y) && s4.idx(y) == low && reach(g, v as int, y);
                assert(s4.on(y) && s4.idx(y) < s4.idx(v as int));
                s4.lemma_leave(*self, path, v as int);
                assert(self.on(y));
                self.lemma_extends_left(s4, s0);
                assert forall|x: int, y: int|
                    self.on(x) && self.idx(x) >= base && #[trigger] edge(self.g(), x, y) && self.on(y)
                        && self.idx(y) < base implies low <= self.idx(y) by {
                    assert(s4.on(x) && s4.on(y));
                }
            }
        }
        low
    }
}

/// Tarjan's algorithm for finding strongly connected components.
pub fn components(adj: &Vec<Vec<usize>>) -> (r: Vec<Vec<usize>>)
    requires
        is_graph(adj@),
    ensures
        components_of(adj@, r@),
        finish_order(adj@).no_duplicates(),
{
    let n: usize = adj.len();
    let mut indices: Vec<Option<usize>> = Vec::new();
    let mut on_stack: Vec<bool> = Vec::new();
    let mut i: usize = 0;
    while i < n
        invariant
            i <= n,
            indices@.len() == i,
            on_stack@.len() == i,
            forall|x: int| 0 <= x < i ==> #[trigger] indices@[x] is None,
            forall|x: int| 0 <= x < i ==> !(#[trigger] on_stack@[x]),
        decreases n - i,
    {
        indices.push(None);
        on_stack.push(false);
        i += 1;
    }
    let mut t = Tarjan {
        adj,
        index: 0,
        indices,
        stack: Vec::new(),
        on_stack,
        components: Vec::new(),
        done: Ghost(Seq::empty()),
    };
    let ghost root = Walk { seen: Set::<int>::empty(), done: Seq::<int>::empty() };
    let ghost path = Seq::<int>::empty();
    proof {
        assert(t.inv(path)) by {
            reveal(Tarjan::inv);
        }
        assert(t.walk(path).seen =~= Set::<int>::empty());
        assert(t.walk(path) == root);
    }
    let mut v: usize = 0;
    while v < n
        invariant
            v <= n,
            n == adj@.len(),
            t.adj == adj,
            t.inv(path),
            path == Seq::<int>::empty(),
            forall|x: int| 0 <= x < v ==> #[trigger] t.seen(x),
            visit_roots(adj@, 0, root) == visit_roots(adj@, v as int, t.walk(path)),
        decreases n - v,
    {
        proof {
            t.lemma_facts(path);
        }
        let ghost before = t;
        if t.indices[v].is_none() {
            assert(!t.seen(v as int));
            t.strong_connect(v, Ghost(path));
            proof {
                assert(visit(adj@, v as int, before.walk(path), n as nat) == t.walk(path));
                assert forall|x: int| 0 <= x < v + 1 implies #[trigger] t.seen(x) by {
                    if x < v {
                        assert(before.seen(x));
                    }
                }
            }
        } else {
            proof {
                assert(t.seen(v as int));
                assert(t.walk(path).seen.contains(v as int));
                assert(visit(adj@, v as int, t.walk(path), n as nat) == t.walk(path));
            }
        }
        v += 1;
    }
    proof {
        t.lemma_all(path);
        assert(t.done@.no_duplicates()) by {
            reveal(Tarjan::inv);
        }
    }
    t.components
}

} // verus!
