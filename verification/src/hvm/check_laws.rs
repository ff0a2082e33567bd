//! What the check for endless calls tells, in terms of the places of references
//! in nets.

use crate::diagnostics::{Diags, Msg, Severity};
use crate::fun::term::SourceKind;
use crate::hvm::ast::{Nt, Tr};
use crate::hvm::cycle_laws;
use crate::hvm::cycle_search;
use crate::hvm::cycle_text;
use crate::hvm::mutual_recursion;
use crate::hvm::priority_laws;
use crate::name::Str;
use crate::name_graph;
use vstd::prelude::*;

verus! {

/* Calls */

/// The way to a place of a tree never goes to the first side of a constructor.
pub open spec fn is_active(t: Tr, place: Seq<bool>) -> bool
    decreases place.len(),
{
    place.len() == 0 || {
        &&& !(t is Con && !place[0])
        &&& priority_laws::side(t, place[0]) is Some
        &&& is_active(priority_laws::side(t, place[0])->0, place.drop_first())
    }
}

/// A reference to the name stands at an active place of the tree.
pub open spec fn tree_calls(t: Tr, n: Str) -> bool {
    exists|place: Seq<bool>|
        is_active(t, place) && #[trigger] priority_laws::at(t, place) == Some(Tr::Ref(n))
}

/// A reference to the name stands at an active place of the root, or is a side of
/// a redex.
pub open spec fn net_calls(net: Nt, n: Str) -> bool {
    tree_calls(net.root, n) || exists|i: int, second: bool| #[trigger]
        priority_laws::is_ref_at(net, i, second, n)
}

/// A function of the program calls another one, or itself.
pub open spec fn calls(bk: Map<Str, Nt>, x: Str, y: Str) -> bool {
    bk.contains_key(x) && net_calls(bk[x], y)
}

/// Each function calls the next one, and the last one is the first one again.
pub open spec fn is_round(bk: Map<Str, Nt>, p: Seq<Str>) -> bool {
    &&& p.len() > 1
    &&& p[0] == p.last()
    &&& forall|i: int| 0 <= i < p.len() - 1 ==> calls(bk, #[trigger] p[i], p[i + 1])
}

/// Some function calls itself, directly or through others.
pub open spec fn is_endless(bk: Map<Str, Nt>) -> bool {
    exists|p: Seq<Str>| #[trigger] is_round(bk, p)
}

/// One of the diagnostics is an error.
pub open spec fn has_error(ds: Diags) -> bool {
    exists|i: int| 0 <= i < ds.items.len() && (#[trigger] ds.items[i]).severity == Severity::Error
}

/// The diagnostics are those from before, and a warning about the program at the
/// end, which shows the cycles of its graph, if and only if some function calls
/// itself without end.
pub open spec fn is_warned(bk: Map<Str, Nt>, ds: Diags, new: Diags) -> bool {
    &&& new.config == ds.config
    &&& !is_endless(bk) ==> new.items == ds.items
    &&& is_endless(bk) ==> {
        let d = new.items.last();
        &&& new.items == ds.items.push(d)
        &&& d.message == Msg::RecursionCycles(
            cycle_text::shown_cycles(
                cycle_search::graph_cycles(mutual_recursion::graph_of(bk)),
            ),
        )
        &&& d.severity == ds.config.recursion_cycle
        &&& d.origin is Book
        &&& d.source.file is None
        &&& d.source.span is None
        &&& d.source.kind == SourceKind::Unknown
    }
}

/* Active references */

/// The active references of a tree: a reference is one, a constructor has those of
/// its second side, every other node those of both sides, and nothing else has any.
pub proof fn law_active_refs(t: Tr, n: Str)
    ensures
        mutual_recursion::active_refs(t).contains(n) <==> {
            ||| t == Tr::Ref(n)
            ||| !(t is Con) && priority_laws::side(t, false) is Some
                && mutual_recursion::active_refs(priority_laws::side(t, false)->0).contains(n)
            ||| priority_laws::side(t, true) is Some && mutual_recursion::active_refs(
                priority_laws::side(t, true)->0,
            ).contains(n)
        },
{
    match t {
        Tr::Ref(m) => {
            assert(seq![m][0] == m);
        },
        Tr::Dup(a, b) => {
            lemma_contains_both(
                mutual_recursion::active_refs(*a),
                mutual_recursion::active_refs(*b),
                n,
            );
        },
        Tr::Opr(a, b) => {
            lemma_contains_both(
                mutual_recursion::active_refs(*a),
                mutual_recursion::active_refs(*b),
                n,
            );
        },
        Tr::Swi(a, b) => {
            lemma_contains_both(
                mutual_recursion::active_refs(*a),
                mutual_recursion::active_refs(*b),
                n,
            );
        },
        _ => {},
    }
}

proof fn lemma_contains_both(a: Seq<Str>, b: Seq<Str>, n: Str)
    ensures
        (a + b).contains(n) <==> a.contains(n) || b.contains(n),
{
    if a.contains(n) {
        let i = choose|i: int| 0 <= i < a.len() && a[i] == n;
        assert((a + b)[i] == n);
    }
    if b.contains(n) {
        let i = choose|i: int| 0 <= i < b.len() && b[i] == n;
        assert((a + b)[a.len() + i] == n);
    }
}

proof fn lemma_tree_calls(t: Tr, n: Str)
    ensures
        mutual_recursion::active_refs(t).contains(n) <==> tree_calls(t, n),
    decreases t,
{
    law_active_refs(t, n);
    if mutual_recursion::active_refs(t).contains(n) {
        if t == Tr::Ref(n) {
            let none = Seq::<bool>::empty();
            assert(is_active(t, none) && priority_laws::at(t, none) == Some(Tr::Ref(n)));
        } else {
            let second = t is Con || !mutual_recursion::active_refs(
                priority_laws::side(t, false)->0,
            ).contains(n);
            let s = priority_laws::side(t, second)->0;
            lemma_tree_calls(s, n);
            let place = choose|place: Seq<bool>|
                is_active(s, place) && #[trigger] priority_laws::at(s, place) == Some(Tr::Ref(n));
            let whole = seq![second] + place;
            assert(whole.drop_first() =~= place);
            assert(is_active(t, whole) && priority_laws::at(t, whole) == Some(Tr::Ref(n)));
        }
    }
    if tree_calls(t, n) {
        let place = choose|place: Seq<bool>|
            is_active(t, place) && #[trigger] priority_laws::at(t, place) == Some(Tr::Ref(n));
        if place.len() > 0 {
            let s = priority_laws::side(t, place[0])->0;
            assert(priority_laws::at(s, place.drop_first()) == Some(Tr::Ref(n)));
            lemma_tree_calls(s, n);
        }
    }
}

proof fn lemma_redex_calls(net: Nt, n: Str, k: int)
    requires
        0 <= k <= net.rbag.len(),
    ensures
        mutual_recursion::redex_refs(net.rbag.take(k)).contains(n) <==> exists|i: int, second: bool|
            i < k && #[trigger] priority_laws::is_ref_at(net, i, second, n),
    decreases k,
{
    if k > 0 {
        let rs = net.rbag.take(k);
        let r = net.rbag[k - 1];
        lemma_redex_calls(net, n, k - 1);
        assert(rs.drop_last() =~= net.rbag.take(k - 1));
        assert(rs.last() == r);
        let (a, b) = (mutual_recursion::side_ref(r.a), mutual_recursion::side_ref(r.b));
        let init = mutual_recursion::redex_refs(rs.drop_last());
        lemma_contains_both(init + a, b, n);
        lemma_contains_both(init, a, n);
        lemma_side_calls(r.a, n);
        lemma_side_calls(r.b, n);
        if r.a == Tr::Ref(n) {
            assert(priority_laws::is_ref_at(net, k - 1, false, n));
        }
        if r.b == Tr::Ref(n) {
            assert(priority_laws::is_ref_at(net, k - 1, true, n));
        }
        if init.contains(n) {
            let (i, s) = choose|i: int, s: bool|
                i < k - 1 && #[trigger] priority_laws::is_ref_at(net, i, s, n);
            assert(i < k && priority_laws::is_ref_at(net, i, s, n));
        }
        if exists|i: int, s: bool| i < k && #[trigger] priority_laws::is_ref_at(net, i, s, n) {
            let (i, s) = choose|i: int, s: bool|
                i < k && #[trigger] priority_laws::is_ref_at(net, i, s, n);
            if i < k - 1 {
                assert(i < k - 1 && priority_laws::is_ref_at(net, i, s, n));
            }
        }
    } else {
        assert(net.rbag.take(0) =~= Seq::empty());
    }
}

proof fn lemma_side_calls(t: Tr, n: Str)
    ensures
        mutual_recursion::side_ref(t).contains(n) <==> t == Tr::Ref(n),
{
    if let Tr::Ref(m) = t {
        assert(seq![m][0] == m);
    }
}

/// The graph of a program has an edge for each call, and no other.
pub proof fn law_graph_calls(bk: Map<Str, Nt>, x: Str, y: Str)
    requires
        bk.dom().finite(),
    ensures
        name_graph::dep(cycle_search::graph_deps(mutual_recursion::graph_of(bk)), x, y) <==> calls(
            bk,
            x,
            y,
        ),
{
    cycle_laws::law_graph_of(bk, x, y);
    if bk.contains_key(x) {
        let net = bk[x];
        lemma_tree_calls(net.root, y);
        lemma_redex_calls(net, y, net.rbag.len() as int);
        assert(net.rbag.take(net.rbag.len() as int) =~= net.rbag);
        lemma_contains_both(
            mutual_recursion::active_refs(net.root),
            mutual_recursion::redex_refs(net.rbag),
            y,
        );
        if net_calls(net, y) && !tree_calls(net.root, y) {
            let (i, s) = choose|i: int, s: bool| #[trigger] priority_laws::is_ref_at(net, i, s, y);
            assert(i < net.rbag.len() && priority_laws::is_ref_at(net, i, s, y));
        }
    }
}

proof fn lemma_endless(bk: Map<Str, Nt>)
    requires
        bk.dom().finite(),
    ensures
        is_endless(bk) <==> exists|x: Str| #[trigger]
            name_graph::is_recursive(
                cycle_search::graph_deps(mutual_recursion::graph_of(bk)),
                x,
            ),
{
    let d = cycle_search::graph_deps(mutual_recursion::graph_of(bk));
    if is_endless(bk) {
        let p = choose|p: Seq<Str>| #[trigger] is_round(bk, p);
        assert forall|i: int| 0 <= i < p.len() - 1 implies name_graph::dep(d, #[trigger] p[i], p[i + 1]) by {
            law_graph_calls(bk, p[i], p[i + 1]);
        }
        let rest = p.drop_first();
        assert forall|i: int| 0 <= i < rest.len() - 1 implies name_graph::dep(
            d,
            #[trigger] rest[i],
            rest[i + 1],
        ) by {
            assert(name_graph::dep(d, p[i + 1], p[i + 1 + 1]));
        }
        assert(name_graph::is_chain(d, rest));
        assert(rest[0] == p[1] && rest.last() == p[0]);
        assert(name_graph::needs(d, p[1], p[0]));
        assert(name_graph::dep(d, p[0], p[0int + 1]));
        assert(name_graph::is_recursive(d, p[0]));
    }
    if exists|x: Str| #[trigger] name_graph::is_recursive(d, x) {
        let x = choose|x: Str| #[trigger] name_graph::is_recursive(d, x);
        let y = choose|y: Str| #[trigger] name_graph::dep(d, x, y) && name_graph::needs(d, y, x);
        let q = choose|q: Seq<Str>| #[trigger]
            name_graph::is_chain(d, q) && q.len() > 0 && q[0] == y && q.last() == x;
        let p = seq![x] + q;
        assert forall|i: int| 0 <= i < p.len() - 1 implies calls(bk, #[trigger] p[i], p[i + 1]) by {
            if i > 0 {
                assert(name_graph::dep(d, q[i - 1], q[i - 1 + 1]));
            }
            assert(name_graph::dep(d, p[i], p[i + 1]));
            law_graph_calls(bk, p[i], p[i + 1]);
        }
        assert(p.last() == x);
        assert(is_round(bk, p));
    }
}

/// A warning is added if and only if some function of the program calls itself
/// without end, directly or through others, and what was there stays.
pub proof fn law_cycles_warning(bk: Map<Str, Nt>, ds: Diags)
    requires
        bk.dom().finite(),
    ensures
        is_warned(
            bk,
            ds,
            mutual_recursion::with_cycles_warning(ds, mutual_recursion::graph_of(bk)),
        ),
{
    let g = mutual_recursion::graph_of(bk);
    cycle_laws::law_graph_of(bk, Seq::empty(), Seq::empty());
    cycle_laws::law_cycles_exist(g);
    lemma_endless(bk);
    let new = mutual_recursion::with_cycles_warning(ds, g);
    if is_endless(bk) {
        assert(new.items == ds.items.push(new.items.last()));
    }
}

} // verus!
