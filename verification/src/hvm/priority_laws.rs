//! Which redexes get priority, in terms of the places of references in nets.

use crate::hvm::add_recursive_priority;
use crate::hvm::ast;
use crate::hvm::ast::{Nt, Redex, Tr, Tree};
use crate::name;
use crate::name::Str;
use crate::name_graph;
use crate::name_graph::Deps;
use vstd::prelude::*;

verus! {

/* Places in nets */

/// The tree on the first or the second side of a node.
pub open spec fn side(t: Tr, second: bool) -> Option<Tr> {
    match t {
        Tr::Con(a, b) => Some(if second { *b } else { *a }),
        Tr::Dup(a, b) => Some(if second { *b } else { *a }),
        Tr::Opr(a, b) => Some(if second { *b } else { *a }),
        Tr::Swi(a, b) => Some(if second { *b } else { *a }),
        Tr::Var(_) => None,
        Tr::Ref(_) => None,
        Tr::Era => None,
        Tr::Num(_) => None,
    }
}

/// What stands at a place of a tree: the sides to go to, one after the other.
pub open spec fn at(t: Tr, place: Seq<bool>) -> Option<Tr>
    decreases place.len(),
{
    if place.len() == 0 {
        Some(t)
    } else {
        match side(t, place[0]) {
            Some(s) => at(s, place.drop_first()),
            None => None,
        }
    }
}

/// A reference to the name stands somewhere in the tree.
pub open spec fn holds(t: Tr, n: Str) -> bool {
    exists|place: Seq<bool>| #[trigger] at(t, place) == Some(Tr::Ref(n))
}

/// A reference to the name stands somewhere in the net.
pub open spec fn net_holds(net: Nt, n: Str) -> bool {
    holds(net.root, n) || exists|i: int|
        0 <= i < net.rbag.len() && (holds((#[trigger] net.rbag[i]).a, n) || holds(net.rbag[i].b, n))
}

/// A net of the program holds a reference to the name.
pub open spec fn refers(bk: Map<Str, Nt>, x: Str, y: Str) -> bool {
    bk.contains_key(x) && net_holds(bk[x], y)
}

/// Each name refers to the next one.
pub open spec fn is_way(bk: Map<Str, Nt>, p: Seq<Str>) -> bool {
    forall|i: int| 0 <= i < p.len() - 1 ==> refers(bk, #[trigger] p[i], p[i + 1])
}

/// References lead from the first name to the second one.
pub open spec fn leads(bk: Map<Str, Nt>, x: Str, y: Str) -> bool {
    exists|p: Seq<Str>| #[trigger] is_way(bk, p) && p.len() > 0 && p[0] == x && p.last() == y
}

/// The tree on a side of a redex.
pub open spec fn redex_side(r: Redex, second: bool) -> Tr {
    if second {
        r.b
    } else {
        r.a
    }
}

/// The side of the redex at this place of the net is a reference to the name.
pub open spec fn is_ref_at(net: Nt, i: int, second: bool, n: Str) -> bool {
    0 <= i < net.rbag.len() && redex_side(net.rbag[i], second) == Tr::Ref(n)
}

/// Two different sides of redexes are references to the name.
pub open spec fn is_repeated(net: Nt, n: Str) -> bool {
    exists|i: int, s: bool, j: int, t: bool|
        #![trigger is_ref_at(net, i, s, n), is_ref_at(net, j, t, n)]
        is_ref_at(net, i, s, n) && is_ref_at(net, j, t, n) && (i != j || s != t)
}

/// The redex has a side that is a repeated reference which leads back to the net.
pub open spec fn is_recursive_redex(bk: Map<Str, Nt>, n: Str, i: int) -> bool {
    exists|x: Str, s: bool|
        #![trigger is_ref_at(bk[n], i, s, x)]
        is_ref_at(bk[n], i, s, x) && is_repeated(bk[n], x) && leads(bk, x, n)
}

/// The second program is the first one with priority on its recursive redexes.
pub open spec fn has_priorities(bk: Map<Str, Nt>, new: Map<Str, Nt>) -> bool {
    &&& new.dom() == bk.dom()
    &&& forall|n: Str| #[trigger]
        bk.contains_key(n) ==> new[n].root == bk[n].root && new[n].rbag.len() == bk[n].rbag.len()
    &&& forall|n: Str, i: int|
        #![trigger new[n].rbag[i]]
        bk.contains_key(n) && 0 <= i < bk[n].rbag.len() ==> {
            &&& new[n].rbag[i].a == bk[n].rbag[i].a
            &&& new[n].rbag[i].b == bk[n].rbag[i].b
            &&& new[n].rbag[i].pri <==> bk[n].rbag[i].pri || is_recursive_redex(bk, n, i)
        }
}

/* References of trees */

/// A tree refers to a name if and only if it is the reference to the name, or one
/// of its two sides refers to the name, whatever kind of node it is.
pub proof fn law_tree_refs(t: Tr, n: Str)
    ensures
        add_recursive_priority::tree_refs(t).contains(n) <==> {
            ||| t == Tr::Ref(n)
            ||| side(t, false) is Some && add_recursive_priority::tree_refs(
                side(t, false)->0,
            ).contains(n)
            ||| side(t, true) is Some && add_recursive_priority::tree_refs(
                side(t, true)->0,
            ).contains(n)
        },
        ast::tr_kids(t) == match side(t, false) {
            Some(a) => seq![a, side(t, true)->0],
            None => Seq::empty(),
        },
{
}

/// The references of a tree are those that stand somewhere in it.
pub proof fn law_tree_refs_places(t: Tr, n: Str)
    ensures
        add_recursive_priority::tree_refs(t).contains(n) <==> holds(t, n),
    decreases t,
{
    law_tree_refs(t, n);
    if add_recursive_priority::tree_refs(t).contains(n) {
        if t == Tr::Ref(n) {
            assert(at(t, Seq::empty()) == Some(Tr::Ref(n)));
        } else {
            let second = !add_recursive_priority::tree_refs(side(t, false)->0).contains(n);
            let s = side(t, second)->0;
            lemma_side_decreases(t, second);
            law_tree_refs_places(s, n);
            let place = choose|place: Seq<bool>| #[trigger] at(s, place) == Some(Tr::Ref(n));
            let whole = seq![second] + place;
            assert(whole.drop_first() =~= place);
            assert(at(t, whole) == Some(Tr::Ref(n)));
        }
    }
    if holds(t, n) {
        let place = choose|place: Seq<bool>| #[trigger] at(t, place) == Some(Tr::Ref(n));
        if place.len() > 0 {
            let s = side(t, place[0])->0;
            assert(at(s, place.drop_first()) == Some(Tr::Ref(n)));
            lemma_side_decreases(t, place[0]);
            law_tree_refs_places(s, n);
        }
    }
}

proof fn lemma_side_decreases(t: Tr, second: bool)
    requires
        side(t, second) is Some,
    ensures
        decreases_to!(t => side(t, second)->0),
{
}

proof fn lemma_net_refs(net: Nt, n: Str)
    ensures
        add_recursive_priority::net_refs(net).contains(n) <==> net_holds(net, n),
{
    law_tree_refs_places(net.root, n);
    assert forall|i: int| 0 <= i < net.rbag.len() implies (holds((#[trigger] net.rbag[i]).a, n)
        <==> add_recursive_priority::tree_refs(net.rbag[i].a).contains(n)) && (holds(
        net.rbag[i].b,
        n,
    ) <==> add_recursive_priority::tree_refs(net.rbag[i].b).contains(n)) by {
        law_tree_refs_places(net.rbag[i].a, n);
        law_tree_refs_places(net.rbag[i].b, n);
    }
}

/// A net depends on the names whose references stand somewhere in it.
pub proof fn law_dependencies(bk: Map<Str, Nt>, x: Str, y: Str)
    ensures
        name_graph::dep(add_recursive_priority::deps_of(bk), x, y) <==> refers(bk, x, y),
{
    if bk.contains_key(x) {
        lemma_net_refs(bk[x], y);
    }
}

proof fn lemma_leads(bk: Map<Str, Nt>, x: Str, y: Str)
    ensures
        name_graph::needs(add_recursive_priority::deps_of(bk), x, y) <==> leads(bk, x, y),
{
    let d = add_recursive_priority::deps_of(bk);
    assert forall|p: Seq<Str>| #[trigger] name_graph::is_chain(d, p) <==> is_way(bk, p) by {
        assert forall|i: int| 0 <= i < p.len() - 1 implies (name_graph::dep(d, #[trigger] p[i], p[i + 1])
            <==> refers(bk, p[i], p[i + 1])) by {
            law_dependencies(bk, p[i], p[i + 1]);
        }
    }
    if leads(bk, x, y) {
        let p = choose|p: Seq<Str>| #[trigger]
            is_way(bk, p) && p.len() > 0 && p[0] == x && p.last() == y;
        assert(name_graph::is_chain(d, p));
    }
}

/* Counting */

/// A side that is a reference to the name counts.
proof fn lemma_count_one(rbag: Seq<Redex>, n: Str, i: int, s: bool)
    requires
        0 <= i < rbag.len(),
        redex_side(rbag[i], s) == Tr::Ref(n),
    ensures
        add_recursive_priority::ref_count(rbag, n) >= 1,
    decreases rbag.len(),
{
    if i < rbag.len() - 1 {
        assert(rbag.drop_last()[i] == rbag[i]);
        lemma_count_one(rbag.drop_last(), n, i, s);
    }
}

proof fn lemma_count_two(rbag: Seq<Redex>, n: Str, i: int, s: bool, j: int, t: bool)
    requires
        0 <= i <= j < rbag.len(),
        redex_side(rbag[i], s) == Tr::Ref(n),
        redex_side(rbag[j], t) == Tr::Ref(n),
        i != j || s != t,
    ensures
        add_recursive_priority::ref_count(rbag, n) > 1,
    decreases rbag.len(),
{
    let init = rbag.drop_last();
    if j < rbag.len() - 1 {
        assert(init[i] == rbag[i] && init[j] == rbag[j]);
        lemma_count_two(init, n, i, s, j, t);
    } else if i < j {
        assert(init[i] == rbag[i]);
        lemma_count_one(init, n, i, s);
    }
}

proof fn lemma_find_one(rbag: Seq<Redex>, n: Str) -> (r: (int, bool))
    requires
        add_recursive_priority::ref_count(rbag, n) >= 1,
    ensures
        0 <= r.0 < rbag.len(),
        redex_side(rbag[r.0], r.1) == Tr::Ref(n),
    decreases rbag.len(),
{
    let k = rbag.len() - 1;
    if rbag[k].a == Tr::Ref(n) {
        (k, false)
    } else if rbag[k].b == Tr::Ref(n) {
        (k, true)
    } else {
        let r = lemma_find_one(rbag.drop_last(), n);
        assert(rbag.drop_last()[r.0] == rbag[r.0]);
        r
    }
}

proof fn lemma_find_two(rbag: Seq<Redex>, n: Str) -> (r: (int, bool, int, bool))
    requires
        add_recursive_priority::ref_count(rbag, n) > 1,
    ensures
        0 <= r.0 < rbag.len(),
        0 <= r.2 < rbag.len(),
        redex_side(rbag[r.0], r.1) == Tr::Ref(n),
        redex_side(rbag[r.2], r.3) == Tr::Ref(n),
        r.0 != r.2 || r.1 != r.3,
    decreases rbag.len(),
{
    let k = rbag.len() - 1;
    let init = rbag.drop_last();
    if rbag[k].a == Tr::Ref(n) && rbag[k].b == Tr::Ref(n) {
        (k, false, k, true)
    } else if rbag[k].a == Tr::Ref(n) || rbag[k].b == Tr::Ref(n) {
        let (i, s) = lemma_find_one(init, n);
        assert(init[i] == rbag[i]);
        (i, s, k, rbag[k].b == Tr::Ref(n))
    } else {
        let r = lemma_find_two(init, n);
        assert(init[r.0] == rbag[r.0] && init[r.2] == rbag[r.2]);
        r
    }
}

proof fn lemma_repeated(net: Nt, n: Str)
    ensures
        add_recursive_priority::ref_count(net.rbag, n) > 1 <==> is_repeated(net, n),
{
    if add_recursive_priority::ref_count(net.rbag, n) > 1 {
        let (i, s, j, t) = lemma_find_two(net.rbag, n);
        assert(is_ref_at(net, i, s, n) && is_ref_at(net, j, t, n));
    }
    if is_repeated(net, n) {
        let (i, s, j, t) = choose|i: int, s: bool, j: int, t: bool|
            #![trigger is_ref_at(net, i, s, n), is_ref_at(net, j, t, n)]
            is_ref_at(net, i, s, n) && is_ref_at(net, j, t, n) && (i != j || s != t);
        if i <= j {
            lemma_count_two(net.rbag, n, i, s, j, t);
        } else {
            lemma_count_two(net.rbag, n, j, t, i, s);
        }
    }
}

/* The law */

/// A redex gets priority if and only if one of its sides is a reference that the
/// redexes of the net repeat, and references lead from there back to the net.
/// Priorities are not taken away, and nothing else of a net changes.
pub proof fn law_priorities(bk: Map<Str, Nt>)
    ensures
        has_priorities(bk, add_recursive_priority::prioritized(bk)),
{
    let new = add_recursive_priority::prioritized(bk);
    let d = add_recursive_priority::deps_of(bk);
    assert(new.dom() =~= bk.dom());
    assert forall|n: Str, i: int|
        #![trigger new[n].rbag[i]]
        bk.contains_key(n) && 0 <= i < bk[n].rbag.len() implies {
        &&& new[n].rbag[i].a == bk[n].rbag[i].a
        &&& new[n].rbag[i].b == bk[n].rbag[i].b
        &&& new[n].rbag[i].pri <==> bk[n].rbag[i].pri || is_recursive_redex(bk, n, i)
    } by {
        let r = bk[n].rbag[i];
        let names = add_recursive_priority::recursive_refs(d, n);
        if add_recursive_priority::is_raised(bk[n], names, r) {
            let x = choose|x: Str|
                #![trigger add_recursive_priority::has_ref(r, x)]
                add_recursive_priority::has_ref(r, x) && names.contains(x)
                    && add_recursive_priority::ref_count(bk[n].rbag, x) > 1;
            lemma_repeated(bk[n], x);
            lemma_leads(bk, x, n);
            assert(is_ref_at(bk[n], i, r.a != Tr::Ref(x), x));
        }
        if is_recursive_redex(bk, n, i) {
            let (x, s) = choose|x: Str, s: bool|
                #![trigger is_ref_at(bk[n], i, s, x)]
                is_ref_at(bk[n], i, s, x) && is_repeated(bk[n], x) && leads(bk, x, n);
            lemma_repeated(bk[n], x);
            lemma_leads(bk, x, n);
            assert(at(redex_side(r, s), Seq::empty()) == Some(Tr::Ref(x)));
            assert(holds(r.a, x) || holds(r.b, x));
            assert(net_holds(bk[n], x));
            law_dependencies(bk, n, x);
            assert(add_recursive_priority::has_ref(r, x));
        }
    }
}

/* Cycles */

/// Each name depends on the next one.
pub open spec fn is_dep_walk(d: Deps, p: Seq<Str>) -> bool {
    forall|i: int| 0 <= i < p.len() - 1 ==> d.contains_key(#[trigger] p[i]) && d[p[i]].contains(p[i + 1])
}

/// A walk of at least one step leads from one name to another.
pub open spec fn walks(d: Deps, x: Str, y: Str) -> bool {
    exists|p: Seq<Str>| #[trigger] is_dep_walk(d, p) && p.len() > 1 && p[0] == x && p.last() == y
}

proof fn lemma_walks(d: Deps, x: Str, y: Str)
    ensures
        walks(d, x, y) <==> exists|z: Str| #[trigger]
            name_graph::dep(d, x, z) && name_graph::needs(d, z, y),
{
    if walks(d, x, y) {
        let p = choose|p: Seq<Str>| #[trigger]
            is_dep_walk(d, p) && p.len() > 1 && p[0] == x && p.last() == y;
        let q = p.drop_first();
        assert(d.contains_key(p[0]));
        assert(name_graph::dep(d, x, p[1]));
        assert forall|i: int| 0 <= i < q.len() - 1 implies name_graph::dep(
            d,
            #[trigger] q[i],
            q[i + 1],
        ) by {
            assert(q[i] == p[i + 1] && q[i + 1] == p[i + 2]);
        }
        assert(name_graph::is_chain(d, q) && q[0] == p[1] && q.last() == y);
        assert(name_graph::needs(d, p[1], y));
    }
    if exists|z: Str| #[trigger] name_graph::dep(d, x, z) && name_graph::needs(d, z, y) {
        let z = choose|z: Str| #[trigger] name_graph::dep(d, x, z) && name_graph::needs(d, z, y);
        let q = choose|q: Seq<Str>| #[trigger]
            name_graph::is_chain(d, q) && q.len() > 0 && q[0] == z && q.last() == y;
        let p = seq![x] + q;
        assert forall|i: int| 0 <= i < p.len() - 1 implies d.contains_key(#[trigger] p[i])
            && d[p[i]].contains(p[i + 1]) by {
            if i > 0 {
                assert(p[i] == q[i - 1] && p[i + 1] == q[i]);
                assert(name_graph::dep(d, q[i - 1], q[i - 1 + 1]));
            }
        }
        assert(is_dep_walk(d, p) && p.len() > 1 && p[0] == x && p.last() == y);
    }
}

/// The cycles of a graph hold the names from which a walk leads back to them, and
/// no others. Two names are in the same cycle if and only if walks lead from each
/// to the other. The names of a cycle, and the first names of the cycles, come in
/// their order.
pub proof fn law_cycles(d: Deps, cs: Seq<Seq<Str>>, x: Str, y: Str)
    requires
        add_recursive_priority::is_cycles(d, cs),
    ensures
        (exists|k: int| 0 <= k < cs.len() && #[trigger] cs[k].contains(x)) <==> walks(d, x, x),
        forall|k: int|
            0 <= k < cs.len() && cs[k].contains(x) ==> ((#[trigger] cs[k]).contains(y) <==> walks(
                d,
                x,
                y,
            ) && walks(d, y, x)),
        forall|k: int| 0 <= k < cs.len() ==> name::sorted(#[trigger] cs[k]),
        forall|k: int, l: int|
            0 <= k < l < cs.len() ==> name::str_lt((#[trigger] cs[k])[0], (#[trigger] cs[l])[0]),
{
    lemma_walks(d, x, x);
    lemma_walks(d, x, y);
    lemma_walks(d, y, x);
    assert(name_graph::is_recursive(d, x) <==> walks(d, x, x));
    if walks(d, x, x) {
        assert(exists|k: int| 0 <= k < cs.len() && #[trigger] cs[k].contains(x));
    }
    assert forall|k: int| 0 <= k < cs.len() && cs[k].contains(x) implies ((#[trigger] cs[k]).contains(
        y,
    ) <==> walks(d, x, y) && walks(d, y, x)) by {
        assert(cs[k].contains(y) <==> name_graph::tied(d, x, y));
        if cs[k].contains(y) {
            lemma_tied_walks(d, x, y);
        }
        if walks(d, x, y) && walks(d, y, x) {
            let z = choose|z: Str| #[trigger] name_graph::dep(d, x, z) && name_graph::needs(d, z, y);
            let w = choose|w: Str| #[trigger] name_graph::dep(d, y, w) && name_graph::needs(d, w, x);
            name_graph::lemma_dep_needs(d, x, z);
            name_graph::lemma_dep_needs(d, y, w);
            name_graph::lemma_needs_trans(d, x, z, y);
            name_graph::lemma_needs_trans(d, y, w, x);
        }
    }
}

proof fn lemma_tied_walks(d: Deps, x: Str, y: Str)
    requires
        name_graph::tied(d, x, y),
        name_graph::is_recursive(d, x),
    ensures
        walks(d, x, y),
        walks(d, y, x),
{
    let z = choose|z: Str| #[trigger] name_graph::dep(d, x, z) && name_graph::needs(d, z, x);
    lemma_walks(d, x, y);
    lemma_walks(d, y, x);
    name_graph::lemma_needs_trans(d, z, x, y);
    assert(name_graph::dep(d, x, z) && name_graph::needs(d, z, y));
    if x == y {
        assert(name_graph::dep(d, y, z) && name_graph::needs(d, z, x));
    } else {
        let p = choose|p: Seq<Str>| #[trigger]
            name_graph::is_chain(d, p) && p.len() > 0 && p[0] == y && p.last() == x;
        assert(p.len() > 1);
        assert forall|i: int| 0 <= i < p.len() - 1 implies d.contains_key(#[trigger] p[i])
            && d[p[i]].contains(p[i + 1]) by {
            assert(name_graph::dep(d, p[i], p[i + 1]));
        }
        assert(is_dep_walk(d, p));
    }
}

/// The content of each kind of tree.
pub proof fn law_tree_content(t: Tree)
    ensures
        match t {
            Tree::Var { nam } => t@ == Tr::Var(nam@),
            Tree::Ref { nam } => t@ == Tr::Ref(nam@),
            Tree::Era => t@ is Era,
            Tree::Num { val } => t@ == Tr::Num(val),
            Tree::Con { fst, snd } => t@ is Con && side(t@, false) == Some((*fst)@) && side(t@, true)
                == Some((*snd)@),
            Tree::Dup { fst, snd } => t@ is Dup && side(t@, false) == Some((*fst)@) && side(t@, true)
                == Some((*snd)@),
            Tree::Opr { fst, snd } => t@ is Opr && side(t@, false) == Some((*fst)@) && side(t@, true)
                == Some((*snd)@),
            Tree::Swi { fst, snd } => t@ is Swi && side(t@, false) == Some((*fst)@) && side(t@, true)
                == Some((*snd)@),
        },
{
}

} // verus!
