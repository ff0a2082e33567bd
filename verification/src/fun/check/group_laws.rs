//! Which functions are inferred together, and which before others.

use crate::fun::book::Bk;
use crate::fun::check::rec_groups;
use crate::fun::term;
use crate::fun::term::Th;
use crate::fun::transform::facts_laws;
use crate::name;
use crate::name::Str;
use crate::name_graph;
use vstd::prelude::*;

verus! {

/// A function that is checked and is not a constructor.
pub open spec fn is_checked(bk: Bk, x: Str) -> bool {
    &&& bk.defs.contains_key(x)
    &&& bk.defs[x].check
    &&& !bk.ctrs.contains_key(x)
}

/// The body of a checked function refers somewhere to another one, which is not a
/// net.
pub open spec fn mentions(bk: Bk, x: Str, y: Str) -> bool {
    &&& is_checked(bk, x)
    &&& is_checked(bk, y)
    &&& !bk.hvm_defs.contains_key(y)
    &&& exists|place: Seq<int>| #[trigger]
        facts_laws::stands_at(term::body_of(bk.defs[x]), place, Th::Ref(y))
}

/// Each function mentions the next one.
pub open spec fn is_mention_walk(bk: Bk, p: Seq<Str>) -> bool {
    forall|i: int| 0 <= i < p.len() - 1 ==> mentions(bk, #[trigger] p[i], p[i + 1])
}

/// The first function leads to the second one, or is it.
pub open spec fn leads_to(bk: Bk, x: Str, y: Str) -> bool {
    exists|p: Seq<Str>| #[trigger]
        is_mention_walk(bk, p) && p.len() > 0 && p[0] == x && p.last() == y
}

/// A function depends on those that it mentions.
pub proof fn law_dependencies(bk: Bk, x: Str, y: Str)
    ensures
        name_graph::dep(rec_groups::deps_of(bk), x, y) <==> mentions(bk, x, y),
{
    facts_laws::law_refs(term::body_of(bk.defs[x]), y);
}

proof fn lemma_leads(bk: Bk, x: Str, y: Str)
    ensures
        leads_to(bk, x, y) <==> name_graph::needs(rec_groups::deps_of(bk), x, y),
{
    let d = rec_groups::deps_of(bk);
    if leads_to(bk, x, y) {
        let p = choose|p: Seq<Str>| #[trigger]
            is_mention_walk(bk, p) && p.len() > 0 && p[0] == x && p.last() == y;
        assert forall|i: int| 0 <= i < p.len() - 1 implies name_graph::dep(
            d,
            #[trigger] p[i],
            p[i + 1],
        ) by {
            law_dependencies(bk, p[i], p[i + 1]);
        }
        assert(name_graph::is_chain(d, p));
    }
    if name_graph::needs(d, x, y) {
        let p = choose|p: Seq<Str>| #[trigger]
            name_graph::is_chain(d, p) && p.len() > 0 && p[0] == x && p.last() == y;
        assert forall|i: int| 0 <= i < p.len() - 1 implies mentions(bk, #[trigger] p[i], p[i + 1]) by {
            assert(name_graph::dep(d, p[i], p[i + 1]));
            law_dependencies(bk, p[i], p[i + 1]);
        }
        assert(is_mention_walk(bk, p));
    }
}

proof fn lemma_is_node(bk: Bk, x: Str)
    ensures
        name_graph::nodes(rec_groups::deps_of(bk)).contains(x) <==> is_checked(bk, x),
{
    let d = rec_groups::deps_of(bk);
    if name_graph::nodes(d).contains(x) && !d.contains_key(x) {
        let y = choose|y: Str| #[trigger] name_graph::dep(d, y, x);
        law_dependencies(bk, y, x);
    }
    if is_checked(bk, x) {
        assert(d.contains_key(x));
    }
}

/// The groups hold the checked functions, each in one group and once, in the order
/// of their names. Two of them are in the same group if and only if each leads to
/// the other. A function comes after those that it leads to.
pub proof fn law_groups(bk: Bk, gs: Seq<Seq<Str>>, x: Str, y: Str, k: int, l: int)
    requires
        name_graph::is_groups(rec_groups::deps_of(bk), gs),
        0 <= k < gs.len(),
        0 <= l < gs.len(),
        gs[k].contains(x),
        gs[l].contains(y),
    ensures
        is_checked(bk, x),
        name::sorted(gs[k]),
        k == l <==> leads_to(bk, x, y) && leads_to(bk, y, x),
        leads_to(bk, x, y) ==> l <= k,
{
    let d = rec_groups::deps_of(bk);
    lemma_is_node(bk, x);
    lemma_leads(bk, x, y);
    lemma_leads(bk, y, x);
    assert(name_graph::nodes(d).contains(x) && name_graph::nodes(d).contains(y));
    if k == l {
        assert(gs[k].contains(y) <==> name_graph::tied(d, x, y));
    } else if name_graph::tied(d, x, y) {
        assert(gs[k].contains(y));
        name_graph::lemma_disjoint(d, gs, k, l, y);
    }
    if leads_to(bk, x, y) {
        let p = choose|p: Seq<Str>| #[trigger]
            name_graph::is_chain(d, p) && p.len() > 0 && p[0] == x && p.last() == y;
        lemma_earlier(bk, gs, p, k, l);
    }
}

proof fn lemma_earlier(bk: Bk, gs: Seq<Seq<Str>>, p: Seq<Str>, k: int, l: int)
    requires
        name_graph::is_groups(rec_groups::deps_of(bk), gs),
        name_graph::is_chain(rec_groups::deps_of(bk), p),
        p.len() > 0,
        0 <= k < gs.len(),
        0 <= l < gs.len(),
        gs[k].contains(p[0]),
        gs[l].contains(p.last()),
    ensures
        l <= k,
    decreases p.len(),
{
    let d = rec_groups::deps_of(bk);
    if p.len() == 1 {
        if k != l {
            name_graph::lemma_disjoint(d, gs, k, l, p[0]);
        }
    } else {
        assert(name_graph::dep(d, p[0], p[0int + 1]));
        assert(name_graph::nodes(d).contains(p[1]));
        let m = choose|m: int| 0 <= m < gs.len() && #[trigger] gs[m].contains(p[1]);
        let q = p.drop_first();
        assert forall|i: int| 0 <= i < q.len() - 1 implies name_graph::dep(
            d,
            #[trigger] q[i],
            q[i + 1],
        ) by {
            assert(name_graph::dep(d, p[i + 1], p[i + 1 + 1]));
        }
        assert(q[0] == p[1] && q.last() == p.last());
        lemma_earlier(bk, gs, q, m, l);
    }
}

/// Every checked function is in a group.
pub proof fn law_groups_cover(bk: Bk, gs: Seq<Seq<Str>>, x: Str)
    requires
        name_graph::is_groups(rec_groups::deps_of(bk), gs),
        is_checked(bk, x),
    ensures
        exists|k: int| 0 <= k < gs.len() && #[trigger] gs[k].contains(x),
{
    lemma_is_node(bk, x);
}

} // verus!
