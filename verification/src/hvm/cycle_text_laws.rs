//! What the text about cycles shows, and how the graph that they come from is
//! built.

use crate::hvm::ast::{Nt, Redex, Tr};
use crate::hvm::cycle_text;
use crate::hvm::mutual_recursion;
use crate::hvm::mutual_recursion::Gr;
use crate::indexed;
use crate::name;
use crate::name::Str;
use crate::text;
use vstd::prelude::*;

verus! {

/* Merged definitions */

/// The name of a merged definition is the first name, the separator and the
/// second name, and the separator does not begin anywhere in the first one.
pub proof fn law_merged_names(x: Str)
    requires
        text::occurs(x, "__M_"@),
    ensures
        x == cycle_text::merged_left(x) + "__M_"@ + cycle_text::merged_right(x),
        forall|i: int|
            0 <= i < cycle_text::merged_left(x).len() ==> !#[trigger] text::occurs_at(x, "__M_"@, i),
{
    let sep = "__M_"@;
    let i = choose|i: int| #[trigger] text::occurs_at(x, sep, i);
    lemma_first_place(x, sep, i);
    let p = cycle_text::first_place(x, sep);
    assert(text::is_first_place(x, sep, p));
    assert(x.subrange(p, p + sep.len()) == sep);
    assert(x =~= cycle_text::merged_left(x) + sep + cycle_text::merged_right(x)) by {
        assert forall|k: int| p <= k < p + sep.len() implies x[k] == sep[k - p] by {
            assert(x.subrange(p, p + sep.len())[k - p] == x[k]);
        }
    }
}

proof fn lemma_first_place(x: Str, part: Str, i: int)
    requires
        text::occurs_at(x, part, i),
    ensures
        exists|p: int| #[trigger] text::is_first_place(x, part, p),
    decreases i,
{
    if exists|j: int| j < i && #[trigger] text::occurs_at(x, part, j) {
        let j = choose|j: int| j < i && #[trigger] text::occurs_at(x, part, j);
        lemma_first_place(x, part, j);
    } else {
        assert(text::is_first_place(x, part, i));
    }
}

/// The cycles that a cycle stands for: one more name goes at the end of each, or
/// of two copies of each if it is that of a merged definition, of which the first
/// copy gets the first name and the second copy the second one.
pub proof fn law_combinations(cycle: Seq<Str>, x: Str, k: int)
    requires
        0 <= k < cycle_text::combinations(cycle).len(),
    ensures
        ({
            let cs = cycle_text::combinations(cycle);
            let new = cycle_text::combinations(cycle.push(x));
            &&& cycle_text::combinations(Seq::empty()) == seq![Seq::<Str>::empty()]
            &&& !text::occurs(x, "__M_"@) ==> new.len() == cs.len() && new[k] == cs[k].push(x)
            &&& text::occurs(x, "__M_"@) ==> {
                &&& new.len() == 2 * cs.len()
                &&& new[2 * k] == cs[k].push(cycle_text::merged_left(x))
                &&& new[2 * k + 1] == cs[k].push(cycle_text::merged_right(x))
            }
        }),
{
    assert(cycle.push(x).drop_last() =~= cycle);
    assert(cycle.push(x).last() == x);
}

/// The cycles that each cycle stands for come one after the other.
pub proof fn law_all_combinations(cycles: Seq<Seq<Str>>, c: Seq<Str>)
    ensures
        cycle_text::all_combinations(Seq::empty()) == Seq::<Seq<Str>>::empty(),
        cycle_text::all_combinations(cycles.push(c)) == cycle_text::all_combinations(cycles)
            + cycle_text::combinations(c),
{
    assert(cycles.push(c).drop_last() =~= cycles);
    assert(cycles.push(c).last() == c);
}

/* Lines */

/// The names that are shown are those without the separator of combinators, in
/// their order.
pub proof fn law_shown_names(cycle: Seq<Str>)
    ensures
        cycle_text::shown_names(cycle) == cycle.filter(|x: Str| !text::occurs(x, "__C"@)),
    decreases cycle.len(),
{
    reveal(Seq::filter);
    if cycle.len() > 0 {
        law_shown_names(cycle.drop_last());
    } else {
        assert(cycle =~= Seq::empty());
    }
}

/// Texts are joined in their order, with the separator between each two.
pub proof fn law_joined(xs: Seq<Str>, x: Str, sep: Str)
    ensures
        text::joined(Seq::empty(), sep) == Seq::<char>::empty(),
        xs.len() == 0 ==> text::joined(xs.push(x), sep) == x,
        xs.len() > 0 ==> text::joined(xs.push(x), sep) == text::joined(xs, sep) + sep + x,
{
    assert(xs.push(x).drop_last() =~= xs);
    assert(xs.push(x).last() == x);
}

/// The line of a cycle shows the names of the functions that are no combinators,
/// and then the first one again.
pub proof fn law_cycle_line(cycle: Seq<Str>)
    requires
        cycle.len() > 0,
    ensures
        cycle_text::cycle_line(cycle) == "  "@ + "* "@ + text::joined(
            cycle.filter(|x: Str| !text::occurs(x, "__C"@)).push(cycle[0]),
            " -> "@,
        ),
{
    law_shown_names(cycle);
}

/// The text shows the lines of the first five of the cycles that the given ones
/// stand for, one below the other, and how many are given beyond five.
pub proof fn law_shown_cycles(cycles: Seq<Seq<Str>>)
    ensures
        ({
            let all = cycle_text::all_combinations(cycles);
            let lines = Seq::new(all.len(), |i: int| cycle_text::cycle_line(all[i]));
            let shown = if lines.len() <= 5 {
                lines
            } else {
                lines.take(5)
            };
            let tail = if cycles.len() <= 5 {
                Seq::<char>::empty()
            } else {
                "\n"@ + "  "@ + "and "@ + name::decimal((cycles.len() - 5) as nat)
                    + " other cycles..."@
            };
            cycle_text::shown_cycles(cycles) == text::joined(shown, "\n"@) + tail
        }),
{
    let all = cycle_text::all_combinations(cycles);
    let lines = Seq::new(all.len(), |i: int| cycle_text::cycle_line(all[i]));
    let shown = if lines.len() <= 5 {
        lines
    } else {
        lines.take(5)
    };
    let n = if all.len() < 5 {
        all.len()
    } else {
        5
    };
    assert(Seq::new(n, |i: int| cycle_text::cycle_line(all[i])) =~= shown);
}

/* The graph */

/// The active references of each kind of tree, from left to right.
pub proof fn law_active_refs_in_order(a: Tr, b: Tr, n: Str)
    ensures
        mutual_recursion::active_refs(Tr::Ref(n)) == seq![n],
        mutual_recursion::active_refs(Tr::Con(Box::new(a), Box::new(b)))
            == mutual_recursion::active_refs(b),
        mutual_recursion::active_refs(Tr::Dup(Box::new(a), Box::new(b)))
            == mutual_recursion::active_refs(a) + mutual_recursion::active_refs(b),
        mutual_recursion::active_refs(Tr::Opr(Box::new(a), Box::new(b)))
            == mutual_recursion::active_refs(a) + mutual_recursion::active_refs(b),
        mutual_recursion::active_refs(Tr::Swi(Box::new(a), Box::new(b)))
            == mutual_recursion::active_refs(a) + mutual_recursion::active_refs(b),
        mutual_recursion::active_refs(Tr::Var(n)).len() == 0,
        mutual_recursion::active_refs(Tr::Era).len() == 0,
        forall|v: u32| (#[trigger] mutual_recursion::active_refs(Tr::Num(v))).len() == 0,
{
}

/// The references of redexes come one redex after the other, the first side
/// before the second one.
pub proof fn law_redex_refs_in_order(rs: Seq<Redex>, r: Redex)
    ensures
        mutual_recursion::redex_refs(Seq::empty()) == Seq::<Str>::empty(),
        mutual_recursion::redex_refs(rs.push(r)) == mutual_recursion::redex_refs(rs) + match r.a {
            Tr::Ref(n) => seq![n],
            _ => Seq::empty(),
        } + match r.b {
            Tr::Ref(n) => seq![n],
            _ => Seq::empty(),
        },
{
    assert(rs.push(r).drop_last() =~= rs);
    assert(rs.push(r).last() == r);
}

/// Adding a dependency puts the function and then the dependency at the end of the
/// graph, unless they are in it, and the dependency at the end of those of the
/// function, unless it is one of them. The other functions stay as they are.
pub proof fn law_added(g: Gr, x: Str, y: Str, z: Str)
    requires
        mutual_recursion::is_graph(g),
    ensures
        ({
            let new = mutual_recursion::added(g, x, y);
            let ks = indexed::keys(g);
            let ks1 = if ks.contains(x) {
                ks
            } else {
                ks.push(x)
            };
            let ds = mutual_recursion::deps_list(g, x);
            &&& indexed::keys(new) == if ks1.contains(y) {
                ks1
            } else {
                ks1.push(y)
            }
            &&& mutual_recursion::deps_list(new, x) == if ds.contains(y) {
                ds
            } else {
                ds.push(y)
            }
            &&& z != x ==> mutual_recursion::deps_list(new, z) == mutual_recursion::deps_list(g, z)
        }),
{
    let ks = indexed::keys(g);
    let mid = mutual_recursion::with_dep(g, x, y);
    let new = mutual_recursion::added(g, x, y);
    let p = ks.index_of(x);
    let ds = mutual_recursion::deps_list(g, x);
    mutual_recursion::lemma_keys(g, x, mutual_recursion::inserted(g[p].1, y));
    mutual_recursion::lemma_keys(g, x, seq![y]);
    mutual_recursion::lemma_keys(mid, y, Seq::empty());
    mutual_recursion::lemma_added(g, x, y);
    let ks1 = indexed::keys(mid);
    assert(ks1 == if ks.contains(x) {
        ks
    } else {
        ks.push(x)
    });
    assert(ks1.no_duplicates());
    lemma_dep_of(g, mid, x, y, x);
    lemma_dep_of(g, mid, x, y, z);
    lemma_key_of(mid, new, y, x);
    lemma_key_of(mid, new, y, z);
    if !ks.contains(x) {
        assert(ds =~= Seq::empty());
        assert(seq![y] =~= ds.push(y));
    }
}

proof fn lemma_dep_of(g: Gr, mid: Gr, x: Str, y: Str, z: Str)
    requires
        mutual_recursion::is_graph(g),
        mid == mutual_recursion::with_dep(g, x, y),
    ensures
        indexed::keys(mid).no_duplicates(),
        mutual_recursion::deps_list(mid, z) == if z == x {
            if indexed::keys(g).contains(x) {
                mutual_recursion::inserted(mutual_recursion::deps_list(g, x), y)
            } else {
                seq![y]
            }
        } else {
            mutual_recursion::deps_list(g, z)
        },
{
    let ks = indexed::keys(g);
    let p = ks.index_of(x);
    mutual_recursion::lemma_keys(g, x, mutual_recursion::inserted(g[p].1, y));
    mutual_recursion::lemma_keys(g, x, seq![y]);
    let ms = indexed::keys(mid);
    if ks.contains(x) {
        assert(ms == ks);
        if ks.contains(z) {
            assert(ks[ks.index_of(z)] == z);
        }
    } else {
        assert(ms == ks.push(x));
        mutual_recursion::lemma_contains_push(ks, x, z);
        assert(ms.no_duplicates()) by {
            assert forall|i: int, j: int| 0 <= i < ms.len() && 0 <= j < ms.len() && i != j implies ms[i]
                != ms[j] by {
                if i == ks.len() {
                    assert(ks.contains(ks[j]));
                } else if j == ks.len() {
                    assert(ks.contains(ks[i]));
                }
            }
        }
        lemma_index_push(ks, x, z);
    }
}

proof fn lemma_key_of(mid: Gr, new: Gr, y: Str, z: Str)
    requires
        indexed::keys(mid).no_duplicates(),
        new == mutual_recursion::with_key(mid, y),
    ensures
        mutual_recursion::deps_list(new, z) == mutual_recursion::deps_list(mid, z),
{
    let ks = indexed::keys(mid);
    mutual_recursion::lemma_keys(mid, y, Seq::empty());
    if !ks.contains(y) {
        mutual_recursion::lemma_contains_push(ks, y, z);
        lemma_index_push(ks, y, z);
    }
}

proof fn lemma_index_push(ks: Seq<Str>, x: Str, z: Str)
    requires
        ks.no_duplicates(),
        !ks.contains(x),
    ensures
        ks.contains(z) ==> ks.push(x).index_of(z) == ks.index_of(z),
        ks.push(x).index_of(x) == ks.len(),
{
    let ms = ks.push(x);
    assert(ms[ks.len() as int] == x);
    assert(ms.contains(x));
    let i = ms.index_of(x);
    if i < ks.len() {
        assert(ks[i] == x);
        assert(ks.contains(x));
    }
    if ks.contains(z) {
        let a = ks.index_of(z);
        assert(ks[a] == z);
        assert(ms[a] == z);
        assert(ms.contains(z));
        let b = ms.index_of(z);
        if b < ks.len() {
            assert(ks[b] == z);
        } else {
            assert(z == x);
        }
    }
}

/// The graph of a program has the dependencies of its functions in the order of
/// their names: for each those of the root and then those of the redexes, one
/// after the other.
pub proof fn law_graph_in_order(bk: Map<Str, Nt>, names: Seq<Str>, x: Str, ys: Seq<Str>, y: Str)
    ensures
        mutual_recursion::graph_of(bk) == mutual_recursion::graph_of_names(
            bk,
            name::in_order(bk.dom()),
        ),
        mutual_recursion::graph_of_names(bk, Seq::empty()) == Seq::<(Str, Seq<Str>)>::empty(),
        mutual_recursion::graph_of_names(bk, names.push(x)) == mutual_recursion::added_all(
            mutual_recursion::graph_of_names(bk, names),
            x,
            mutual_recursion::active_refs(bk[x].root) + mutual_recursion::redex_refs(bk[x].rbag),
        ),
        forall|g: Gr| #[trigger]
            mutual_recursion::added_all(g, x, ys.push(y)) == mutual_recursion::added(
                mutual_recursion::added_all(g, x, ys),
                x,
                y,
            ),
        forall|g: Gr| #[trigger] mutual_recursion::added_all(g, x, Seq::empty()) == g,
{
    assert(names.push(x).drop_last() =~= names);
    assert(names.push(x).last() == x);
    assert(ys.push(y).drop_last() =~= ys);
    assert(ys.push(y).last() == y);
}

} // verus!
