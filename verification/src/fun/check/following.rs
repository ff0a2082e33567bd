//! Following the variables that a table replaces.

use crate::fun::ty;
use crate::fun::ty::{Head, Ty};
use crate::name::Str;
use vstd::prelude::*;

verus! {

/// Only the given variables of the type are replaced.
pub open spec fn is_followed(t: Ty, table: Map<Str, Ty>, given: Set<Str>) -> bool {
    forall|v: Str| #[trigger] ty::fv(t).contains(v) && table.contains_key(v) ==> given.contains(v)
}

/// The type with the variables followed that the table replaces, all but the
/// given ones, through at most so many entries one after the other.
pub open spec fn followed(t: Ty, table: Map<Str, Ty>, given: Set<Str>, steps: nat) -> Ty
    decreases steps, t,
{
    match t.head {
        Head::Var(x) => if steps > 0 && table.contains_key(x) && !given.contains(x) {
            followed(table[x], table, given, (steps - 1) as nat)
        } else {
            t
        },
        _ => Ty {
            head: t.head,
            kids: Seq::new(
                t.kids.len(),
                |i: int|
                    if 0 <= i < t.kids.len() {
                        followed(t.kids[i], table, given, steps)
                    } else {
                        arbitrary()
                    },
            ),
        },
    }
}

/// The type that is left when no variable can be followed any more.
pub open spec fn is_end(t: Ty, table: Map<Str, Ty>, given: Set<Str>, r: Ty) -> bool {
    is_followed(r, table, given) && exists|steps: nat| r == #[trigger] followed(t, table, given, steps)
}

/// The type holds no replaced variable of this rank or above.
pub open spec fn ranked(t: Ty, table: Map<Str, Ty>, rank: Map<Str, nat>, bound: nat) -> bool {
    forall|y: Str| #[trigger] ty::fv(t).contains(y) && table.contains_key(y) ==> rank[y] < bound
}

/// Following an entry leads to lower ranks.
pub open spec fn is_ranked(table: Map<Str, Ty>, rank: Map<Str, nat>, top: nat) -> bool {
    forall|x: Str| #[trigger]
        table.contains_key(x) ==> rank[x] < top && ranked(table[x], table, rank, rank[x])
}

proof fn lemma_ranked_kid(t: Ty, table: Map<Str, Ty>, rank: Map<Str, nat>, bound: nat, i: int)
    requires
        ranked(t, table, rank, bound),
        !(t.head is Var),
        0 <= i < t.kids.len(),
    ensures
        ranked(t.kids[i], table, rank, bound),
{
    assert forall|y: Str| #[trigger] ty::fv(t.kids[i]).contains(y) && table.contains_key(y) implies rank[y]
        < bound by {
        assert(ty::fv(t).contains(y));
    }
}

/// Enough steps lead to the end.
pub proof fn lemma_followed_ends(
    t: Ty,
    table: Map<Str, Ty>,
    given: Set<Str>,
    rank: Map<Str, nat>,
    top: nat,
    bound: nat,
    steps: nat,
)
    requires
        is_ranked(table, rank, top),
        ranked(t, table, rank, bound),
        bound <= steps,
    ensures
        is_followed(followed(t, table, given, steps), table, given),
    decreases steps, t,
{
    let r = followed(t, table, given, steps);
    if let Head::Var(x) = t.head {
        assert(ty::fv(t).contains(x));
        if table.contains_key(x) && !given.contains(x) {
            lemma_followed_ends(
                table[x],
                table,
                given,
                rank,
                top,
                rank[x],
                (steps - 1) as nat,
            );
        }
    } else {
        assert forall|v: Str| #[trigger] ty::fv(r).contains(v) && table.contains_key(v) implies given.contains(
            v,
        ) by {
            let i = choose|i: int| 0 <= i < r.kids.len() && ty::fv(#[trigger] r.kids[i]).contains(v);
            lemma_ranked_kid(t, table, rank, bound, i);
            lemma_followed_ends(t.kids[i], table, given, rank, top, bound, steps);
        }
    }
}

/// More steps change nothing at the end.
pub proof fn lemma_followed_more(
    t: Ty,
    table: Map<Str, Ty>,
    given: Set<Str>,
    steps: nat,
    more: nat,
)
    requires
        is_followed(followed(t, table, given, steps), table, given),
        steps <= more,
    ensures
        followed(t, table, given, more) == followed(t, table, given, steps),
    decreases steps, t,
{
    let r = followed(t, table, given, steps);
    if let Head::Var(x) = t.head {
        if table.contains_key(x) && !given.contains(x) {
            if steps == 0 {
                assert(ty::fv(r).contains(x));
            } else {
                lemma_followed_more(
                    table[x],
                    table,
                    given,
                    (steps - 1) as nat,
                    (more - 1) as nat,
                );
            }
        }
    } else {
        assert forall|i: int| 0 <= i < t.kids.len() implies followed(t.kids[i], table, given, more)
            == followed(#[trigger] t.kids[i], table, given, steps) by {
            assert forall|v: Str| #[trigger] ty::fv(r.kids[i]).contains(v) && table.contains_key(v) implies given.contains(
                v,
            ) by {
                assert(ty::fv(r).contains(v));
            }
            assert(r.kids[i] == followed(t.kids[i], table, given, steps));
            lemma_followed_more(t.kids[i], table, given, steps, more);
        }
        assert(followed(t, table, given, more).kids =~= r.kids);
    }
}

/// There is one end, so that the table and the given variables determine it.
pub proof fn law_one_end(t: Ty, table: Map<Str, Ty>, given: Set<Str>, a: Ty, b: Ty)
    requires
        is_end(t, table, given, a),
        is_end(t, table, given, b),
    ensures
        a == b,
{
    let m = choose|m: nat| a == #[trigger] followed(t, table, given, m);
    let n = choose|n: nat| b == #[trigger] followed(t, table, given, n);
    if m <= n {
        lemma_followed_more(t, table, given, m, n);
    } else {
        lemma_followed_more(t, table, given, n, m);
    }
}

/// At the end there is nothing to follow.
pub proof fn lemma_followed_same(t: Ty, table: Map<Str, Ty>, given: Set<Str>, steps: nat)
    requires
        is_followed(t, table, given),
    ensures
        followed(t, table, given, steps) == t,
    decreases t,
{
    if let Head::Var(x) = t.head {
        assert(ty::fv(t).contains(x));
    } else {
        assert forall|i: int| 0 <= i < t.kids.len() implies followed(
            #[trigger] t.kids[i],
            table,
            given,
            steps,
        ) == t.kids[i] by {
            assert forall|v: Str| #[trigger] ty::fv(t.kids[i]).contains(v) && table.contains_key(v) implies given.contains(
                v,
            ) by {
                assert(ty::fv(t).contains(v));
            }
            lemma_followed_same(t.kids[i], table, given, steps);
        }
        assert(followed(t, table, given, steps).kids =~= t.kids);
    }
}

/// The type that is left at the end, if there is one.
pub open spec fn end(t: Ty, table: Map<Str, Ty>, given: Set<Str>) -> Ty {
    choose|r: Ty| is_end(t, table, given, r)
}

pub proof fn lemma_end(t: Ty, table: Map<Str, Ty>, given: Set<Str>, r: Ty)
    requires
        is_end(t, table, given, r),
    ensures
        end(t, table, given) == r,
{
    law_one_end(t, table, given, r, end(t, table, given));
}

/* Variables on the way */

/// The variable is followed on the way to the end, through at most so many
/// entries before it.
pub open spec fn is_met(t: Ty, table: Map<Str, Ty>, given: Set<Str>, x: Str, steps: nat) -> bool
    decreases steps, t,
{
    match t.head {
        Head::Var(y) => {
            &&& table.contains_key(y)
            &&& !given.contains(y)
            &&& y == x || steps > 0 && is_met(table[y], table, given, x, (steps - 1) as nat)
        },
        _ => exists|i: int|
            0 <= i < t.kids.len() && is_met(#[trigger] t.kids[i], table, given, x, steps),
    }
}

/// The variables that are followed on the way to the end.
pub open spec fn reached(t: Ty, table: Map<Str, Ty>, given: Set<Str>) -> Set<Str> {
    Set::new(|x: Str| exists|steps: nat| #[trigger] is_met(t, table, given, x, steps))
}

/// The variables that are followed on the way to the ends of the first types.
pub open spec fn all_reached(ts: Seq<Ty>, n: int, table: Map<Str, Ty>, given: Set<Str>) -> Set<Str> {
    Set::new(
        |x: Str|
            exists|i: int| 0 <= i < n && reached(#[trigger] ts[i], table, given).contains(x),
    )
}

proof fn lemma_met_more(
    t: Ty,
    table: Map<Str, Ty>,
    given: Set<Str>,
    x: Str,
    steps: nat,
    more: nat,
)
    requires
        is_met(t, table, given, x, steps),
        steps <= more,
    ensures
        is_met(t, table, given, x, more),
    decreases steps, t,
{
    if let Head::Var(y) = t.head {
        if y != x {
            lemma_met_more(table[y], table, given, x, (steps - 1) as nat, (more - 1) as nat);
        }
    } else {
        let i = choose|i: int|
            0 <= i < t.kids.len() && is_met(#[trigger] t.kids[i], table, given, x, steps);
        lemma_met_more(t.kids[i], table, given, x, steps, more);
    }
}

/// What is met behind a variable that is met.
proof fn lemma_met_behind(
    t: Ty,
    table: Map<Str, Ty>,
    given: Set<Str>,
    z: Str,
    m: nat,
    x: Str,
    n: nat,
)
    requires
        is_met(t, table, given, z, m),
        is_met(table[z], table, given, x, n),
    ensures
        is_met(t, table, given, x, m + n + 1),
    decreases m, t,
{
    if let Head::Var(y) = t.head {
        if y == z {
            lemma_met_more(table[z], table, given, x, n, m + n);
        } else {
            lemma_met_behind(table[y], table, given, z, (m - 1) as nat, x, n);
        }
    } else {
        let i = choose|i: int|
            0 <= i < t.kids.len() && is_met(#[trigger] t.kids[i], table, given, z, m);
        lemma_met_behind(t.kids[i], table, given, z, m, x, n);
    }
}

/// At the end nothing is met.
proof fn lemma_met_none(t: Ty, table: Map<Str, Ty>, given: Set<Str>, x: Str, steps: nat)
    requires
        is_followed(t, table, given),
    ensures
        !is_met(t, table, given, x, steps),
    decreases t,
{
    if let Head::Var(y) = t.head {
        assert(ty::fv(t).contains(y));
    } else if is_met(t, table, given, x, steps) {
        let i = choose|i: int|
            0 <= i < t.kids.len() && is_met(#[trigger] t.kids[i], table, given, x, steps);
        assert forall|v: Str| #[trigger] ty::fv(t.kids[i]).contains(v) && table.contains_key(v) implies given.contains(
            v,
        ) by {
            assert(ty::fv(t).contains(v));
        }
        lemma_met_none(t.kids[i], table, given, x, steps);
    }
}

/* Path compression */

/// The table after the variables of a type were followed: each variable on the
/// way then has the type that it leads to.
pub open spec fn compressed(t: Ty, table: Map<Str, Ty>, given: Set<Str>) -> Map<Str, Ty> {
    Map::new(
        |x: Str| table.contains_key(x),
        |x: Str|
            if reached(t, table, given).contains(x) {
                end(table[x], table, given)
            } else {
                table[x]
            },
    )
}

/// These entries of the table are replaced by where they lead.
pub open spec fn is_compressed_at(
    xs: Set<Str>,
    table: Map<Str, Ty>,
    new: Map<Str, Ty>,
    given: Set<Str>,
    top: nat,
) -> bool {
    &&& new.dom() == table.dom()
    &&& forall|x: Str| #[trigger]
        table.contains_key(x) ==> new[x] == if xs.contains(x) {
            followed(table[x], table, given, top)
        } else {
            table[x]
        }
}

/// Some entries of the first table are replaced by where they lead.
pub open spec fn is_compressed(
    table: Map<Str, Ty>,
    new: Map<Str, Ty>,
    given: Set<Str>,
    top: nat,
) -> bool {
    &&& new.dom() == table.dom()
    &&& forall|x: Str| #[trigger]
        table.contains_key(x) ==> new[x] == table[x] || new[x] == followed(
            table[x],
            table,
            given,
            top,
        )
}

/// A compressed table leads to the same types.
pub proof fn lemma_compressed(
    t: Ty,
    table: Map<Str, Ty>,
    new: Map<Str, Ty>,
    given: Set<Str>,
    rank: Map<Str, nat>,
    top: nat,
    bound: nat,
    steps: nat,
)
    requires
        is_ranked(table, rank, top),
        is_compressed(table, new, given, top),
        ranked(t, table, rank, bound),
        bound <= steps,
    ensures
        followed(t, new, given, steps) == followed(t, table, given, steps),
    decreases steps, t,
{
    if let Head::Var(x) = t.head {
        assert(ty::fv(t).contains(x));
        assert(new.dom().contains(x) <==> table.dom().contains(x));
        if table.contains_key(x) && !given.contains(x) {
            let rest = (steps - 1) as nat;
            if new[x] == table[x] {
                lemma_compressed(table[x], table, new, given, rank, top, rank[x], rest);
            } else {
                let r = followed(table[x], table, given, top);
                lemma_followed_ends(table[x], table, given, rank, top, rank[x], top);
                lemma_followed_ends(table[x], table, given, rank, top, rank[x], rest);
                if rest <= top {
                    lemma_followed_more(table[x], table, given, rest, top);
                } else {
                    lemma_followed_more(table[x], table, given, top, rest);
                }
                assert forall|v: Str| #[trigger] ty::fv(r).contains(v) && new.contains_key(v) implies given.contains(
                    v,
                ) by {
                    assert(table.dom().contains(v));
                }
                lemma_followed_same(r, new, given, rest);
            }
        }
    } else {
        assert forall|i: int| 0 <= i < t.kids.len() implies followed(t.kids[i], new, given, steps)
            == followed(#[trigger] t.kids[i], table, given, steps) by {
            lemma_ranked_kid(t, table, rank, bound, i);
            lemma_compressed(t.kids[i], table, new, given, rank, top, bound, steps);
        }
        assert(followed(t, new, given, steps).kids =~= followed(t, table, given, steps).kids);
    }
}

/// What is met in a compressed table is met in the table.
proof fn lemma_met_before(
    t: Ty,
    table: Map<Str, Ty>,
    new: Map<Str, Ty>,
    given: Set<Str>,
    rank: Map<Str, nat>,
    top: nat,
    x: Str,
    steps: nat,
)
    requires
        is_ranked(table, rank, top),
        is_compressed(table, new, given, top),
        is_met(t, new, given, x, steps),
    ensures
        is_met(t, table, given, x, steps),
    decreases steps, t,
{
    if let Head::Var(y) = t.head {
        assert(new.dom().contains(y));
        assert(table.contains_key(y));
        if y != x {
            let rest = (steps - 1) as nat;
            if new[y] == table[y] {
                lemma_met_before(table[y], table, new, given, rank, top, x, rest);
            } else {
                lemma_followed_ends(table[y], table, given, rank, top, rank[y], top);
                assert forall|v: Str| #[trigger] ty::fv(new[y]).contains(v) && new.contains_key(v) implies given.contains(
                    v,
                ) by {
                    assert(new.dom().contains(v));
                }
                lemma_met_none(new[y], new, given, x, rest);
            }
        }
    } else {
        let i = choose|i: int|
            0 <= i < t.kids.len() && is_met(#[trigger] t.kids[i], new, given, x, steps);
        lemma_met_before(t.kids[i], table, new, given, rank, top, x, steps);
    }
}

/// What is met in the table is met in a compressed one, or was met behind an
/// entry that was replaced.
proof fn lemma_met_after(
    t: Ty,
    table: Map<Str, Ty>,
    new: Map<Str, Ty>,
    given: Set<Str>,
    x: Str,
    steps: nat,
)
    requires
        new.dom() == table.dom(),
        is_met(t, table, given, x, steps),
    ensures
        is_met(t, new, given, x, steps) || exists|z: Str| #[trigger]
            table.contains_key(z) && new[z] != table[z] && reached(table[z], table, given).contains(x),
    decreases steps, t,
{
    if let Head::Var(y) = t.head {
        assert(new.dom().contains(y));
        if y != x {
            let rest = (steps - 1) as nat;
            assert(is_met(table[y], table, given, x, rest));
            assert(reached(table[y], table, given).contains(x));
            if new[y] == table[y] {
                lemma_met_after(table[y], table, new, given, x, rest);
            } else {
                assert(table.contains_key(y));
            }
        }
    } else {
        let i = choose|i: int|
            0 <= i < t.kids.len() && is_met(#[trigger] t.kids[i], table, given, x, steps);
        lemma_met_after(t.kids[i], table, new, given, x, steps);
    }
}

pub proof fn lemma_compressed_at(
    xs: Set<Str>,
    table: Map<Str, Ty>,
    new: Map<Str, Ty>,
    given: Set<Str>,
    top: nat,
)
    requires
        is_compressed_at(xs, table, new, given, top),
    ensures
        is_compressed(table, new, given, top),
{
}

/// Following one more type replaces the entries on its way.
pub proof fn lemma_compressed_next(
    ts: Seq<Ty>,
    n: int,
    table: Map<Str, Ty>,
    mid: Map<Str, Ty>,
    new: Map<Str, Ty>,
    given: Set<Str>,
    rank: Map<Str, nat>,
    top: nat,
)
    requires
        0 <= n < ts.len(),
        is_ranked(table, rank, top),
        is_compressed_at(all_reached(ts, n, table, given), table, mid, given, top),
        is_compressed_at(reached(ts[n], mid, given), mid, new, given, top),
    ensures
        is_compressed_at(all_reached(ts, n + 1, table, given), table, new, given, top),
{
    let (a, b) = (all_reached(ts, n, table, given), all_reached(ts, n + 1, table, given));
    let r = reached(ts[n], table, given);
    assert forall|x: Str| b.contains(x) <==> a.contains(x) || r.contains(x) by {
        if a.contains(x) {
            let i = choose|i: int| 0 <= i < n && reached(#[trigger] ts[i], table, given).contains(x);
            assert(reached(ts[i], table, given).contains(x));
        }
        if r.contains(x) {
            assert(reached(ts[n], table, given).contains(x));
        }
    }
    assert forall|x: Str| #[trigger] table.contains_key(x) implies new[x] == if b.contains(x) {
        followed(table[x], table, given, top)
    } else {
        table[x]
    } by {
        assert(mid.dom().contains(x));
        let far = followed(table[x], table, given, top);
        if reached(ts[n], mid, given).contains(x) {
            let steps = choose|steps: nat| #[trigger] is_met(ts[n], mid, given, x, steps);
            lemma_met_before(ts[n], table, mid, given, rank, top, x, steps);
            assert(r.contains(x));
            lemma_followed_ends(table[x], table, given, rank, top, rank[x], top);
            if mid[x] == table[x] {
                lemma_compressed(table[x], table, mid, given, rank, top, rank[x], top);
            } else {
                assert forall|v: Str| #[trigger] ty::fv(far).contains(v) && mid.contains_key(v) implies given.contains(
                    v,
                ) by {
                    assert(mid.dom().contains(v));
                }
                lemma_followed_same(far, mid, given, top);
            }
        } else if !a.contains(x) && r.contains(x) {
            let steps = choose|steps: nat| #[trigger] is_met(ts[n], table, given, x, steps);
            lemma_met_after(ts[n], table, mid, given, x, steps);
            assert(!is_met(ts[n], mid, given, x, steps));
            let z = choose|z: Str| #[trigger]
                table.contains_key(z) && mid[z] != table[z] && reached(table[z], table, given).contains(
                    x,
                );
            assert(a.contains(z));
            let i = choose|i: int| 0 <= i < n && reached(#[trigger] ts[i], table, given).contains(z);
            let p = choose|p: nat| #[trigger] is_met(ts[i], table, given, z, p);
            let q = choose|q: nat| #[trigger] is_met(table[z], table, given, x, q);
            lemma_met_behind(ts[i], table, given, z, p, x, q);
            assert(reached(ts[i], table, given).contains(x));
        }
    }
}

/// Following a variable replaces its entry and those behind it.
pub proof fn lemma_compressed_var(
    t: Ty,
    table: Map<Str, Ty>,
    mid: Map<Str, Ty>,
    given: Set<Str>,
    top: nat,
    x: Str,
)
    requires
        t.head == Head::Var(x),
        table.contains_key(x),
        !given.contains(x),
        is_compressed_at(reached(table[x], table, given), table, mid, given, top),
    ensures
        is_compressed_at(
            reached(t, table, given),
            table,
            mid.insert(x, followed(table[x], table, given, top)),
            given,
            top,
        ),
{
    let new = mid.insert(x, followed(table[x], table, given, top));
    assert(mid.dom().contains(x));
    assert(new.dom() =~= table.dom());
    assert(is_met(t, table, given, x, 0));
    assert forall|y: Str| y != x implies (reached(t, table, given).contains(y) <==> reached(
        table[x],
        table,
        given,
    ).contains(y)) by {
        if reached(t, table, given).contains(y) {
            let n = choose|n: nat| #[trigger] is_met(t, table, given, y, n);
            assert(is_met(table[x], table, given, y, (n - 1) as nat));
        }
        if reached(table[x], table, given).contains(y) {
            let n = choose|n: nat| #[trigger] is_met(table[x], table, given, y, n);
            assert(is_met(t, table, given, y, n + 1));
        }
    }
}

/// A type that leads nowhere replaces nothing.
pub proof fn lemma_compressed_none(t: Ty, table: Map<Str, Ty>, given: Set<Str>, top: nat)
    requires
        is_followed(t, table, given),
    ensures
        is_compressed_at(reached(t, table, given), table, table, given, top),
{
    assert forall|x: Str| !reached(t, table, given).contains(x) by {
        if reached(t, table, given).contains(x) {
            let n = choose|n: nat| #[trigger] is_met(t, table, given, x, n);
            lemma_met_none(t, table, given, x, n);
        }
    }
}

/// The variables on the way of a type are those on the way of the types below.
pub proof fn lemma_reached_kids(t: Ty, table: Map<Str, Ty>, given: Set<Str>)
    requires
        !(t.head is Var),
    ensures
        reached(t, table, given) == all_reached(t.kids, t.kids.len() as int, table, given),
{
    let all = all_reached(t.kids, t.kids.len() as int, table, given);
    assert forall|x: Str| reached(t, table, given).contains(x) <==> all.contains(x) by {
        if reached(t, table, given).contains(x) {
            let n = choose|n: nat| #[trigger] is_met(t, table, given, x, n);
            let i = choose|i: int|
                0 <= i < t.kids.len() && is_met(#[trigger] t.kids[i], table, given, x, n);
            assert(reached(t.kids[i], table, given).contains(x));
        }
        if all.contains(x) {
            let i = choose|i: int|
                0 <= i < t.kids.len() && reached(#[trigger] t.kids[i], table, given).contains(x);
            let n = choose|n: nat| #[trigger] is_met(t.kids[i], table, given, x, n);
            assert(is_met(t, table, given, x, n));
        }
    }
    assert(reached(t, table, given) =~= all);
}

/// Entries that lead to their ends are those of the compressed table.
pub proof fn lemma_compressed_ends(
    t: Ty,
    table: Map<Str, Ty>,
    new: Map<Str, Ty>,
    given: Set<Str>,
    rank: Map<Str, nat>,
    top: nat,
)
    requires
        is_ranked(table, rank, top),
        is_compressed_at(reached(t, table, given), table, new, given, top),
    ensures
        new == compressed(t, table, given),
{
    assert forall|x: Str| #[trigger] table.contains_key(x) implies new[x] == compressed(
        t,
        table,
        given,
    )[x] by {
        let r = followed(table[x], table, given, top);
        lemma_followed_ends(table[x], table, given, rank, top, rank[x], top);
        assert(is_end(table[x], table, given, r));
        lemma_end(table[x], table, given, r);
    }
    assert(new =~= compressed(t, table, given));
}

} // verus!
