//! The text that shows cycles of functions.

use crate::diagnostics::ERR_INDENT;
use crate::fun::transform::float_combinators::NAME_SEP;
use crate::hvm::mutual_recursion::Ref;
use crate::name;
use crate::name::Str;
use crate::text;
use vstd::prelude::*;

verus! {

/// What stands between the names of two definitions that were merged.
pub const MERGE_SEPARATOR: &'static str = "__M_";

/// How many cycles are shown.
pub const MAX_SHOWN: usize = 5;

/// The first place of a text where a part stands that occurs in it.
pub open spec fn first_place(s: Str, part: Str) -> int {
    choose|i: int| text::is_first_place(s, part, i)
}

/// The name of the first of two merged definitions.
pub open spec fn merged_left(x: Str) -> Str {
    x.take(first_place(x, MERGE_SEPARATOR@))
}

/// The name of the second of two merged definitions.
pub open spec fn merged_right(x: Str) -> Str {
    x.skip(first_place(x, MERGE_SEPARATOR@) + MERGE_SEPARATOR@.len())
}

/// The lists with a name at the end of each, or with the two names of a merged
/// definition at the end of two copies of each.
pub open spec fn extended(cs: Seq<Seq<Str>>, x: Str) -> Seq<Seq<Str>> {
    if text::occurs(x, MERGE_SEPARATOR@) {
        Seq::new(
            2 * cs.len(),
            |k: int|
                cs[k / 2].push(
                    if k % 2 == 0 {
                        merged_left(x)
                    } else {
                        merged_right(x)
                    },
                ),
        )
    } else {
        Seq::new(cs.len(), |k: int| cs[k].push(x))
    }
}

/// The cycles of definitions before they were merged.
pub open spec fn combinations(cycle: Seq<Str>) -> Seq<Seq<Str>>
    decreases cycle.len(),
{
    if cycle.len() == 0 {
        seq![Seq::empty()]
    } else {
        extended(combinations(cycle.drop_last()), cycle.last())
    }
}

/// The combinations of each cycle, one after the other.
pub open spec fn all_combinations(cycles: Seq<Seq<Str>>) -> Seq<Seq<Str>>
    decreases cycles.len(),
{
    if cycles.len() == 0 {
        Seq::empty()
    } else {
        all_combinations(cycles.drop_last()) + combinations(cycles.last())
    }
}

/// The names that are not those of combinators.
pub open spec fn shown_names(cycle: Seq<Str>) -> Seq<Str>
    decreases cycle.len(),
{
    if cycle.len() == 0 {
        Seq::empty()
    } else if text::occurs(cycle.last(), NAME_SEP@) {
        shown_names(cycle.drop_last())
    } else {
        shown_names(cycle.drop_last()).push(cycle.last())
    }
}

/// The line of a cycle: its names, and the first one again.
pub open spec fn cycle_line(cycle: Seq<Str>) -> Str {
    let names = if cycle.len() > 0 {
        shown_names(cycle).push(cycle[0])
    } else {
        shown_names(cycle)
    };
    ERR_INDENT@ + "* "@ + text::joined(names, " -> "@)
}

/// The line about the cycles that are not shown.
pub open spec fn cycles_tail(n: nat) -> Str {
    if n > MAX_SHOWN {
        "\n"@ + ERR_INDENT@ + "and "@ + name::decimal((n - MAX_SHOWN) as nat)
            + " other cycles..."@
    } else {
        Seq::empty()
    }
}

/// The lines of the first cycles, and how many others there are.
pub open spec fn shown_cycles(cycles: Seq<Seq<Str>>) -> Str {
    let all = all_combinations(cycles);
    let n = if all.len() < MAX_SHOWN {
        all.len()
    } else {
        MAX_SHOWN as nat
    };
    text::joined(Seq::new(n, |i: int| cycle_line(all[i])), "\n"@) + cycles_tail(cycles.len())
}

fn clone_refs(xs: &Vec<Ref>) -> (r: Vec<Ref>)
    ensures
        text::texts(r@) == text::texts(xs@),
{
    let n: usize = xs.len();
    let mut r: Vec<Ref> = Vec::new();
    let mut i: usize = 0;
    while i < n
        invariant
            i <= n,
            n == xs@.len(),
            r@.len() == i,
            forall|j: int| 0 <= j < i ==> (#[trigger] r@[j])@ == xs@[j]@,
        decreases n - i,
    {
        r.push(xs[i].clone());
        i += 1;
    }
    assert(text::texts(r@) =~= text::texts(xs@));
    r
}

/// The list with a name at the end.
fn with_ref(xs: &Vec<Ref>, x: &Ref) -> (r: Vec<Ref>)
    ensures
        text::texts(r@) == text::texts(xs@).push(x@),
{
    let mut r = clone_refs(xs);
    let ghost before = text::texts(r@);
    r.push(x.clone());
    assert(text::texts(r@) =~= before.push(x@));
    r
}

/// The two names of a merged definition.
fn split_merged(x: &Ref) -> (r: Option<(Ref, Ref)>)
    ensures
        match r {
            Some((left, right)) => text::occurs(x@, MERGE_SEPARATOR@) && left@ == merged_left(x@)
                && right@ == merged_right(x@),
            None => !text::occurs(x@, MERGE_SEPARATOR@),
        },
{
    let cs = text::to_chars(x.as_str());
    let sep = text::to_chars(MERGE_SEPARATOR);
    match text::find(&cs, &sep) {
        Some(i) => {
            proof {
                let p = first_place(x@, MERGE_SEPARATOR@);
                assert(text::is_first_place(x@, MERGE_SEPARATOR@, p));
                assert(p == i) by {
                    if p < i {
                        assert(!text::occurs_at(x@, MERGE_SEPARATOR@, p));
                    }
                    if i < p {
                        assert(!text::occurs_at(x@, MERGE_SEPARATOR@, i as int));
                    }
                }
                assert(x@.subrange(0, p) =~= merged_left(x@));
                assert(x@.subrange(p + MERGE_SEPARATOR@.len(), x@.len() as int) =~= merged_right(
                    x@,
                ));
            }
            let end: usize = cs.len();
            let left = text::from_chars(&cs, 0, i);
            let right = text::from_chars(&cs, i + sep.len(), end);
            Some((left, right))
        },
        None => None,
    }
}

/// The cycles of definitions that a cycle of merged ones stands for.
pub fn combinations_from_merges(cycle: &Vec<Ref>) -> (r: Vec<Vec<Ref>>)
    ensures
        text::lists(r@) == combinations(text::texts(cycle@)),
{
    let ghost c = text::texts(cycle@);
    let mut combinations_so_far: Vec<Vec<Ref>> = Vec::new();
    combinations_so_far.push(Vec::new());
    let n: usize = cycle.len();
    let mut i: usize = 0;
    proof {
        assert(c.take(0) =~= Seq::empty());
        assert(text::texts(combinations_so_far@[0]@) =~= Seq::empty());
        assert(text::lists(combinations_so_far@) =~= seq![Seq::empty()]);
    }
    while i < n
        invariant
            i <= n,
            n == cycle@.len(),
            c == text::texts(cycle@),
            text::lists(combinations_so_far@) == combinations(c.take(i as int)),
        decreases n - i,
    {
        let x = &cycle[i];
        let ghost before = text::lists(combinations_so_far@);
        proof {
            assert(c.take(i + 1).drop_last() =~= c.take(i as int));
            assert(c.take(i + 1).last() == x@);
        }
        let mut next: Vec<Vec<Ref>> = Vec::new();
        let m: usize = combinations_so_far.len();
        let mut k: usize = 0;
        match split_merged(x) {
            Some((left, right)) => {
                while k < m
                    invariant
                        k <= m,
                        m == combinations_so_far@.len(),
                        before == text::lists(combinations_so_far@),
                        next@.len() == 2 * k,
                        left@ == merged_left(x@),
                        right@ == merged_right(x@),
                        forall|l: int|
                            0 <= l < next@.len() ==> text::texts((#[trigger] next@[l])@)
                                == before[l / 2].push(
                                if l % 2 == 0 {
                                    merged_left(x@)
                                } else {
                                    merged_right(x@)
                                },
                            ),
                    decreases m - k,
                {
                    assert(before[k as int] == text::texts(combinations_so_far@[k as int]@));
                    next.push(with_ref(&combinations_so_far[k], &left));
                    next.push(with_ref(&combinations_so_far[k], &right));
                    k += 1;
                }
            },
            None => {
                while k < m
                    invariant
                        k <= m,
                        m == combinations_so_far@.len(),
                        before == text::lists(combinations_so_far@),
                        next@.len() == k,
                        forall|l: int|
                            0 <= l < next@.len() ==> text::texts((#[trigger] next@[l])@)
                                == before[l].push(x@),
                    decreases m - k,
                {
                    assert(before[k as int] == text::texts(combinations_so_far@[k as int]@));
                    next.push(with_ref(&combinations_so_far[k], x));
                    k += 1;
                }
            },
        }
        assert(text::lists(next@) =~= extended(before, x@));
        combinations_so_far = next;
        i += 1;
    }
    assert(c.take(n as int) =~= c);
    combinations_so_far
}

/// Whether a name is one of a combinator.
fn is_combinator_name(x: &Ref) -> (r: bool)
    ensures
        r == text::occurs(x@, NAME_SEP@),
{
    let cs = text::to_chars(x.as_str());
    let sep = text::to_chars(NAME_SEP);
    match text::find(&cs, &sep) {
        Some(i) => {
            assert(text::occurs_at(x@, NAME_SEP@, i as int));
            true
        },
        None => false,
    }
}

/// The line of a cycle.
fn show_cycle(cycle: &Vec<Ref>) -> (r: String)
    ensures
        r@ == cycle_line(text::texts(cycle@)),
{
    let ghost c = text::texts(cycle@);
    let n: usize = cycle.len();
    let mut names: Vec<Ref> = Vec::new();
    let mut i: usize = 0;
    proof {
        assert(c.take(0) =~= Seq::empty());
        assert(text::texts(names@) =~= Seq::empty());
    }
    while i < n
        invariant
            i <= n,
            n == cycle@.len(),
            c == text::texts(cycle@),
            text::texts(names@) == shown_names(c.take(i as int)),
        decreases n - i,
    {
        let ghost before = text::texts(names@);
        proof {
            assert(c.take(i + 1).drop_last() =~= c.take(i as int));
            assert(c.take(i + 1).last() == cycle@[i as int]@);
        }
        if !is_combinator_name(&cycle[i]) {
            names.push(cycle[i].clone());
            assert(text::texts(names@) =~= before.push(cycle@[i as int]@));
        }
        i += 1;
    }
    assert(c.take(n as int) =~= c);
    if n > 0 {
        let ghost before = text::texts(names@);
        names.push(cycle[0].clone());
        assert(text::texts(names@) =~= before.push(c[0]));
    }
    let mut r = String::new();
    r.append(ERR_INDENT);
    r.append("* ");
    let line = text::join(&names, " -> ");
    r.append(line.as_str());
    assert(r@ =~= cycle_line(c));
    r
}

/// The text of cycles: a line for each of the first ones, and how many others
/// there are.
pub fn show_cycles(cycles: &Vec<Vec<Ref>>) -> (r: String)
    ensures
        r@ == shown_cycles(text::lists(cycles@)),
{
    let ghost cs = text::lists(cycles@);
    let n: usize = cycles.len();
    let mut all: Vec<Vec<Ref>> = Vec::new();
    let mut i: usize = 0;
    proof {
        assert(cs.take(0) =~= Seq::empty());
        assert(text::lists(all@) =~= Seq::empty());
    }
    while i < n
        invariant
            i <= n,
            n == cycles@.len(),
            cs == text::lists(cycles@),
            text::lists(all@) == all_combinations(cs.take(i as int)),
        decreases n - i,
    {
        let ghost before = all@;
        let mut more = combinations_from_merges(&cycles[i]);
        let ghost new = more@;
        all.append(&mut more);
        proof {
            assert(cs.take(i + 1).drop_last() =~= cs.take(i as int));
            assert(cs.take(i + 1).last() == text::texts(cycles@[i as int]@));
            assert(text::lists(all@) =~= text::lists(before) + text::lists(new));
        }
        i += 1;
    }
    assert(cs.take(n as int) =~= cs);
    let mut lines: Vec<String> = Vec::new();
    let mut k: usize = 0;
    while k < all.len() && k < MAX_SHOWN
        invariant
            k <= all@.len(),
            k <= MAX_SHOWN,
            lines@.len() == k,
            forall|l: int|
                0 <= l < k ==> (#[trigger] lines@[l])@ == cycle_line(text::texts(all@[l]@)),
        decreases all@.len() - k,
    {
        lines.push(show_cycle(&all[k]));
        k += 1;
    }
    let mut r = text::join(&lines, "\n");
    let ghost body = r@;
    proof {
        let a = all_combinations(cs);
        assert(a == text::lists(all@));
        assert(text::texts(lines@) =~= Seq::new(k as nat, |l: int| cycle_line(a[l])));
    }
    if n > MAX_SHOWN {
        r.append("\n");
        r.append(ERR_INDENT);
        r.append("and ");
        let number = name::to_decimal(n - MAX_SHOWN);
        r.append(number.as_str());
        r.append(" other cycles...");
    }
    assert(r@ =~= body + cycles_tail(n as nat));
    r
}

/// A cycle without merged definitions stands for itself alone.
pub proof fn law_no_merges(cycle: Seq<Str>)
    requires
        forall|i: int| 0 <= i < cycle.len() ==> !text::occurs(#[trigger] cycle[i], MERGE_SEPARATOR@),
    ensures
        combinations(cycle) == seq![cycle],
    decreases cycle.len(),
{
    if cycle.len() > 0 {
        let init = cycle.drop_last();
        assert forall|i: int| 0 <= i < init.len() implies !text::occurs(
            #[trigger] init[i],
            MERGE_SEPARATOR@,
        ) by {
            assert(init[i] == cycle[i]);
        }
        law_no_merges(init);
        assert(!text::occurs(cycle[cycle.len() - 1], MERGE_SEPARATOR@));
        assert(init.push(cycle.last()) =~= cycle);
        assert(combinations(cycle) =~= seq![cycle]);
    } else {
        assert(cycle =~= Seq::empty());
    }
}

/// The number of merged definitions in a cycle.
pub open spec fn merged_count(cycle: Seq<Str>) -> nat
    decreases cycle.len(),
{
    if cycle.len() == 0 {
        0
    } else if text::occurs(cycle.last(), MERGE_SEPARATOR@) {
        merged_count(cycle.drop_last()) + 1
    } else {
        merged_count(cycle.drop_last())
    }
}

/// Each merged definition of a cycle doubles the cycles that it stands for, and
/// they are as long as the cycle.
pub proof fn law_combinations_count(cycle: Seq<Str>)
    ensures
        combinations(cycle).len() == vstd::arithmetic::power2::pow2(merged_count(cycle)),
        forall|k: int|
            0 <= k < combinations(cycle).len() ==> (#[trigger] combinations(cycle)[k]).len()
                == cycle.len(),
    decreases cycle.len(),
{
    if cycle.len() == 0 {
        vstd::arithmetic::power2::lemma2_to64();
    } else {
        let init = cycle.drop_last();
        law_combinations_count(init);
        vstd::arithmetic::power2::lemma_pow2_unfold(merged_count(init) + 1);
    }
}

} // verus!
