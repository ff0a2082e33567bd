//! The definitions that floating combinators adds.

use crate::fun::book::Bk;
use crate::fun::term;
use crate::fun::term::{Dm, Th, Tm};
use crate::fun::transform::facts;
use crate::fun::transform::float_children;
use crate::fun::transform::float_combinators;
use crate::fun::transform::float_combinators::{Env, Float};
use crate::fun::transform::float_laws;
use crate::name;
use crate::name::Str;
use vstd::prelude::*;

verus! {

/* References */

/// How often a term refers to a name.
pub open spec fn ref_count(t: Tm, n: Str) -> nat
    decreases t, 0nat,
{
    (if t.head == Th::Ref(n) {
        1nat
    } else {
        0nat
    }) + ref_counts(t.kids, n)
}

pub open spec fn ref_counts(ts: Seq<Tm>, n: Str) -> nat
    decreases ts, ts.len(),
{
    if ts.len() == 0 {
        0
    } else {
        ref_counts(ts.drop_last(), n) + ref_count(ts.last(), n)
    }
}

proof fn lemma_counts_push(ts: Seq<Tm>, t: Tm, n: Str)
    ensures
        ref_counts(ts.push(t), n) == ref_counts(ts, n) + ref_count(t, n),
{
    assert(ts.push(t).drop_last() =~= ts);
}

proof fn lemma_counts_first(ts: Seq<Tm>, n: Str)
    requires
        ts.len() > 0,
    ensures
        ref_counts(ts, n) == ref_count(ts[0], n) + ref_counts(ts.drop_first(), n),
    decreases ts.len(),
{
    if ts.len() == 1 {
        assert(ts.drop_last() =~= Seq::empty());
        assert(ts.drop_first() =~= Seq::empty());
        assert(ref_counts(ts.drop_last(), n) == 0);
        assert(ref_counts(ts.drop_first(), n) == 0);
    } else {
        lemma_counts_first(ts.drop_last(), n);
        assert(ts.drop_last().drop_first() =~= ts.drop_first().drop_last());
    }
}

proof fn lemma_counts_one(ts: Seq<Tm>, n: Str)
    requires
        ts.len() == 1,
    ensures
        ref_counts(ts, n) == ref_count(ts[0], n),
{
    lemma_counts_first(ts, n);
    assert(ts.drop_first() =~= Seq::empty());
}

proof fn lemma_counts_two(ts: Seq<Tm>, n: Str)
    requires
        ts.len() == 2,
    ensures
        ref_counts(ts, n) == ref_count(ts[0], n) + ref_count(ts[1], n),
{
    lemma_counts_first(ts, n);
    lemma_counts_one(ts.drop_first(), n);
}

/// A clean term refers to no generated name.
proof fn lemma_clean_count(t: Tm, ds: Set<Str>, n: Str)
    requires
        float_laws::is_clean(t, ds),
        float_laws::is_generated(n, ds),
    ensures
        ref_count(t, n) == 0,
    decreases t, 0nat,
{
    assert forall|i: int| 0 <= i < t.kids.len() implies float_laws::is_clean(#[trigger] t.kids[i], ds) by {}
    lemma_clean_counts(t.kids, ds, n);
}

proof fn lemma_clean_counts(ts: Seq<Tm>, ds: Set<Str>, n: Str)
    requires
        forall|i: int| 0 <= i < ts.len() ==> float_laws::is_clean(#[trigger] ts[i], ds),
        float_laws::is_generated(n, ds),
    ensures
        ref_counts(ts, n) == 0,
    decreases ts, ts.len(),
{
    if ts.len() > 0 {
        assert(float_laws::is_clean(ts[ts.len() - 1], ds));
        assert forall|i: int| 0 <= i < ts.drop_last().len() implies float_laws::is_clean(
            #[trigger] ts.drop_last()[i],
            ds,
        ) by {
            assert(ts.drop_last()[i] == ts[i]);
        }
        lemma_clean_counts(ts.drop_last(), ds, n);
        lemma_clean_count(ts.last(), ds, n);
    }
}

proof fn lemma_respine_count(t: Tm, ks: Seq<Tm>, n: Str)
    requires
        ks.len() == float_children::spine(t).len(),
    ensures
        ref_count(float_children::respine(t, ks), n) + ref_counts(float_children::spine(t), n)
            == ref_count(t, n) + ref_counts(ks, n),
    decreases t,
{
    let s = float_children::spine(t);
    if t.head is App && t.kids.len() == 2 {
        assert(s.drop_first() =~= float_children::spine(t.kids[0]));
        lemma_counts_first(s, n);
        lemma_counts_first(ks, n);
        lemma_respine_count(t.kids[0], ks.drop_first(), n);
        lemma_counts_two(t.kids, n);
        lemma_counts_two(float_children::respine(t, ks).kids, n);
    } else {
        lemma_counts_one(s, n);
        lemma_counts_one(ks, n);
    }
}

proof fn lemma_with_float_kids_count(t: Tm, ks: Seq<Tm>, n: Str)
    requires
        ks.len() == float_children::float_kids(t).len(),
    ensures
        ref_count(float_children::with_float_kids(t, ks), n) + ref_counts(
            float_children::float_kids(t),
            n,
        ) == ref_count(t, n) + ref_counts(ks, n),
    decreases t,
{
    match t.head {
        Th::App(_) => {
            if t.kids.len() == 2 {
                lemma_respine_count(t, ks, n);
            }
        },
        Th::Lam(_, _) => {
            if t.kids.len() == 1 {
                lemma_with_float_kids_count(t.kids[0], ks, n);
                lemma_counts_one(t.kids, n);
                lemma_counts_one(float_children::with_float_kids(t, ks).kids, n);
            }
        },
        _ => {},
    }
}

/* Combinators of one definition */

/// The name is that of one of these combinators of a definition.
pub open spec fn is_made(d: Str, first: nat, next: nat, n: Str) -> bool {
    exists|k: nat| first <= k < next && n == #[trigger] float_combinators::combinator_name(d, k)
}

spec fn made(d: Str, first: nat, next: nat, n: Str) -> nat {
    if is_made(d, first, next, n) {
        1
    } else {
        0
    }
}

proof fn lemma_made(d: Str, first: nat, mid: nat, next: nat, n: Str)
    requires
        first <= mid <= next,
    ensures
        made(d, first, next, n) == made(d, first, mid, n) + made(d, mid, next, n),
{
    if is_made(d, first, mid, n) {
        let k = choose|k: nat|
            first <= k < mid && n == #[trigger] float_combinators::combinator_name(d, k);
        assert(first <= k < next);
        if is_made(d, mid, next, n) {
            let j = choose|j: nat|
                mid <= j < next && n == #[trigger] float_combinators::combinator_name(d, j);
            float_laws::law_combinator_names(d, k, d, j);
        }
    } else if is_made(d, mid, next, n) {
        let k = choose|k: nat|
            mid <= k < next && n == #[trigger] float_combinators::combinator_name(d, k);
        assert(first <= k < next);
    } else if is_made(d, first, next, n) {
        let k = choose|k: nat|
            first <= k < next && n == #[trigger] float_combinators::combinator_name(d, k);
        assert(first <= k < mid || mid <= k < next);
    }
}

/// How often the first combinators of a definition refer to a name.
spec fn stored(d: Str, cs: Map<Str, (bool, Dm)>, next: nat, n: Str) -> nat
    decreases next,
{
    if next == 0 {
        0
    } else {
        let k = (next - 1) as nat;
        stored(d, cs, k, n) + ref_count(
            term::body_of(cs[float_combinators::combinator_name(d, k)].1),
            n,
        )
    }
}

/// The definition of a combinator that was extracted.
pub open spec fn is_new_def(env: Env, n: Str, d: Dm) -> bool {
    &&& d == float_combinators::combinator_def(env, n, term::body_of(d))
    &&& facts::is_combinator(term::body_of(d))
    &&& facts::size(term::body_of(d)) > 0
}

/// Only combinators of the definition were added, without gaps.
spec fn goes_on(env: Env, f: Float, g: Float) -> bool {
    &&& f.name_gen <= g.name_gen
    &&& forall|x: Str|
        !is_made(env.name, f.name_gen, g.name_gen, x) ==> (#[trigger] g.combinators.contains_key(x)
            <==> f.combinators.contains_key(x)) && g.combinators[x] == f.combinators[x]
    &&& forall|k: nat|
        f.name_gen <= k < g.name_gen ==> {
            let n = #[trigger] float_combinators::combinator_name(env.name, k);
            g.combinators.contains_key(n) && is_new_def(env, n, g.combinators[n].1)
        }
}

proof fn lemma_goes_on(env: Env, f: Float, g: Float, h: Float)
    requires
        goes_on(env, f, g),
        goes_on(env, g, h),
    ensures
        goes_on(env, f, h),
{
    assert forall|x: Str| !is_made(env.name, f.name_gen, h.name_gen, x) implies (
    #[trigger] h.combinators.contains_key(x) <==> f.combinators.contains_key(x))
        && h.combinators[x] == f.combinators[x] by {
        lemma_made(env.name, f.name_gen, g.name_gen, h.name_gen, x);
        assert(g.combinators.contains_key(x) <==> f.combinators.contains_key(x));
    }
    assert forall|k: nat| f.name_gen <= k < h.name_gen implies {
        let n = #[trigger] float_combinators::combinator_name(env.name, k);
        h.combinators.contains_key(n) && is_new_def(env, n, h.combinators[n].1)
    } by {
        let n = float_combinators::combinator_name(env.name, k);
        if k < g.name_gen {
            lemma_not_made(env.name, k, env.name, g.name_gen, h.name_gen);
            assert(h.combinators.contains_key(n) <==> g.combinators.contains_key(n));
        }
    }
}

proof fn lemma_not_made(c: Str, k: nat, d: Str, first: nat, next: nat)
    requires
        c != d || k < first || next <= k,
    ensures
        !is_made(d, first, next, float_combinators::combinator_name(c, k)),
{
    let n = float_combinators::combinator_name(c, k);
    if is_made(d, first, next, n) {
        let j = choose|j: nat|
            first <= j < next && n == #[trigger] float_combinators::combinator_name(d, j);
        float_laws::law_combinator_names(c, k, d, j);
    }
}

/// What other combinators refer to stays the same.
proof fn lemma_stored_same(env: Env, f: Float, g: Float, c: Str, next: nat, n: Str)
    requires
        goes_on(env, f, g),
        c != env.name || next <= f.name_gen,
    ensures
        stored(c, g.combinators, next, n) == stored(c, f.combinators, next, n),
    decreases next,
{
    if next > 0 {
        let k = (next - 1) as nat;
        lemma_stored_same(env, f, g, c, k, n);
        lemma_not_made(c, k, env.name, f.name_gen, g.name_gen);
        let x = float_combinators::combinator_name(c, k);
        assert(g.combinators.contains_key(x) <==> f.combinators.contains_key(x));
    }
}

/// The references that were there are still there, and there is one to each new
/// combinator.
spec fn is_counted(env: Env, f: Float, ts: Seq<Tm>, g: Float, us: Seq<Tm>, n: Str) -> bool {
    ref_counts(us, n) + stored(env.name, g.combinators, g.name_gen, n) == ref_counts(ts, n)
        + stored(env.name, f.combinators, f.name_gen, n) + made(
        env.name,
        f.name_gen,
        g.name_gen,
        n,
    )
}

proof fn lemma_extracted_count(env: Env, f: Float, child: Tm, n: Str)
    requires
        facts::is_combinator(child),
        facts::size(child) > 0,
    ensures
        ({
            let (k, g) = float_combinators::extracted(env, f, child);
            &&& goes_on(env, f, g)
            &&& ref_count(k, n) + stored(env.name, g.combinators, g.name_gen, n) == ref_count(
                child,
                n,
            ) + stored(env.name, f.combinators, f.name_gen, n) + made(
                env.name,
                f.name_gen,
                g.name_gen,
                n,
            )
        }),
{
    let (r, g) = float_combinators::extracted(env, f, child);
    let nam = float_combinators::combinator_name(env.name, f.name_gen);
    assert forall|x: Str| is_made(env.name, f.name_gen, g.name_gen, x) <==> x == nam by {
        if x == nam {
            assert(f.name_gen <= f.name_gen < g.name_gen);
        }
    }
    assert(term::body_of(g.combinators[nam].1) == child);
    assert forall|k: nat| f.name_gen <= k < g.name_gen implies {
        let x = #[trigger] float_combinators::combinator_name(env.name, k);
        g.combinators.contains_key(x) && is_new_def(env, x, g.combinators[x].1)
    } by {
        assert(k == f.name_gen);
    }
    assert(goes_on(env, f, g));
    lemma_stored_same(env, f, g, env.name, f.name_gen, n);
    assert(r.kids =~= Seq::empty());
    assert(ref_counts(r.kids, n) == 0);
    assert(ref_count(r, n) == if n == nam {
        1nat
    } else {
        0nat
    });
}

proof fn lemma_extracted_all_count(
    env: Env,
    in_combinator: bool,
    size: int,
    f: Float,
    kids: Seq<Tm>,
    n: Str,
)
    ensures
        ({
            let (rs, s, g) = float_combinators::extracted_all(env, in_combinator, size, f, kids);
            &&& rs.len() == kids.len()
            &&& goes_on(env, f, g)
            &&& is_counted(env, f, kids, g, rs, n)
        }),
    decreases kids.len(),
{
    if kids.len() > 0 {
        let init = kids.drop_last();
        let child = kids.last();
        let (ks, s, g) = float_combinators::extracted_all(env, in_combinator, size, f, init);
        lemma_extracted_all_count(env, in_combinator, size, f, init, n);
        if float_combinators::is_extracted(env, in_combinator, s, g, child) {
            let (k, h) = float_combinators::extracted(env, g, child);
            lemma_extracted_count(env, g, child, n);
            lemma_goes_on(env, f, g, h);
            lemma_made(env.name, f.name_gen, g.name_gen, h.name_gen, n);
            lemma_counts_push(ks, k, n);
        } else {
            lemma_counts_push(ks, child, n);
        }
    }
}

proof fn lemma_floated_count(env: Env, f: Float, t: Tm, n: Str)
    ensures
        ({
            let (u, g) = float_combinators::floated(env, f, t);
            &&& goes_on(env, f, g)
            &&& ref_count(u, n) + stored(env.name, g.combinators, g.name_gen, n) == ref_count(t, n)
                + stored(env.name, f.combinators, f.name_gen, n) + made(
                env.name,
                f.name_gen,
                g.name_gen,
                n,
            )
        }),
    decreases float_combinators::nodes(t), 0nat,
{
    float_combinators::lemma_nodes_float_kids(t);
    let qs = float_children::float_kids(t);
    let (ks, g) = float_combinators::floated_all(env, f, qs);
    lemma_floated_all_count(env, f, qs, n);
    lemma_with_float_kids_count(t, ks, n);
    let u = float_children::with_float_kids(t, ks);
    let ps = float_children::float_kids(u);
    let in_combinator = facts::is_combinator(u);
    let size = facts::size(u) as int;
    let (rs, _, h) = float_combinators::extracted_all(env, in_combinator, size, g, ps);
    lemma_extracted_all_count(env, in_combinator, size, g, ps, n);
    lemma_with_float_kids_count(u, rs, n);
    lemma_goes_on(env, f, g, h);
    lemma_made(env.name, f.name_gen, g.name_gen, h.name_gen, n);
}

proof fn lemma_floated_all_count(env: Env, f: Float, ts: Seq<Tm>, n: Str)
    ensures
        ({
            let (us, g) = float_combinators::floated_all(env, f, ts);
            &&& us.len() == ts.len()
            &&& goes_on(env, f, g)
            &&& is_counted(env, f, ts, g, us, n)
        }),
    decreases float_combinators::nodes_all(ts), ts.len() + 1,
{
    if ts.len() > 0 {
        let init = ts.drop_last();
        let (ks, g) = float_combinators::floated_all(env, f, init);
        let (k, h) = float_combinators::floated(env, g, ts.last());
        lemma_floated_all_count(env, f, init, n);
        lemma_floated_count(env, g, ts.last(), n);
        lemma_goes_on(env, f, g, h);
        lemma_made(env.name, f.name_gen, g.name_gen, h.name_gen, n);
        lemma_counts_push(ks, k, n);
    }
}

/* Programs */

/// The definition has this many combinators, and they and the definition refer
/// once to each of them.
spec fn is_taken_apart(
    bk: Bk,
    max_size: nat,
    defs: Map<Str, Dm>,
    cs: Map<Str, (bool, Dm)>,
    d: Str,
    next: nat,
) -> bool {
    &&& forall|k: nat|
        cs.contains_key(#[trigger] float_combinators::combinator_name(d, k)) <==> k < next
    &&& forall|k: nat|
        k < next ==> {
            let n = #[trigger] float_combinators::combinator_name(d, k);
            is_new_def(float_combinators::program_env(bk, max_size, d), n, cs[n].1)
        }
    &&& forall|n: Str| #[trigger]
        ref_count(term::body_of(defs[d]), n) + stored(d, cs, next, n) == ref_count(
            term::body_of(bk.defs[d]),
            n,
        ) + made(d, 0, next, n)
}

/// The name is one of a combinator of a definition other than the entrypoint.
spec fn is_combinator_of(bk: Bk, n: Str) -> bool {
    exists|d: Str, k: nat|
        n == #[trigger] float_combinators::combinator_name(d, k) && bk.defs.contains_key(d)
            && bk.entrypoint != Some(d)
}

spec fn are_taken_apart(
    bk: Bk,
    max_size: nat,
    names: Seq<Str>,
    defs: Map<Str, Dm>,
    cs: Map<Str, (bool, Dm)>,
) -> bool {
    &&& defs.dom() == bk.defs.dom()
    &&& forall|d: Str| #[trigger]
        bk.defs.contains_key(d) ==> exists|next: nat| #[trigger]
            is_taken_apart(bk, max_size, defs, cs, d, next)
    &&& forall|d: Str| #[trigger]
        bk.defs.contains_key(d) && (!names.contains(d) || bk.entrypoint == Some(d)) ==> is_taken_apart(
            bk,
            max_size,
            defs,
            cs,
            d,
            0,
        ) && defs[d] == bk.defs[d]
    &&& forall|n: Str| #[trigger] cs.contains_key(n) ==> is_combinator_of(bk, n)
}

proof fn lemma_defs_taken_apart(bk: Bk, max_size: nat, names: Seq<Str>)
    requires
        names.no_duplicates(),
        forall|i: int| 0 <= i < names.len() ==> bk.defs.contains_key(#[trigger] names[i]),
    ensures
        ({
            let (defs, cs) = float_combinators::floated_defs(bk, max_size, names);
            are_taken_apart(bk, max_size, names, defs, cs)
        }),
    decreases names.len(),
{
    let (defs, cs) = float_combinators::floated_defs(bk, max_size, names);
    if names.len() == 0 {
        assert forall|d: Str| #[trigger] bk.defs.contains_key(d) implies is_taken_apart(
            bk,
            max_size,
            defs,
            cs,
            d,
            0,
        ) by {
            assert forall|n: Str| #[trigger] ref_count(term::body_of(defs[d]), n) + stored(d, cs, 0, n)
                == ref_count(term::body_of(bk.defs[d]), n) + made(d, 0, 0, n) by {
                assert(!is_made(d, 0, 0, n));
            }
        }
    } else {
        let init = names.drop_last();
        let d = names.last();
        let (defs1, cs1) = float_combinators::floated_defs(bk, max_size, init);
        assert forall|i: int| 0 <= i < init.len() implies bk.defs.contains_key(#[trigger] init[i]) by {
            assert(init[i] == names[i]);
        }
        assert(names[names.len() - 1] == d);
        assert(bk.defs.contains_key(d));
        lemma_defs_taken_apart(bk, max_size, init);
        assert forall|x: Str| names.contains(x) <==> init.contains(x) || x == d by {
            if names.contains(x) && x != d {
                let i = choose|i: int| 0 <= i < names.len() && names[i] == x;
                assert(init[i] == x);
            }
            if init.contains(x) {
                let i = choose|i: int| 0 <= i < init.len() && init[i] == x;
                assert(names[i] == x);
            }
        }
        if init.contains(d) {
            let i = choose|i: int| 0 <= i < init.len() && init[i] == d;
            assert(names[i] == d);
        }
        if bk.entrypoint != Some(d) {
            let body = term::body_of(bk.defs[d]);
            let env = float_combinators::program_env(bk, max_size, d);
            let f = Float { combinators: cs1, name_gen: 0, def_size: facts::size(body) as int };
            let (u, g) = float_combinators::floated(env, f, body);
            assert(is_taken_apart(bk, max_size, defs1, cs1, d, 0));
            lemma_floated_count(env, f, body, Seq::empty());
            assert(is_taken_apart(bk, max_size, defs, cs, d, g.name_gen)) by {
                assert forall|k: nat|
                    cs.contains_key(#[trigger] float_combinators::combinator_name(d, k)) <==> k
                        < g.name_gen by {
                    let n = float_combinators::combinator_name(d, k);
                    if k >= g.name_gen {
                        lemma_not_made(d, k, d, 0, g.name_gen);
                        assert(cs.contains_key(n) <==> cs1.contains_key(n));
                    }
                }
                assert forall|n: Str| #[trigger]
                    ref_count(term::body_of(defs[d]), n) + stored(d, cs, g.name_gen, n)
                        == ref_count(term::body_of(bk.defs[d]), n) + made(d, 0, g.name_gen, n) by {
                    lemma_floated_count(env, f, body, n);
                }
            }
            assert forall|c: Str, next: nat|
                bk.defs.contains_key(c) && c != d && #[trigger] is_taken_apart(
                    bk,
                    max_size,
                    defs1,
                    cs1,
                    c,
                    next,
                ) implies is_taken_apart(bk, max_size, defs, cs, c, next) by {
                assert forall|k: nat|
                    (cs.contains_key(#[trigger] float_combinators::combinator_name(c, k))
                        <==> cs1.contains_key(float_combinators::combinator_name(c, k)))
                        && cs[float_combinators::combinator_name(c, k)]
                        == cs1[float_combinators::combinator_name(c, k)] by {
                    lemma_not_made(c, k, d, 0, g.name_gen);
                }
                assert forall|n: Str| #[trigger]
                    ref_count(term::body_of(defs[c]), n) + stored(c, cs, next, n) == ref_count(
                        term::body_of(bk.defs[c]),
                        n,
                    ) + made(c, 0, next, n) by {
                    assert(ref_count(term::body_of(defs1[c]), n) + stored(c, cs1, next, n)
                        == ref_count(term::body_of(bk.defs[c]), n) + made(c, 0, next, n));
                    lemma_stored_same(env, f, g, c, next, n);
                }
            }
            assert forall|c: Str| #[trigger] bk.defs.contains_key(c) implies exists|next: nat| #[trigger]
                is_taken_apart(bk, max_size, defs, cs, c, next) by {
                if c != d {
                    let next = choose|next: nat| #[trigger]
                        is_taken_apart(bk, max_size, defs1, cs1, c, next);
                    assert(is_taken_apart(bk, max_size, defs, cs, c, next));
                }
            }
            assert forall|c: Str| #[trigger]
                bk.defs.contains_key(c) && (!names.contains(c) || bk.entrypoint == Some(c)) implies is_taken_apart(
                bk,
                max_size,
                defs,
                cs,
                c,
                0,
            ) && defs[c] == bk.defs[c] by {
                assert(is_taken_apart(bk, max_size, defs1, cs1, c, 0));
            }
            assert forall|n: Str| #[trigger] cs.contains_key(n) implies is_combinator_of(bk, n) by {
                if is_made(d, 0, g.name_gen, n) {
                    let k = choose|k: nat|
                        0 <= k < g.name_gen && n == #[trigger] float_combinators::combinator_name(d, k);
                    assert(n == float_combinators::combinator_name(d, k));
                } else {
                    assert(cs1.contains_key(n));
                }
            }
            assert(defs.dom() =~= bk.defs.dom());
        }
    }
}

/// The first combinators hold no more references than all.
proof fn lemma_stored_bound(d: Str, cs: Map<Str, (bool, Dm)>, next: nat, n: Str, k: nat)
    requires
        k < next,
    ensures
        ref_count(term::body_of(cs[float_combinators::combinator_name(d, k)].1), n) <= stored(
            d,
            cs,
            next,
            n,
        ),
    decreases next,
{
    if k < next - 1 {
        lemma_stored_bound(d, cs, (next - 1) as nat, n, k);
    }
}

/// If the combinators hold one reference, one of them holds it.
proof fn lemma_stored_one(d: Str, cs: Map<Str, (bool, Dm)>, next: nat, n: Str) -> (k: nat)
    requires
        stored(d, cs, next, n) == 1,
    ensures
        k < next,
        ref_count(term::body_of(cs[float_combinators::combinator_name(d, k)].1), n) == 1,
        forall|j: nat|
            j < next && j != k ==> ref_count(
                term::body_of(cs[#[trigger] float_combinators::combinator_name(d, j)].1),
                n,
            ) == 0,
    decreases next,
{
    let last = (next - 1) as nat;
    if stored(d, cs, last, n) == 1 {
        lemma_stored_one(d, cs, last, n)
    } else {
        assert forall|j: nat| j < next && j != last implies ref_count(
            term::body_of(cs[#[trigger] float_combinators::combinator_name(d, j)].1),
            n,
        ) == 0 by {
            lemma_stored_bound(d, cs, last, n, j);
        }
        last
    }
}

/// What floating makes of a program.
proof fn lemma_book_taken_apart(bk: Bk, max_size: nat)
    requires
        bk.defs.dom().finite(),
        float_laws::is_clean_book(bk),
    ensures
        ({
            let names = name::in_order(bk.defs.dom());
            let (defs, cs) = float_combinators::floated_defs(bk, max_size, names);
            &&& are_taken_apart(bk, max_size, names, defs, cs)
            &&& forall|n: Str| #[trigger] cs.contains_key(n) ==> !bk.defs.contains_key(n)
            &&& float_laws::new_defs(bk, max_size) == float_combinators::combinator_defs(cs)
        }),
{
    let names = name::in_order(bk.defs.dom());
    let (defs, cs) = float_combinators::floated_defs(bk, max_size, names);
    name::lemma_finite_in_order(bk.defs.dom());
    name::lemma_sorted_no_duplicates(names);
    assert forall|i: int| 0 <= i < names.len() implies bk.defs.contains_key(#[trigger] names[i]) by {
        assert(names.to_set().contains(names[i]));
    }
    lemma_defs_taken_apart(bk, max_size, names);
    assert forall|n: Str| #[trigger] cs.contains_key(n) implies !bk.defs.contains_key(n) by {
        let (d, k) = choose|d: Str, k: nat|
            n == #[trigger] float_combinators::combinator_name(d, k) && bk.defs.contains_key(d)
                && bk.entrypoint != Some(d);
        assert(bk.defs.dom().contains(d));
        assert(float_laws::is_generated(n, bk.defs.dom()));
    }
    assert(float_laws::new_defs(bk, max_size) =~= float_combinators::combinator_defs(cs));
}

/// Every new definition is a combinator that is not empty and comes from a
/// definition other than the entrypoint, whose name is in its name. It is checked
/// if that definition is, and its source is made from the source of that
/// definition. The numbers of the combinators of a definition have no gaps.
pub proof fn law_float_new_definitions(bk: Bk, max_size: nat, n: Str)
    requires
        bk.defs.dom().finite(),
        float_laws::is_clean_book(bk),
        float_laws::new_defs(bk, max_size).contains_key(n),
    ensures
        ({
            let new = float_laws::new_defs(bk, max_size);
            let c = new[n];
            &&& term::has_one_rule(c)
            &&& facts::is_combinator(term::body_of(c))
            &&& facts::size(term::body_of(c)) > 0
            &&& exists|d: Str, k: nat|
                {
                    &&& n == #[trigger] float_combinators::combinator_name(d, k)
                    &&& bk.defs.contains_key(d)
                    &&& bk.entrypoint != Some(d)
                    &&& c.name == n
                    &&& c.check == bk.defs[d].check
                    &&& c.source == term::generated_source(bk.defs[d].source)
                    &&& forall|j: nat|
                        j < k ==> new.contains_key(#[trigger] float_combinators::combinator_name(d, j))
                }
        }),
{
    lemma_book_taken_apart(bk, max_size);
    let names = name::in_order(bk.defs.dom());
    let (defs, cs) = float_combinators::floated_defs(bk, max_size, names);
    let new = float_laws::new_defs(bk, max_size);
    assert(cs.contains_key(n));
    let (d, k) = choose|d: Str, k: nat|
        n == #[trigger] float_combinators::combinator_name(d, k) && bk.defs.contains_key(d)
            && bk.entrypoint != Some(d);
    let next = choose|next: nat| #[trigger] is_taken_apart(bk, max_size, defs, cs, d, next);
    assert(k < next);
    assert(is_new_def(float_combinators::program_env(bk, max_size, d), n, cs[n].1));
    assert forall|j: nat| j < k implies new.contains_key(
        #[trigger] float_combinators::combinator_name(d, j),
    ) by {
        assert(cs.contains_key(float_combinators::combinator_name(d, j)));
    }
    assert(n == float_combinators::combinator_name(d, k));
}

/// The program refers exactly once to each new definition.
pub proof fn law_float_refers_once(bk: Bk, max_size: nat, n: Str)
    requires
        bk.defs.dom().finite(),
        float_laws::is_clean_book(bk),
        float_laws::new_defs(bk, max_size).contains_key(n),
    ensures
        ({
            let defs = float_combinators::floated_book(bk, max_size).defs;
            exists|m: Str|
                {
                    &&& #[trigger] defs.contains_key(m)
                    &&& ref_count(term::body_of(defs[m]), n) == 1
                    &&& forall|o: Str| #[trigger]
                        defs.contains_key(o) && o != m ==> ref_count(term::body_of(defs[o]), n) == 0
                }
        }),
{
    lemma_book_taken_apart(bk, max_size);
    let names = name::in_order(bk.defs.dom());
    let (ds, cs) = float_combinators::floated_defs(bk, max_size, names);
    let defs = float_combinators::floated_book(bk, max_size).defs;
    assert(cs.contains_key(n));
    let (d, k) = choose|d: Str, k: nat|
        n == #[trigger] float_combinators::combinator_name(d, k) && bk.defs.contains_key(d)
            && bk.entrypoint != Some(d);
    assert(bk.defs.dom().contains(d));
    assert(float_laws::is_generated(n, bk.defs.dom()));
    let next = choose|next: nat| #[trigger] is_taken_apart(bk, max_size, ds, cs, d, next);
    assert(k < next);
    assert(is_made(d, 0, next, n)) by {
        assert(0 <= k < next && n == float_combinators::combinator_name(d, k));
    }
    lemma_clean_count(term::body_of(bk.defs[d]), bk.defs.dom(), n);
    assert(ref_count(term::body_of(ds[d]), n) + stored(d, cs, next, n) == 1);
    assert forall|x: Str| #[trigger] bk.defs.contains_key(x) implies defs.contains_key(x) && defs[x]
        == ds[x] by {
        assert(ds.dom().contains(x));
        assert(!cs.contains_key(x));
    }
    let m = if stored(d, cs, next, n) == 0 {
        d
    } else {
        let j = lemma_stored_one(d, cs, next, n);
        assert(cs.contains_key(float_combinators::combinator_name(d, j)));
        float_combinators::combinator_name(d, j)
    };
    assert(defs.contains_key(m) && ref_count(term::body_of(defs[m]), n) == 1);
    assert forall|o: Str| #[trigger] defs.contains_key(o) && o != m implies ref_count(
        term::body_of(defs[o]),
        n,
    ) == 0 by {
        let (c, i) = if cs.contains_key(o) {
            choose|c: Str, i: nat|
                o == #[trigger] float_combinators::combinator_name(c, i) && bk.defs.contains_key(c)
                    && bk.entrypoint != Some(c)
        } else {
            (o, 0)
        };
        assert(ds.dom().contains(o) || cs.contains_key(o));
        assert(bk.defs.contains_key(c));
        if c == d {
            if cs.contains_key(o) {
                assert(i < next);
                lemma_stored_bound(d, cs, next, n, i);
            }
        } else {
            let other = choose|other: nat| #[trigger]
                is_taken_apart(bk, max_size, ds, cs, c, other);
            lemma_not_made(d, k, c, 0, other);
            lemma_clean_count(term::body_of(bk.defs[c]), bk.defs.dom(), n);
            assert(ref_count(term::body_of(ds[c]), n) + stored(c, cs, other, n) == 0);
            if cs.contains_key(o) {
                assert(i < other);
                lemma_stored_bound(c, cs, other, n, i);
            }
        }
    }
}

} // verus!
