//! What floating combinators leaves in terms that are too large or no combinators.

use crate::fun::book::Bk;
use crate::fun::term;
use crate::fun::term::{Dm, Th, Tm};
use crate::fun::transform::facts;
use crate::fun::transform::float_children;
use crate::fun::transform::float_combinators;
use crate::fun::transform::float_combinators::{Env, Float};
use crate::fun::transform::settled_laws;
use crate::name;
use crate::name::Str;
use vstd::prelude::*;

verus! {

/// A term that could be extracted.
pub open spec fn is_extractable(t: Tm) -> bool {
    facts::is_combinator(t) && facts::size(t) > 0
}

/// Nothing that could be extracted may be left below the term: it is no
/// combinator, or is too large.
pub open spec fn is_bare(t: Tm, max_size: nat) -> bool {
    !facts::is_combinator(t) || facts::size(t) > max_size
}

/// A term that is no combinator or too large has nothing left below it that
/// could be extracted, and so on in the terms below that combinators are floated
/// from.
pub open spec fn is_trimmed(t: Tm, max_size: nat) -> bool
    decreases float_combinators::nodes(t),
{
    proof {
        settled_laws::lemma_nodes_kids(t);
    }
    forall|i: int|
        0 <= i < float_children::float_kids(t).len() ==> {
            let k = #[trigger] float_children::float_kids(t)[i];
            &&& is_bare(t, max_size) ==> !is_extractable(k)
            &&& is_trimmed(k, max_size)
        }
}

spec fn are_trimmed(ts: Seq<Tm>, max_size: nat) -> bool {
    forall|i: int| 0 <= i < ts.len() ==> is_trimmed(#[trigger] ts[i], max_size)
}

/* Unscoped variables */

/// Unscoped variables have different names: each one is declared in one place and
/// used in one place.
pub open spec fn is_sanitized(t: Tm) -> bool
    decreases t,
{
    &&& t.head is Link ==> t.kids.len() == 0
    &&& forall|i: int| 0 <= i < t.kids.len() ==> is_sanitized(#[trigger] t.kids[i])
    &&& forall|i: int, x: Str|
        0 <= i < t.kids.len() && #[trigger] facts::declared(t.kids[i]).contains(x)
            ==> !pattern_declares(t, x)
    &&& forall|i: int, j: int, x: Str|
        0 <= i < t.kids.len() && 0 <= j < t.kids.len() && #[trigger] facts::declared(
            t.kids[i],
        ).contains(x) && #[trigger] facts::declared(t.kids[j]).contains(x) ==> i == j
    &&& forall|i: int, j: int, x: Str|
        0 <= i < t.kids.len() && 0 <= j < t.kids.len() && #[trigger] facts::used(t.kids[i]).contains(
            x,
        ) && #[trigger] facts::used(t.kids[j]).contains(x) ==> i == j
}

/// The pattern of the term declares the unscoped variable.
pub open spec fn pattern_declares(t: Tm, x: Str) -> bool {
    match term::tm_pattern(t) {
        Some(p) => facts::pat_declared(p).contains(x),
        None => false,
    }
}

/// The term has no unscoped variables but those of the other one, and they have
/// different names if those do.
spec fn is_below(v: Tm, u: Tm) -> bool {
    &&& facts::declared(v).subset_of(facts::declared(u))
    &&& facts::used(v).subset_of(facts::used(u))
    &&& is_sanitized(u) ==> is_sanitized(v)
}

spec fn are_below(vs: Seq<Tm>, us: Seq<Tm>) -> bool {
    &&& vs.len() == us.len()
    &&& forall|i: int| 0 <= i < us.len() ==> is_below(vs[i], #[trigger] us[i])
}

proof fn lemma_below_kids(v: Tm, u: Tm)
    requires
        v.head == u.head,
        are_below(v.kids, u.kids),
    ensures
        is_below(v, u),
{
    assert(term::tm_pattern(v) == term::tm_pattern(u));
    assert forall|i: int, x: Str|
        0 <= i < u.kids.len() && #[trigger] facts::declared(v.kids[i]).contains(x) implies facts::declared(
        u.kids[i],
    ).contains(x) by {
        assert(is_below(v.kids[i], u.kids[i]));
    }
    assert forall|i: int, x: Str|
        0 <= i < u.kids.len() && #[trigger] facts::used(v.kids[i]).contains(x) implies facts::used(
        u.kids[i],
    ).contains(x) by {
        assert(is_below(v.kids[i], u.kids[i]));
    }
    assert forall|x: Str| facts::declared(v).contains(x) implies facts::declared(u).contains(x) by {
        if exists|i: int| 0 <= i < v.kids.len() && facts::declared(#[trigger] v.kids[i]).contains(x) {
            let i = choose|i: int|
                0 <= i < v.kids.len() && facts::declared(#[trigger] v.kids[i]).contains(x);
            assert(facts::declared(u.kids[i]).contains(x));
        }
    }
    assert forall|x: Str| facts::used(v).contains(x) implies facts::used(u).contains(x) by {
        if exists|i: int| 0 <= i < v.kids.len() && facts::used(#[trigger] v.kids[i]).contains(x) {
            let i = choose|i: int|
                0 <= i < v.kids.len() && facts::used(#[trigger] v.kids[i]).contains(x);
            assert(facts::used(u.kids[i]).contains(x));
        }
    }
    if is_sanitized(u) {
        assert forall|i: int| 0 <= i < v.kids.len() implies is_sanitized(#[trigger] v.kids[i]) by {
            assert(is_below(v.kids[i], u.kids[i]) && is_sanitized(u.kids[i]));
        }
        assert forall|i: int, x: Str|
            0 <= i < v.kids.len() && #[trigger] facts::declared(v.kids[i]).contains(x) implies !pattern_declares(
            v,
            x,
        ) by {
            assert(facts::declared(u.kids[i]).contains(x));
        }
        assert forall|i: int, j: int, x: Str|
            0 <= i < v.kids.len() && 0 <= j < v.kids.len() && #[trigger] facts::declared(
                v.kids[i],
            ).contains(x) && #[trigger] facts::declared(v.kids[j]).contains(x) implies i == j by {
            assert(facts::declared(u.kids[i]).contains(x));
            assert(facts::declared(u.kids[j]).contains(x));
        }
        assert forall|i: int, j: int, x: Str|
            0 <= i < v.kids.len() && 0 <= j < v.kids.len() && #[trigger] facts::used(
                v.kids[i],
            ).contains(x) && #[trigger] facts::used(v.kids[j]).contains(x) implies i == j by {
            assert(facts::used(u.kids[i]).contains(x));
            assert(facts::used(u.kids[j]).contains(x));
        }
    }
}

proof fn lemma_respine_below(t: Tm, ks: Seq<Tm>)
    requires
        are_below(ks, float_children::spine(t)),
    ensures
        is_below(float_children::respine(t, ks), t),
    decreases t,
{
    let s = float_children::spine(t);
    let r = float_children::respine(t, ks);
    if t.head is App && t.kids.len() == 2 {
        let rest = float_children::spine(t.kids[0]);
        let qs = ks.drop_first();
        assert forall|i: int| 0 <= i < rest.len() implies is_below(qs[i], #[trigger] rest[i]) by {
            assert(rest[i] == s[i + 1]);
            assert(is_below(ks[i + 1], s[i + 1]));
        }
        lemma_respine_below(t.kids[0], qs);
        assert(s[0] == t.kids[1]);
        assert(is_below(ks[0], s[0]));
        assert forall|i: int| 0 <= i < t.kids.len() implies is_below(
            r.kids[i],
            #[trigger] t.kids[i],
        ) by {}
        lemma_below_kids(r, t);
    } else {
        assert(s[0] == t);
        assert(is_below(ks[0], s[0]));
    }
}

proof fn lemma_with_float_kids_below(t: Tm, ks: Seq<Tm>)
    requires
        are_below(ks, float_children::float_kids(t)),
    ensures
        is_below(float_children::with_float_kids(t, ks), t),
    decreases t,
{
    let r = float_children::with_float_kids(t, ks);
    match t.head {
        Th::App(_) => {
            if t.kids.len() == 2 {
                lemma_respine_below(t, ks);
            }
        },
        Th::Lam(_, _) => {
            if t.kids.len() == 1 {
                lemma_with_float_kids_below(t.kids[0], ks);
                assert(is_below(r.kids[0], t.kids[0]));
                lemma_below_kids(r, t);
            }
        },
        Th::Mat(_) => {
            lemma_below_kids(r, t);
        },
        Th::Swt(_) => {
            lemma_below_kids(r, t);
        },
        Th::Fan(_, _) => {
            lemma_below_kids(r, t);
        },
        Th::List => {
            lemma_below_kids(r, t);
        },
        Th::Let(_) => {
            lemma_below_kids(r, t);
        },
        Th::Use(_) => {
            lemma_below_kids(r, t);
        },
        Th::Oper(_) => {
            lemma_below_kids(r, t);
        },
        _ => {},
    }
}

spec fn are_sanitized(ts: Seq<Tm>) -> bool {
    forall|i: int| 0 <= i < ts.len() ==> is_sanitized(#[trigger] ts[i])
}

proof fn lemma_sanitized_spine(t: Tm)
    requires
        is_sanitized(t),
    ensures
        are_sanitized(float_children::spine(t)),
    decreases t,
{
    let s = float_children::spine(t);
    if t.head is App && t.kids.len() == 2 {
        let rest = float_children::spine(t.kids[0]);
        assert(is_sanitized(t.kids[0]) && is_sanitized(t.kids[1]));
        lemma_sanitized_spine(t.kids[0]);
        assert forall|i: int| 0 <= i < s.len() implies is_sanitized(#[trigger] s[i]) by {
            if i > 0 {
                assert(s[i] == rest[i - 1]);
            }
        }
    }
}

proof fn lemma_sanitized_float_kids(t: Tm)
    requires
        is_sanitized(t),
    ensures
        are_sanitized(float_children::float_kids(t)),
    decreases t,
{
    match t.head {
        Th::App(_) => {
            if t.kids.len() == 2 {
                lemma_sanitized_spine(t);
            }
        },
        Th::Lam(_, _) => {
            if t.kids.len() == 1 {
                assert(is_sanitized(t.kids[0]));
                lemma_sanitized_float_kids(t.kids[0]);
            }
        },
        _ => {},
    }
}

/* Cuts */

/// The term, where references stand for some combinators in it.
spec fn is_cut(v: Tm, u: Tm) -> bool
    decreases u,
{
    ||| v.head is Ref && v.kids.len() == 0 && facts::is_combinator(u)
    ||| {
        &&& v.head == u.head
        &&& v.kids.len() == u.kids.len()
        &&& forall|i: int| 0 <= i < u.kids.len() ==> is_cut(v.kids[i], #[trigger] u.kids[i])
    }
}

spec fn are_cut(vs: Seq<Tm>, us: Seq<Tm>) -> bool {
    &&& vs.len() == us.len()
    &&& forall|i: int| 0 <= i < us.len() ==> is_cut(vs[i], #[trigger] us[i])
}

proof fn lemma_cut_same(t: Tm)
    ensures
        is_cut(t, t),
    decreases t,
{
    assert forall|i: int| 0 <= i < t.kids.len() implies is_cut(t.kids[i], #[trigger] t.kids[i]) by {
        lemma_cut_same(t.kids[i]);
    }
}

/// A cut has the same free variables, and lacks unscoped variables only where
/// they are both declared and used.
proof fn lemma_cut_variables(v: Tm, u: Tm, x: Str)
    requires
        is_cut(v, u),
    ensures
        facts::free(v).contains(x) <==> facts::free(u).contains(x),
        facts::declared(v).contains(x) ==> facts::declared(u).contains(x),
        facts::used(v).contains(x) ==> facts::used(u).contains(x),
        facts::declared(u).contains(x) ==> facts::declared(v).contains(x) || facts::used(
            u,
        ).contains(x),
        facts::used(u).contains(x) ==> facts::used(v).contains(x) || facts::declared(u).contains(
            x,
        ),
    decreases u,
{
    if v.head is Ref && v.kids.len() == 0 && facts::is_combinator(u) {
        assert(!facts::free(u).contains(x));
    } else {
        assert forall|i: int| 0 <= i < u.kids.len() implies {
            &&& facts::free(v.kids[i]).contains(x) <==> facts::free(#[trigger] u.kids[i]).contains(x)
            &&& facts::declared(v.kids[i]).contains(x) ==> facts::declared(u.kids[i]).contains(x)
            &&& facts::used(v.kids[i]).contains(x) ==> facts::used(u.kids[i]).contains(x)
            &&& facts::declared(u.kids[i]).contains(x) ==> facts::declared(v.kids[i]).contains(x)
                || facts::used(u.kids[i]).contains(x)
            &&& facts::used(u.kids[i]).contains(x) ==> facts::used(v.kids[i]).contains(x)
                || facts::declared(u.kids[i]).contains(x)
            &&& term::kid_binds(v, i) == term::kid_binds(u, i)
        } by {
            lemma_cut_variables(v.kids[i], u.kids[i], x);
        }
        assert(term::tm_pattern(v) == term::tm_pattern(u));
        if facts::free(v).contains(x) && v.head != Th::Var(x) {
            let i = choose|i: int|
                0 <= i < v.kids.len() && facts::free(#[trigger] v.kids[i]).contains(x)
                    && !term::kid_binds(v, i).contains(Some(x));
            assert(facts::free(u.kids[i]).contains(x));
        }
        if facts::free(u).contains(x) && u.head != Th::Var(x) {
            let i = choose|i: int|
                0 <= i < u.kids.len() && facts::free(#[trigger] u.kids[i]).contains(x)
                    && !term::kid_binds(u, i).contains(Some(x));
            assert(facts::free(v.kids[i]).contains(x));
        }
        if exists|i: int| 0 <= i < v.kids.len() && facts::declared(#[trigger] v.kids[i]).contains(x) {
            let i = choose|i: int|
                0 <= i < v.kids.len() && facts::declared(#[trigger] v.kids[i]).contains(x);
            assert(facts::declared(u.kids[i]).contains(x));
        }
        if exists|i: int| 0 <= i < v.kids.len() && facts::used(#[trigger] v.kids[i]).contains(x) {
            let i = choose|i: int|
                0 <= i < v.kids.len() && facts::used(#[trigger] v.kids[i]).contains(x);
            assert(facts::used(u.kids[i]).contains(x));
        }
        if exists|i: int| 0 <= i < u.kids.len() && facts::declared(#[trigger] u.kids[i]).contains(x) {
            let i = choose|i: int|
                0 <= i < u.kids.len() && facts::declared(#[trigger] u.kids[i]).contains(x);
            assert(facts::declared(v.kids[i]).contains(x) || facts::used(u.kids[i]).contains(x));
        }
        if exists|i: int| 0 <= i < u.kids.len() && facts::used(#[trigger] u.kids[i]).contains(x) {
            let i = choose|i: int|
                0 <= i < u.kids.len() && facts::used(#[trigger] u.kids[i]).contains(x);
            assert(facts::used(v.kids[i]).contains(x) || facts::declared(u.kids[i]).contains(x));
        }
    }
}

/// What is a combinator after a cut was one before, and the other way round.
proof fn lemma_cut_combinator(v: Tm, u: Tm)
    requires
        is_cut(v, u),
        is_sanitized(u),
        v.head == u.head,
    ensures
        facts::is_combinator(v) <==> facts::is_combinator(u),
{
    assert forall|x: Str| facts::free(v).contains(x) <==> facts::free(u).contains(x) by {
        lemma_cut_variables(v, u, x);
    }
    assert(facts::free(v) =~= facts::free(u));
    if facts::declared(v) == facts::used(v) {
        assert forall|x: Str| facts::declared(u).contains(x) <==> facts::used(u).contains(x) by {
            lemma_cut_variables(v, u, x);
            assert(facts::declared(v).contains(x) <==> facts::used(v).contains(x));
        }
        assert(facts::declared(u) =~= facts::used(u));
    }
    if facts::declared(u) == facts::used(u) {
        assert forall|x: Str| facts::declared(v).contains(x) <==> facts::used(v).contains(x) by {
            lemma_cut_variables(v, u, x);
            lemma_cut_sanitized(v, u, x);
            assert(facts::declared(u).contains(x) <==> facts::used(u).contains(x));
        }
        assert(facts::declared(v) =~= facts::used(v));
    }
}

/// A cut leaves alone what is declared and not used, or the other way round.
proof fn lemma_cut_sanitized(v: Tm, u: Tm, x: Str)
    requires
        is_cut(v, u),
        is_sanitized(u),
    ensures
        facts::declared(v).contains(x) && !facts::used(v).contains(x) ==> !facts::used(u).contains(x),
        facts::used(v).contains(x) && !facts::declared(v).contains(x) ==> !facts::declared(
            u,
        ).contains(x),
    decreases u,
{
    if !(v.head is Ref && v.kids.len() == 0 && facts::is_combinator(u)) {
        assert(term::tm_pattern(v) == term::tm_pattern(u));
        if facts::declared(v).contains(x) && !facts::used(v).contains(x) && facts::used(u).contains(x) {
            let j = choose|j: int| 0 <= j < u.kids.len() && facts::used(#[trigger] u.kids[j]).contains(x);
            assert(is_cut(v.kids[j], u.kids[j]));
            lemma_cut_variables(v.kids[j], u.kids[j], x);
            if facts::used(v.kids[j]).contains(x) {
                assert(facts::used(v).contains(x));
            }
            assert(facts::declared(u.kids[j]).contains(x));
            assert(!pattern_declares(u, x));
            let i = choose|i: int|
                0 <= i < v.kids.len() && facts::declared(#[trigger] v.kids[i]).contains(x);
            assert(is_cut(v.kids[i], u.kids[i]));
            lemma_cut_variables(v.kids[i], u.kids[i], x);
            assert(facts::declared(u.kids[i]).contains(x));
            assert(i == j);
            assert(is_sanitized(u.kids[i]));
            lemma_cut_sanitized(v.kids[i], u.kids[i], x);
        }
        if facts::used(v).contains(x) && !facts::declared(v).contains(x) && facts::declared(u).contains(
            x,
        ) {
            let j = choose|j: int|
                0 <= j < u.kids.len() && facts::declared(#[trigger] u.kids[j]).contains(x);
            assert(is_cut(v.kids[j], u.kids[j]));
            lemma_cut_variables(v.kids[j], u.kids[j], x);
            if facts::declared(v.kids[j]).contains(x) {
                assert(facts::declared(v).contains(x));
            }
            assert(facts::used(u.kids[j]).contains(x));
            let i = choose|i: int| 0 <= i < v.kids.len() && facts::used(#[trigger] v.kids[i]).contains(x);
            assert(is_cut(v.kids[i], u.kids[i]));
            lemma_cut_variables(v.kids[i], u.kids[i], x);
            assert(facts::used(u.kids[i]).contains(x));
            assert(i == j);
            assert(is_sanitized(u.kids[i]));
            lemma_cut_sanitized(v.kids[i], u.kids[i], x);
        }
    }
}

proof fn lemma_respine_cut(t: Tm, ks: Seq<Tm>)
    requires
        are_cut(ks, float_children::spine(t)),
    ensures
        is_cut(float_children::respine(t, ks), t),
    decreases t,
{
    let s = float_children::spine(t);
    let r = float_children::respine(t, ks);
    if t.head is App && t.kids.len() == 2 {
        let rest = float_children::spine(t.kids[0]);
        let qs = ks.drop_first();
        assert forall|i: int| 0 <= i < rest.len() implies is_cut(qs[i], #[trigger] rest[i]) by {
            assert(rest[i] == s[i + 1]);
            assert(is_cut(ks[i + 1], s[i + 1]));
        }
        lemma_respine_cut(t.kids[0], qs);
        assert(s[0] == t.kids[1]);
        assert(is_cut(ks[0], s[0]));
        assert forall|i: int| 0 <= i < t.kids.len() implies is_cut(r.kids[i], #[trigger] t.kids[i]) by {}
    } else {
        assert(s[0] == t);
        assert(is_cut(ks[0], s[0]));
    }
}

proof fn lemma_with_float_kids_cut(t: Tm, ks: Seq<Tm>)
    requires
        are_cut(ks, float_children::float_kids(t)),
    ensures
        is_cut(float_children::with_float_kids(t, ks), t),
    decreases t,
{
    lemma_cut_same(t);
    match t.head {
        Th::App(_) => {
            if t.kids.len() == 2 {
                lemma_respine_cut(t, ks);
            }
        },
        Th::Lam(_, _) => {
            if t.kids.len() == 1 {
                lemma_with_float_kids_cut(t.kids[0], ks);
            }
        },
        _ => {},
    }
}

/* Floating */

/// The combinators are trimmed.
spec fn has_trimmed(env: Env, f: Float) -> bool {
    all_trimmed(f.combinators, env.max_size)
}

spec fn all_trimmed(combinators: Map<Str, (bool, Dm)>, max_size: nat) -> bool {
    forall|n: Str| #[trigger]
        combinators.contains_key(n) ==> is_trimmed(term::body_of(combinators[n].1), max_size)
}

proof fn lemma_extracted_all_trimmed(
    env: Env,
    in_combinator: bool,
    size: int,
    f: Float,
    ts: Seq<Tm>,
)
    requires
        has_trimmed(env, f),
        are_trimmed(ts, env.max_size),
    ensures
        ({
            let (us, s, g) = float_combinators::extracted_all(env, in_combinator, size, f, ts);
            &&& has_trimmed(env, g)
            &&& s <= size
            &&& are_trimmed(us, env.max_size)
            &&& are_cut(us, ts)
            &&& are_below(us, ts)
            &&& settled_laws::keeps_apps(us, ts)
            &&& !in_combinator || s > env.max_size ==> forall|i: int|
                0 <= i < us.len() ==> !is_extractable(#[trigger] us[i])
        }),
    decreases ts.len(),
{
    if ts.len() > 0 {
        let init = ts.drop_last();
        let child = ts.last();
        let (ks, s, g) = float_combinators::extracted_all(env, in_combinator, size, f, init);
        assert forall|i: int| 0 <= i < init.len() implies is_trimmed(
            #[trigger] init[i],
            env.max_size,
        ) by {
            assert(init[i] == ts[i]);
        }
        lemma_extracted_all_trimmed(env, in_combinator, size, f, init);
        assert(is_trimmed(ts[ts.len() - 1], env.max_size));
        lemma_cut_same(child);
        let (us, s2, h) = float_combinators::extracted_all(env, in_combinator, size, f, ts);
        assert forall|i: int| 0 <= i < ts.len() implies {
            &&& is_cut(us[i], #[trigger] ts[i])
            &&& is_below(us[i], ts[i])
            &&& is_trimmed(us[i], env.max_size)
            &&& settled_laws::is_app(us[i]) ==> settled_laws::is_app(ts[i])
            &&& !in_combinator || s2 > env.max_size ==> !is_extractable(us[i])
        } by {
            if i < init.len() {
                assert(us[i] == ks[i] && init[i] == ts[i]);
                assert(is_cut(ks[i], init[i]) && is_below(ks[i], init[i]));
            } else if us[i] != ts[i] {
                assert(facts::declared(us[i]) =~= Set::empty());
                assert(facts::used(us[i]) =~= Set::empty());
            }
        }
    }
}

proof fn lemma_floated_trimmed(env: Env, f: Float, t: Tm)
    requires
        has_trimmed(env, f),
        is_sanitized(t),
    ensures
        ({
            let (u, g) = float_combinators::floated(env, f, t);
            &&& has_trimmed(env, g)
            &&& is_trimmed(u, env.max_size)
            &&& is_below(u, t)
            &&& settled_laws::is_app(u) ==> settled_laws::is_app(t)
        }),
    decreases float_combinators::nodes(t), 0nat,
{
    float_combinators::lemma_nodes_float_kids(t);
    let qs = float_children::float_kids(t);
    let (ks, g) = float_combinators::floated_all(env, f, qs);
    lemma_sanitized_float_kids(t);
    lemma_floated_all_trimmed(env, f, qs);
    lemma_with_float_kids_below(t, ks);
    let u = float_children::with_float_kids(t, ks);
    settled_laws::lemma_float_kids_back(t, ks);
    let (in_combinator, size) = (facts::is_combinator(u), facts::size(u) as int);
    let (rs, s, h) = float_combinators::extracted_all(env, in_combinator, size, g, ks);
    lemma_extracted_all_trimmed(env, in_combinator, size, g, ks);
    float_combinators::lemma_extracted_sizes(env, in_combinator, size, g, ks);
    let r = float_children::with_float_kids(u, rs);
    settled_laws::lemma_float_kids_back(u, rs);
    float_children::lemma_with_float_kids_size(t, ks);
    float_children::lemma_with_float_kids_size(u, rs);
    assert(facts::size(r) == s);
    lemma_with_float_kids_cut(u, rs);
    lemma_cut_combinator(r, u);
    lemma_with_float_kids_below(u, rs);
    assert forall|i: int| 0 <= i < rs.len() implies {
        let k = #[trigger] float_children::float_kids(r)[i];
        &&& is_bare(r, env.max_size) ==> !is_extractable(k)
        &&& is_trimmed(k, env.max_size)
    } by {
        assert(is_trimmed(rs[i], env.max_size));
        assert(!in_combinator || s > env.max_size ==> !is_extractable(rs[i]));
    }
}

proof fn lemma_floated_all_trimmed(env: Env, f: Float, ts: Seq<Tm>)
    requires
        has_trimmed(env, f),
        are_sanitized(ts),
    ensures
        ({
            let (us, g) = float_combinators::floated_all(env, f, ts);
            &&& has_trimmed(env, g)
            &&& are_trimmed(us, env.max_size)
            &&& are_below(us, ts)
            &&& settled_laws::keeps_apps(us, ts)
        }),
    decreases float_combinators::nodes_all(ts), ts.len() + 1,
{
    if ts.len() > 0 {
        let init = ts.drop_last();
        let (ks, g) = float_combinators::floated_all(env, f, init);
        assert forall|i: int| 0 <= i < init.len() implies is_sanitized(#[trigger] init[i]) by {
            assert(init[i] == ts[i]);
        }
        assert(is_sanitized(ts[ts.len() - 1]));
        lemma_floated_all_trimmed(env, f, init);
        let (k, h) = float_combinators::floated(env, g, ts.last());
        lemma_floated_trimmed(env, g, ts.last());
        let us = ks.push(k);
        assert forall|i: int| 0 <= i < us.len() implies is_trimmed(#[trigger] us[i], env.max_size)
            && (settled_laws::is_app(us[i]) ==> settled_laws::is_app(ts[i])) && is_below(
            us[i],
            ts[i],
        ) by {
            if i < init.len() {
                assert(us[i] == ks[i] && init[i] == ts[i]);
                assert(is_below(ks[i], init[i]));
            }
        }
        assert forall|i: int| 0 <= i < ts.len() implies is_below(us[i], #[trigger] ts[i]) by {
            assert(is_trimmed(us[i], env.max_size));
        }
    }
}

/* Programs */

/// The unscoped variables of each definition have different names.
pub open spec fn is_sanitized_book(bk: Bk) -> bool {
    forall|n: Str| #[trigger] bk.defs.contains_key(n) ==> is_sanitized(term::body_of(bk.defs[n]))
}

proof fn lemma_floated_defs_trimmed(bk: Bk, max_size: nat, ns: Seq<Str>)
    requires
        is_sanitized_book(bk),
        ns.no_duplicates(),
        ns.to_set().subset_of(bk.defs.dom()),
    ensures
        ({
            let (defs, combinators) = float_combinators::floated_defs(bk, max_size, ns);
            &&& all_trimmed(combinators, max_size)
            &&& forall|n: Str| #[trigger]
                ns.contains(n) && bk.entrypoint != Some(n) ==> is_trimmed(
                    term::body_of(defs[n]),
                    max_size,
                )
        }),
    decreases ns.len(),
{
    if ns.len() > 0 {
        let init = ns.drop_last();
        let d = ns.last();
        assert forall|x: Str| init.to_set().contains(x) implies bk.defs.dom().contains(x) by {
            let i = choose|i: int| 0 <= i < init.len() && init[i] == x;
            assert(ns[i] == x);
            assert(ns.to_set().contains(x));
        }
        lemma_floated_defs_trimmed(bk, max_size, init);
        let (defs1, combinators1) = float_combinators::floated_defs(bk, max_size, init);
        assert(ns[ns.len() - 1] == d);
        assert(ns.to_set().contains(d));
        assert forall|x: Str| ns.contains(x) implies init.contains(x) || x == d by {
            let i = choose|i: int| 0 <= i < ns.len() && ns[i] == x;
            if i < init.len() {
                assert(init[i] == x);
            }
        }
        if bk.entrypoint != Some(d) {
            let body = term::body_of(bk.defs[d]);
            let env = float_combinators::program_env(bk, max_size, d);
            let f = Float {
                combinators: combinators1,
                name_gen: 0,
                def_size: facts::size(body) as int,
            };
            lemma_floated_trimmed(env, f, body);
        }
    }
}

/// Floating leaves no combinator in a term that is no combinator, and none in one
/// that is too large: no term is left below it that could be extracted. The
/// definitions that floating adds are no exception, the entrypoint is one.
/// Variables must have been sanitized.
pub proof fn law_float_trims(bk: Bk, max_size: nat, n: Str)
    requires
        bk.defs.dom().finite(),
        is_sanitized_book(bk),
        float_combinators::floated_book(bk, max_size).defs.contains_key(n),
        bk.entrypoint != Some(n),
    ensures
        is_trimmed(
            term::body_of(float_combinators::floated_book(bk, max_size).defs[n]),
            max_size,
        ),
{
    let ns = name::in_order(bk.defs.dom());
    name::lemma_finite_in_order(bk.defs.dom());
    name::lemma_sorted_no_duplicates(ns);
    lemma_floated_defs_trimmed(bk, max_size, ns);
    let (defs, combinators) = float_combinators::floated_defs(bk, max_size, ns);
    if !combinators.contains_key(n) {
        settled_laws::lemma_floated_dom(bk, max_size, ns);
        assert(ns.to_set().contains(n));
        assert(ns.contains(n));
    }
}

} // verus!
