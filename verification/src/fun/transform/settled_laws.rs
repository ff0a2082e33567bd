//! What floating combinators leaves behind.

use crate::fun::book::Bk;
use crate::fun::term;
use crate::fun::term::{Dm, Th, Tm};
use crate::fun::transform::facts;
use crate::fun::transform::float_children;
use crate::fun::transform::float_combinators;
use crate::fun::transform::float_combinators::{Env, Float};
use crate::fun::transform::float_laws;
use crate::fun::transform::safety;
use crate::name;
use crate::name::Str;
use vstd::prelude::*;

verus! {

/// Among the terms below a term that combinators are floated from, and those
/// below these, every combinator that is not empty is safe.
pub open spec fn is_settled(t: Tm, names: Set<Str>) -> bool
    decreases float_combinators::nodes(t),
{
    proof {
        lemma_nodes_kids(t);
    }
    forall|i: int|
        0 <= i < float_children::float_kids(t).len() ==> {
            let k = #[trigger] float_children::float_kids(t)[i];
            may_stay(k, names) && is_settled(k, names)
        }
}

/// The term is no combinator, or empty, or safe.
pub open spec fn may_stay(t: Tm, names: Set<Str>) -> bool {
    facts::is_combinator(t) && facts::size(t) > 0 ==> safety::is_safe(t, names)
}

spec fn are_settled(ts: Seq<Tm>, names: Set<Str>) -> bool {
    forall|i: int| 0 <= i < ts.len() ==> is_settled(#[trigger] ts[i], names)
}

spec fn all_may_stay(ts: Seq<Tm>, names: Set<Str>) -> bool {
    forall|i: int| 0 <= i < ts.len() ==> may_stay(#[trigger] ts[i], names)
}

pub proof fn lemma_nodes_kids(t: Tm)
    ensures
        forall|i: int|
            0 <= i < float_children::float_kids(t).len() ==> float_combinators::nodes(
                #[trigger] float_children::float_kids(t)[i],
            ) < float_combinators::nodes(t),
{
    let ks = float_children::float_kids(t);
    float_combinators::lemma_nodes_float_kids(t);
    assert forall|i: int| 0 <= i < ks.len() implies float_combinators::nodes(#[trigger] ks[i])
        < float_combinators::nodes(t) by {
        float_combinators::lemma_nodes_take(ks, i);
    }
}

/* More names */

proof fn lemma_safe_more(t: Tm, a: Set<Str>, b: Set<Str>)
    requires
        a.subset_of(b),
        safety::is_safe(t, a),
    ensures
        safety::is_safe(t, b),
    decreases t, 0nat,
{
    if let Th::Lam(_, p) = t.head {
        lemma_safe_body_more(t.kids[0], term::pat_binds(p), a, b);
    } else {
        assert forall|i: int| 0 <= i < t.kids.len() && !(t.head is Ref) implies safety::is_safe(
            #[trigger] t.kids[i],
            b,
        ) by {
            lemma_safe_more(t.kids[i], a, b);
        }
    }
}

proof fn lemma_safe_body_more(t: Tm, scope: Seq<Option<Str>>, a: Set<Str>, b: Set<Str>)
    requires
        a.subset_of(b),
        safety::is_safe_body(t, scope, a),
    ensures
        safety::is_safe_body(t, scope, b),
    decreases t, 1nat,
{
    match t.head {
        Th::Lam(_, p) => {
            lemma_safe_body_more(t.kids[0], scope + term::pat_binds(p), a, b);
        },
        Th::Var(_) => {},
        Th::Ref(_) => {},
        _ => {
            lemma_safe_more(t, a, b);
        },
    }
}

proof fn lemma_settled_more(t: Tm, a: Set<Str>, b: Set<Str>)
    requires
        a.subset_of(b),
        is_settled(t, a),
    ensures
        is_settled(t, b),
    decreases float_combinators::nodes(t),
{
    let ks = float_children::float_kids(t);
    lemma_nodes_kids(t);
    assert forall|i: int| 0 <= i < ks.len() implies may_stay(#[trigger] ks[i], b) && is_settled(
        ks[i],
        b,
    ) by {
        assert(may_stay(ks[i], a) && is_settled(ks[i], a));
        if facts::is_combinator(ks[i]) && facts::size(ks[i]) > 0 {
            lemma_safe_more(ks[i], a, b);
        }
        lemma_settled_more(ks[i], a, b);
    }
}

/* The terms that combinators are floated from */

/// An application of a function to an argument.
pub open spec fn is_app(t: Tm) -> bool {
    t.head is App && t.kids.len() == 2
}

/// Only applications become applications.
pub open spec fn keeps_apps(us: Seq<Tm>, ts: Seq<Tm>) -> bool {
    &&& us.len() == ts.len()
    &&& forall|i: int| 0 <= i < ts.len() && is_app(#[trigger] us[i]) ==> is_app(ts[i])
}

proof fn lemma_respine_kids(t: Tm, ks: Seq<Tm>)
    requires
        keeps_apps(ks, float_children::spine(t)),
    ensures
        float_children::spine(float_children::respine(t, ks)) == ks,
    decreases t,
{
    let s = float_children::spine(t);
    if is_app(t) {
        let rest = float_children::spine(t.kids[0]);
        let qs = ks.drop_first();
        assert forall|i: int| 0 <= i < rest.len() && is_app(#[trigger] qs[i]) implies is_app(
            rest[i],
        ) by {
            assert(qs[i] == ks[i + 1]);
            assert(rest[i] == s[i + 1]);
        }
        lemma_respine_kids(t.kids[0], qs);
        assert(seq![ks[0]] + qs =~= ks);
    } else {
        assert(s[0] == t);
        assert(!is_app(ks[0]));
        assert(seq![ks[0]] =~= ks);
    }
}

/// The terms that were put in are those that combinators are floated from.
pub proof fn lemma_float_kids_back(t: Tm, ks: Seq<Tm>)
    requires
        keeps_apps(ks, float_children::float_kids(t)),
    ensures
        float_children::float_kids(float_children::with_float_kids(t, ks)) == ks,
    decreases t,
{
    match t.head {
        Th::App(_) => {
            if t.kids.len() == 2 {
                lemma_respine_kids(t, ks);
            } else {
                assert(ks =~= Seq::empty());
            }
        },
        Th::Lam(_, _) => {
            if t.kids.len() == 1 {
                lemma_float_kids_back(t.kids[0], ks);
            } else {
                assert(ks =~= Seq::empty());
            }
        },
        Th::Mat(_) => {},
        Th::Swt(_) => {},
        Th::Fan(_, _) => {},
        Th::List => {},
        Th::Let(_) => {},
        Th::Use(_) => {},
        Th::Oper(_) => {},
        _ => {
            assert(ks =~= Seq::empty());
        },
    }
}

/* Floating */

spec fn names_of(env: Env, f: Float) -> Set<Str> {
    float_combinators::known(env.def_safety, env.constructors, f.combinators)
}

/// The next names of the definition are free, and the combinators are settled.
spec fn is_calm(env: Env, f: Float) -> bool {
    &&& forall|k: nat|
        f.combinators.contains_key(#[trigger] float_combinators::combinator_name(env.name, k))
            ==> k < f.name_gen
    &&& are_calm(f.combinators, names_of(env, f))
}

spec fn are_calm(combinators: Map<Str, (bool, Dm)>, names: Set<Str>) -> bool {
    forall|n: Str| #[trigger]
        combinators.contains_key(n) ==> is_settled(term::body_of(combinators[n].1), names)
}

/// The combinators are among the others, and the others come from the definition.
spec fn is_more(env: Env, f: Float, g: Float) -> bool {
    &&& forall|n: Str| #[trigger]
        f.combinators.contains_key(n) ==> g.combinators.contains_key(n) && g.combinators[n]
            == f.combinators[n]
    &&& forall|n: Str| #[trigger]
        g.combinators.contains_key(n) ==> f.combinators.contains_key(n) || exists|k: nat|
            n == #[trigger] float_combinators::combinator_name(env.name, k)
}

proof fn lemma_more_names(env: Env, f: Float, g: Float)
    requires
        is_more(env, f, g),
    ensures
        names_of(env, f).subset_of(names_of(env, g)),
{
    assert forall|n: Str| names_of(env, f).contains(n) implies names_of(env, g).contains(n) by {
        assert(f.combinators.contains_key(n) ==> g.combinators.contains_key(n));
    }
}

proof fn lemma_more_trans(env: Env, f: Float, g: Float, h: Float)
    requires
        is_more(env, f, g),
        is_more(env, g, h),
    ensures
        is_more(env, f, h),
{
    assert forall|n: Str| #[trigger] f.combinators.contains_key(n) implies h.combinators.contains_key(
        n,
    ) && h.combinators[n] == f.combinators[n] by {
        assert(g.combinators.contains_key(n));
    }
    assert forall|n: Str| #[trigger] h.combinators.contains_key(n) implies f.combinators.contains_key(
        n,
    ) || exists|k: nat| n == #[trigger] float_combinators::combinator_name(env.name, k) by {
        assert(g.combinators.contains_key(n) || !g.combinators.contains_key(n));
    }
}

proof fn lemma_extracted_calm(env: Env, f: Float, t: Tm)
    requires
        is_calm(env, f),
        is_settled(t, names_of(env, f)),
    ensures
        ({
            let (u, g) = float_combinators::extracted(env, f, t);
            &&& is_calm(env, g)
            &&& is_more(env, f, g)
            &&& is_settled(u, names_of(env, g))
            &&& may_stay(u, names_of(env, g))
            &&& !is_app(u)
        }),
{
    let nam = float_combinators::combinator_name(env.name, f.name_gen);
    let (u, g) = float_combinators::extracted(env, f, t);
    assert(!f.combinators.contains_key(nam));
    assert forall|k: nat|
        g.combinators.contains_key(#[trigger] float_combinators::combinator_name(env.name, k)) implies k
        < g.name_gen by {
        let x = float_combinators::combinator_name(env.name, k);
        if x == nam {
            float_laws::law_combinator_names(env.name, k, env.name, f.name_gen);
        } else {
            assert(f.combinators.contains_key(x));
        }
    }
    lemma_more_names(env, f, g);
    assert forall|n: Str| #[trigger] g.combinators.contains_key(n) implies is_settled(
        term::body_of(g.combinators[n].1),
        names_of(env, g),
    ) by {
        if n == nam {
            lemma_settled_more(t, names_of(env, f), names_of(env, g));
        } else {
            assert(f.combinators.contains_key(n));
            lemma_settled_more(
                term::body_of(f.combinators[n].1),
                names_of(env, f),
                names_of(env, g),
            );
        }
    }
    assert(u.head is Ref);
}

proof fn lemma_extracted_all_calm(env: Env, in_combinator: bool, size: int, f: Float, ts: Seq<Tm>)
    requires
        is_calm(env, f),
        are_settled(ts, names_of(env, f)),
    ensures
        ({
            let (us, s, g) = float_combinators::extracted_all(env, in_combinator, size, f, ts);
            &&& is_calm(env, g)
            &&& is_more(env, f, g)
            &&& are_settled(us, names_of(env, g))
            &&& all_may_stay(us, names_of(env, g))
            &&& keeps_apps(us, ts)
        }),
    decreases ts.len(),
{
    if ts.len() > 0 {
        let init = ts.drop_last();
        let child = ts.last();
        let (ks, s, g) = float_combinators::extracted_all(env, in_combinator, size, f, init);
        assert forall|i: int| 0 <= i < init.len() implies is_settled(
            #[trigger] init[i],
            names_of(env, f),
        ) by {
            assert(init[i] == ts[i]);
        }
        lemma_extracted_all_calm(env, in_combinator, size, f, init);
        lemma_more_names(env, f, g);
        assert(is_settled(ts[ts.len() - 1], names_of(env, f)));
        lemma_settled_more(child, names_of(env, f), names_of(env, g));
        let (us, _, h) = float_combinators::extracted_all(env, in_combinator, size, f, ts);
        if float_combinators::is_extracted(env, in_combinator, s, g, child) {
            lemma_extracted_calm(env, g, child);
            lemma_more_trans(env, f, g, h);
        }
        lemma_more_names(env, g, h);
        assert forall|i: int| 0 <= i < us.len() implies is_settled(
            #[trigger] us[i],
            names_of(env, h),
        ) && may_stay(us[i], names_of(env, h)) && (is_app(us[i]) ==> is_app(ts[i])) by {
            if i < init.len() {
                assert(us[i] == ks[i] && init[i] == ts[i]);
                assert(is_settled(ks[i], names_of(env, g)) && may_stay(ks[i], names_of(env, g)));
                lemma_settled_more(ks[i], names_of(env, g), names_of(env, h));
                if facts::is_combinator(ks[i]) && facts::size(ks[i]) > 0 {
                    lemma_safe_more(ks[i], names_of(env, g), names_of(env, h));
                }
            }
        }
    }
}

proof fn lemma_floated_calm(env: Env, f: Float, t: Tm)
    requires
        is_calm(env, f),
    ensures
        ({
            let (u, g) = float_combinators::floated(env, f, t);
            &&& is_calm(env, g)
            &&& is_more(env, f, g)
            &&& is_settled(u, names_of(env, g))
            &&& is_app(u) ==> is_app(t)
        }),
    decreases float_combinators::nodes(t), 0nat,
{
    float_combinators::lemma_nodes_float_kids(t);
    let qs = float_children::float_kids(t);
    let (ks, g) = float_combinators::floated_all(env, f, qs);
    lemma_floated_all_calm(env, f, qs);
    let u = float_children::with_float_kids(t, ks);
    lemma_float_kids_back(t, ks);
    let (in_combinator, size) = (facts::is_combinator(u), facts::size(u) as int);
    let (rs, s, h) = float_combinators::extracted_all(env, in_combinator, size, g, ks);
    lemma_extracted_all_calm(env, in_combinator, size, g, ks);
    lemma_more_trans(env, f, g, h);
    let r = float_children::with_float_kids(u, rs);
    lemma_float_kids_back(u, rs);
    float_children::lemma_with_float_kids_size(t, ks);
    float_children::lemma_with_float_kids_size(u, rs);
    lemma_nodes_kids(r);
    assert forall|i: int| 0 <= i < rs.len() implies may_stay(
        #[trigger] float_children::float_kids(r)[i],
        names_of(env, h),
    ) && is_settled(float_children::float_kids(r)[i], names_of(env, h)) by {
        assert(may_stay(rs[i], names_of(env, h)) && is_settled(rs[i], names_of(env, h)));
    }
}

proof fn lemma_floated_all_calm(env: Env, f: Float, ts: Seq<Tm>)
    requires
        is_calm(env, f),
    ensures
        ({
            let (us, g) = float_combinators::floated_all(env, f, ts);
            &&& is_calm(env, g)
            &&& is_more(env, f, g)
            &&& are_settled(us, names_of(env, g))
            &&& keeps_apps(us, ts)
        }),
    decreases float_combinators::nodes_all(ts), ts.len() + 1,
{
    if ts.len() > 0 {
        let init = ts.drop_last();
        let (ks, g) = float_combinators::floated_all(env, f, init);
        lemma_floated_all_calm(env, f, init);
        let (k, h) = float_combinators::floated(env, g, ts.last());
        lemma_floated_calm(env, g, ts.last());
        lemma_more_trans(env, f, g, h);
        lemma_more_names(env, g, h);
        let us = ks.push(k);
        assert forall|i: int| 0 <= i < us.len() implies is_settled(
            #[trigger] us[i],
            names_of(env, h),
        ) && (is_app(us[i]) ==> is_app(ts[i])) by {
            if i < init.len() {
                assert(us[i] == ks[i] && init[i] == ts[i]);
                lemma_settled_more(ks[i], names_of(env, g), names_of(env, h));
            }
        }
    }
}

/* Programs */

/// The names that can be referred to safely after floating.
pub open spec fn safe_names(bk: Bk, max_size: nat) -> Set<Str> {
    names_after(bk, max_size, name::in_order(bk.defs.dom()))
}

/// The names that can be referred to safely after the definitions with these
/// names were floated.
pub open spec fn names_after(bk: Bk, max_size: nat, ns: Seq<Str>) -> Set<Str> {
    float_combinators::known(
        safety::def_safety(bk),
        bk.ctrs.dom(),
        float_combinators::floated_defs(bk, max_size, ns).1,
    )
}

/// The combinators come from definitions with these names.
spec fn come_from(combinators: Map<Str, (bool, Dm)>, ns: Seq<Str>) -> bool {
    forall|n: Str| #[trigger]
        combinators.contains_key(n) ==> exists|d: Str, k: nat|
            n == #[trigger] float_combinators::combinator_name(d, k) && ns.contains(d)
}

proof fn lemma_floated_defs_calm(bk: Bk, max_size: nat, ns: Seq<Str>)
    requires
        ns.no_duplicates(),
    ensures
        ({
            let (defs, combinators) = float_combinators::floated_defs(bk, max_size, ns);
            let names = names_after(bk, max_size, ns);
            &&& come_from(combinators, ns)
            &&& are_calm(combinators, names)
            &&& forall|n: Str| #[trigger]
                ns.contains(n) && bk.entrypoint != Some(n) ==> is_settled(
                    term::body_of(defs[n]),
                    names,
                )
        }),
    decreases ns.len(),
{
    let (defs2, combinators2) = float_combinators::floated_defs(bk, max_size, ns);
    let names = names_after(bk, max_size, ns);
    if ns.len() > 0 {
        let init = ns.drop_last();
        let d = ns.last();
        lemma_floated_defs_calm(bk, max_size, init);
        let (defs1, combinators1) = float_combinators::floated_defs(bk, max_size, init);
        let before = names_after(bk, max_size, init);
        assert forall|x: Str| init.contains(x) implies ns.contains(x) && x != d by {
            let i = choose|i: int| 0 <= i < init.len() && init[i] == x;
            assert(ns[i] == x);
        }
        assert forall|x: Str| ns.contains(x) implies init.contains(x) || x == d by {
            let i = choose|i: int| 0 <= i < ns.len() && ns[i] == x;
            if i < init.len() {
                assert(init[i] == x);
            }
        }
        assert(ns[ns.len() - 1] == d);
        assert forall|n: Str| #[trigger] combinators1.contains_key(n) implies exists|c: Str, k: nat|
            n == #[trigger] float_combinators::combinator_name(c, k) && ns.contains(c) by {
            let (c, k) = choose|c: Str, k: nat|
                n == #[trigger] float_combinators::combinator_name(c, k) && init.contains(c);
            assert(ns.contains(c));
        }
        if bk.entrypoint != Some(d) {
            let body = term::body_of(bk.defs[d]);
            let env = float_combinators::program_env(bk, max_size, d);
            let f = Float {
                combinators: combinators1,
                name_gen: 0,
                def_size: facts::size(body) as int,
            };
            let (u, g) = float_combinators::floated(env, f, body);
            assert forall|k: nat|
                !f.combinators.contains_key(#[trigger] float_combinators::combinator_name(env.name, k)) by {
                let n = float_combinators::combinator_name(env.name, k);
                if f.combinators.contains_key(n) {
                    let (c, j) = choose|c: Str, j: nat|
                        n == #[trigger] float_combinators::combinator_name(c, j) && init.contains(c);
                    float_laws::law_combinator_names(d, k, c, j);
                }
            }
            lemma_floated_calm(env, f, body);
            lemma_more_names(env, f, g);
            assert forall|n: Str| #[trigger] combinators2.contains_key(n) implies exists|
                c: Str,
                k: nat,
            |
                n == #[trigger] float_combinators::combinator_name(c, k) && ns.contains(c) by {
                if !combinators1.contains_key(n) {
                    let k = choose|k: nat| n == #[trigger] float_combinators::combinator_name(env.name, k);
                    assert(n == float_combinators::combinator_name(d, k) && ns.contains(d));
                }
            }
            assert forall|n: Str| #[trigger] ns.contains(n) && bk.entrypoint != Some(n) implies is_settled(
                term::body_of(defs2[n]),
                names,
            ) by {
                if n != d {
                    lemma_settled_more(term::body_of(defs1[n]), before, names);
                }
            }
        }
    }
}

/// Floating leaves no unsafe combinator below another term: among the terms that
/// combinators are floated from, every combinator that is not empty is safe. The
/// definitions that floating adds are no exception, the entrypoint is one.
pub proof fn law_float_leaves_safe(bk: Bk, max_size: nat, n: Str)
    requires
        bk.defs.dom().finite(),
        float_combinators::floated_book(bk, max_size).defs.contains_key(n),
        bk.entrypoint != Some(n),
    ensures
        is_settled(
            term::body_of(float_combinators::floated_book(bk, max_size).defs[n]),
            safe_names(bk, max_size),
        ),
{
    let ns = name::in_order(bk.defs.dom());
    name::lemma_finite_in_order(bk.defs.dom());
    name::lemma_sorted_no_duplicates(ns);
    lemma_floated_defs_calm(bk, max_size, ns);
    let (defs, combinators) = float_combinators::floated_defs(bk, max_size, ns);
    if !combinators.contains_key(n) {
        lemma_floated_dom(bk, max_size, ns);
        assert(ns.to_set().contains(n));
        assert(ns.contains(n));
    }
}

pub proof fn lemma_floated_dom(bk: Bk, max_size: nat, ns: Seq<Str>)
    requires
        ns.to_set().subset_of(bk.defs.dom()),
    ensures
        float_combinators::floated_defs(bk, max_size, ns).0.dom() == bk.defs.dom(),
    decreases ns.len(),
{
    if ns.len() > 0 {
        let init = ns.drop_last();
        assert forall|x: Str| init.to_set().contains(x) implies bk.defs.dom().contains(x) by {
            let i = choose|i: int| 0 <= i < init.len() && init[i] == x;
            assert(ns[i] == x);
            assert(ns.to_set().contains(x));
        }
        lemma_floated_dom(bk, max_size, init);
        assert(ns[ns.len() - 1] == ns.last());
        assert(ns.to_set().contains(ns.last()));
        assert(float_combinators::floated_defs(bk, max_size, ns).0.dom() =~= bk.defs.dom());
    }
}

} // verus!
