//! What floating combinators keeps of a program.

use crate::fun::book::Bk;
use crate::fun::term;
use crate::fun::term::{Dm, Th, Tm};
use crate::fun::transform::facts;
use crate::fun::transform::float_children;
use crate::fun::transform::float_combinators;
use crate::fun::transform::float_combinators::{Env, Float};
use crate::name;
use crate::name::Str;
use vstd::prelude::*;

verus! {

/* Names */

/// The name is one that a combinator of one of the definitions can get.
pub open spec fn is_generated(x: Str, ds: Set<Str>) -> bool {
    exists|d: Str, k: nat|
        x == #[trigger] float_combinators::combinator_name(d, k) && ds.contains(d)
}

/// Combinators of different definitions, and different combinators of one
/// definition, have different names.
pub proof fn law_combinator_names(c: Str, i: nat, d: Str, j: nat)
    requires
        float_combinators::combinator_name(c, i) == float_combinators::combinator_name(d, j),
    ensures
        c == d,
        i == j,
{
    let sep = float_combinators::NAME_SEP@;
    reveal_strlit("__C");
    assert(sep.len() == 3 && sep[2] == 'C');
    let (a, b) = (name::decimal(i), name::decimal(j));
    let x = float_combinators::combinator_name(c, i);
    let y = float_combinators::combinator_name(d, j);
    assert(x[x.len() - a.len() - 1] == 'C');
    assert(y[y.len() - b.len() - 1] == 'C');
    if a.len() < b.len() {
        let p = b.len() - a.len() - 1;
        assert(y[y.len() - a.len() - 1] == b[p]);
        name::lemma_decimal_digits(j, p);
    } else if b.len() < a.len() {
        let p = a.len() - b.len() - 1;
        assert(x[x.len() - b.len() - 1] == a[p]);
        name::lemma_decimal_digits(i, p);
    }
    assert(a =~= x.skip(x.len() - a.len()));
    assert(b =~= y.skip(y.len() - b.len()));
    name::lemma_decimal_injective(i, j);
    assert(c =~= x.take(x.len() - a.len() - 3));
    assert(d =~= y.take(y.len() - b.len() - 3));
}

/// No reference in the term has a name that a combinator of one of the
/// definitions can get.
pub open spec fn is_clean(t: Tm, ds: Set<Str>) -> bool
    decreases t,
{
    &&& match t.head {
        Th::Ref(n) => !is_generated(n, ds),
        _ => true,
    }
    &&& forall|i: int| 0 <= i < t.kids.len() ==> is_clean(#[trigger] t.kids[i], ds)
}

/* Expansion */

/// What a term stands for: the body of a combinator for a reference to it.
pub open spec fn resolved(u: Tm, combinators: Map<Str, Dm>) -> Tm {
    match u.head {
        Th::Ref(n) => if combinators.contains_key(n) && u.kids.len() == 0 {
            term::body_of(combinators[n])
        } else {
            u
        },
        _ => u,
    }
}

/// The term `u` becomes `t` when the references to combinators in it are
/// replaced by what they stand for, and so on in what takes their place.
pub open spec fn expands_to(u: Tm, t: Tm, combinators: Map<Str, Dm>) -> bool
    decreases t,
{
    let v = resolved(u, combinators);
    &&& v.head == t.head
    &&& v.kids.len() == t.kids.len()
    &&& forall|i: int|
        0 <= i < t.kids.len() ==> expands_to(v.kids[i], #[trigger] t.kids[i], combinators)
}

/// Every combinator has a name that one of the definitions can give it.
spec fn are_generated(m: Map<Str, Dm>, ds: Set<Str>) -> bool {
    forall|n: Str| #[trigger] m.contains_key(n) ==> is_generated(n, ds)
}

spec fn is_part(a: Map<Str, Dm>, b: Map<Str, Dm>) -> bool {
    forall|n: Str| #[trigger] a.contains_key(n) ==> b.contains_key(n) && b[n] == a[n]
}

proof fn lemma_expands_more(u: Tm, t: Tm, a: Map<Str, Dm>, b: Map<Str, Dm>, ds: Set<Str>)
    requires
        expands_to(u, t, a),
        is_clean(t, ds),
        is_part(a, b),
        are_generated(b, ds),
    ensures
        expands_to(u, t, b),
    decreases t,
{
    let v = resolved(u, a);
    if u.head is Ref && a.contains_key(u.head->Ref_0) {
        assert(b.contains_key(u.head->Ref_0));
    }
    assert(resolved(u, b) == v);
    assert forall|i: int| 0 <= i < t.kids.len() implies expands_to(
        v.kids[i],
        #[trigger] t.kids[i],
        b,
    ) by {
        lemma_expands_more(v.kids[i], t.kids[i], a, b, ds);
    }
}

proof fn lemma_expands_same(t: Tm, m: Map<Str, Dm>, ds: Set<Str>)
    requires
        is_clean(t, ds),
        are_generated(m, ds),
    ensures
        expands_to(t, t, m),
    decreases t,
{
    assert forall|i: int| 0 <= i < t.kids.len() implies expands_to(
        t.kids[i],
        #[trigger] t.kids[i],
        m,
    ) by {
        lemma_expands_same(t.kids[i], m, ds);
    }
}

/* The terms that combinators are floated from */

/// The terms become those of `ts` when they are expanded.
spec fn all_expand_to(us: Seq<Tm>, ts: Seq<Tm>, m: Map<Str, Dm>) -> bool {
    &&& us.len() == ts.len()
    &&& forall|i: int| 0 <= i < ts.len() ==> expands_to(us[i], #[trigger] ts[i], m)
}

spec fn are_clean(ts: Seq<Tm>, ds: Set<Str>) -> bool {
    forall|i: int| 0 <= i < ts.len() ==> is_clean(#[trigger] ts[i], ds)
}

/// The terms have the same tops.
spec fn same_tops(us: Seq<Tm>, ts: Seq<Tm>) -> bool {
    &&& us.len() == ts.len()
    &&& forall|i: int|
        0 <= i < ts.len() ==> us[i].head == (#[trigger] ts[i]).head && us[i].kids.len()
            == ts[i].kids.len()
}

proof fn lemma_respine(t: Tm, ks: Seq<Tm>, m: Map<Str, Dm>, ds: Set<Str>)
    requires
        is_clean(t, ds),
        ks.len() == float_children::spine(t).len(),
    ensures
        are_clean(float_children::spine(t), ds),
        all_expand_to(ks, float_children::spine(t), m) ==> expands_to(
            float_children::respine(t, ks),
            t,
            m,
        ),
        same_tops(ks, float_children::spine(t)) ==> float_children::spine(
            float_children::respine(t, ks),
        ) == ks,
        same_tops(ks, float_children::spine(t)) ==> forall|rs: Seq<Tm>|
            rs.len() == ks.len() ==> #[trigger] float_children::respine(
                float_children::respine(t, ks),
                rs,
            ) == float_children::respine(t, rs),
    decreases t,
{
    let s = float_children::spine(t);
    let r = float_children::respine(t, ks);
    if t.head is App && t.kids.len() == 2 {
        let rest = float_children::spine(t.kids[0]);
        let qs = ks.drop_first();
        assert(is_clean(t.kids[0], ds) && is_clean(t.kids[1], ds));
        lemma_respine(t.kids[0], qs, m, ds);
        assert(s[0] == t.kids[1]);
        assert forall|i: int| 0 < i < s.len() implies s[i] == rest[i - 1] by {}
        assert forall|i: int| 0 <= i < s.len() implies is_clean(#[trigger] s[i], ds) by {
            if i > 0 {
                assert(s[i] == rest[i - 1]);
            }
        }
        if all_expand_to(ks, s, m) {
            assert forall|i: int| 0 <= i < rest.len() implies expands_to(
                qs[i],
                #[trigger] rest[i],
                m,
            ) by {
                assert(rest[i] == s[i + 1]);
                assert(expands_to(ks[i + 1], s[i + 1], m));
            }
            assert(expands_to(ks[0], s[0], m));
            assert forall|i: int| 0 <= i < t.kids.len() implies expands_to(
                r.kids[i],
                #[trigger] t.kids[i],
                m,
            ) by {}
        }
        if same_tops(ks, s) {
            assert forall|i: int| 0 <= i < rest.len() implies qs[i].head == (#[trigger] rest[i]).head
                && qs[i].kids.len() == rest[i].kids.len() by {
                assert(rest[i] == s[i + 1]);
                assert(ks[i + 1].head == s[i + 1].head);
            }
            assert(seq![ks[0]] + qs =~= ks);
            assert forall|rs: Seq<Tm>| rs.len() == ks.len() implies #[trigger]
                float_children::respine(r, rs) == float_children::respine(t, rs) by {
                assert(float_children::respine(r.kids[0], rs.drop_first())
                    == float_children::respine(t.kids[0], rs.drop_first()));
            }
        }
    } else {
        assert(s[0] == t);
        if all_expand_to(ks, s, m) {
            assert(expands_to(ks[0], s[0], m));
        }
        if same_tops(ks, s) {
            assert(ks[0].head == s[0].head);
            assert(seq![ks[0]] =~= ks);
        }
    }
}

proof fn lemma_with_float_kids(t: Tm, ks: Seq<Tm>, m: Map<Str, Dm>, ds: Set<Str>)
    requires
        is_clean(t, ds),
        are_generated(m, ds),
        ks.len() == float_children::float_kids(t).len(),
    ensures
        are_clean(float_children::float_kids(t), ds),
        all_expand_to(ks, float_children::float_kids(t), m) ==> expands_to(
            float_children::with_float_kids(t, ks),
            t,
            m,
        ),
        same_tops(ks, float_children::float_kids(t)) ==> float_children::float_kids(
            float_children::with_float_kids(t, ks),
        ) == ks,
        same_tops(ks, float_children::float_kids(t)) ==> forall|rs: Seq<Tm>|
            rs.len() == ks.len() ==> #[trigger] float_children::with_float_kids(
                float_children::with_float_kids(t, ks),
                rs,
            ) == float_children::with_float_kids(t, rs),
    decreases t,
{
    let r = float_children::with_float_kids(t, ks);
    lemma_expands_same(t, m, ds);
    match t.head {
        Th::App(_) => {
            if t.kids.len() == 2 {
                lemma_respine(t, ks, m, ds);
            } else {
                assert(ks =~= Seq::empty());
            }
        },
        Th::Lam(_, _) => {
            if t.kids.len() == 1 {
                let k = t.kids[0];
                assert(is_clean(k, ds));
                lemma_with_float_kids(k, ks, m, ds);
                if all_expand_to(ks, float_children::float_kids(t), m) {
                    assert(expands_to(r.kids[0], t.kids[0], m));
                }
                if same_tops(ks, float_children::float_kids(t)) {
                    assert forall|rs: Seq<Tm>| rs.len() == ks.len() implies #[trigger]
                        float_children::with_float_kids(r, rs) == float_children::with_float_kids(
                        t,
                        rs,
                    ) by {
                        assert(float_children::with_float_kids(r.kids[0], rs)
                            == float_children::with_float_kids(k, rs));
                    }
                }
            } else {
                assert(ks =~= Seq::empty());
            }
        },
        Th::Mat(_) => {},
        Th::Swt(_) => {},
        Th::Fan(_, _) => {},
        Th::List => {},
        Th::Let(_) => {},
        Th::Use(_) => {},
        Th::Oper(_) => {},
        _ => {
            assert(ks =~= Seq::empty());
        },
    }
}

/* Floating */

/// The combinators are closed and have names that are given to combinators,
/// and the next names of the definition are free.
spec fn is_good(env: Env, f: Float, ds: Set<Str>) -> bool {
    &&& ds.contains(env.name)
    &&& forall|n: Str| #[trigger]
        f.combinators.contains_key(n) ==> {
            &&& is_generated(n, ds)
            &&& facts::is_combinator(term::body_of(f.combinators[n].1))
        }
    &&& forall|k: nat|
        f.combinators.contains_key(#[trigger] float_combinators::combinator_name(env.name, k))
            ==> k < f.name_gen
}

spec fn defs(f: Float) -> Map<Str, Dm> {
    float_combinators::combinator_defs(f.combinators)
}

/// The combinators of `f` are among those of `g`, and the others come from the
/// definition.
spec fn is_grown(env: Env, f: Float, g: Float) -> bool {
    &&& is_part(defs(f), defs(g))
    &&& forall|n: Str| #[trigger]
        g.combinators.contains_key(n) ==> f.combinators.contains_key(n) || exists|k: nat|
            n == #[trigger] float_combinators::combinator_name(env.name, k)
}

/// Each term is as before, or a reference to the combinator that it was.
spec fn are_extracted(us: Seq<Tm>, ts: Seq<Tm>, m: Map<Str, Dm>) -> bool {
    &&& us.len() == ts.len()
    &&& forall|i: int|
        0 <= i < ts.len() ==> #[trigger] us[i] == ts[i] || is_ref_to(us[i], ts[i], m)
}

spec fn is_ref_to(u: Tm, t: Tm, m: Map<Str, Dm>) -> bool {
    &&& u.head is Ref
    &&& u.kids.len() == 0
    &&& m.contains_key(u.head->Ref_0)
    &&& term::body_of(m[u.head->Ref_0]) == t
    &&& facts::is_combinator(t)
}

proof fn lemma_extracted(env: Env, f: Float, t: Tm, ds: Set<Str>)
    requires
        is_good(env, f, ds),
        facts::is_combinator(t),
    ensures
        is_good(env, float_combinators::extracted(env, f, t).1, ds),
        is_grown(env, f, float_combinators::extracted(env, f, t).1),
        is_ref_to(
            float_combinators::extracted(env, f, t).0,
            t,
            defs(float_combinators::extracted(env, f, t).1),
        ),
{
    let nam = float_combinators::combinator_name(env.name, f.name_gen);
    let (u, g) = float_combinators::extracted(env, f, t);
    assert(is_generated(nam, ds));
    assert(!f.combinators.contains_key(nam));
    assert forall|k: nat|
        g.combinators.contains_key(#[trigger] float_combinators::combinator_name(env.name, k)) implies k
        < g.name_gen by {
        let x = float_combinators::combinator_name(env.name, k);
        if x == nam {
            law_combinator_names(env.name, k, env.name, f.name_gen);
        } else {
            assert(f.combinators.contains_key(x));
        }
    }
    assert forall|n: Str| #[trigger] defs(f).contains_key(n) implies defs(g).contains_key(n)
        && defs(g)[n] == defs(f)[n] by {
        assert(f.combinators.contains_key(n));
    }
}

proof fn lemma_extracted_all(
    env: Env,
    in_combinator: bool,
    size: int,
    f: Float,
    ts: Seq<Tm>,
    ds: Set<Str>,
)
    requires
        is_good(env, f, ds),
    ensures
        ({
            let (us, s, g) = float_combinators::extracted_all(env, in_combinator, size, f, ts);
            is_good(env, g, ds) && is_grown(env, f, g) && are_extracted(us, ts, defs(g))
        }),
    decreases ts.len(),
{
    if ts.len() > 0 {
        let init = ts.drop_last();
        let child = ts.last();
        let (ks, s, g) = float_combinators::extracted_all(env, in_combinator, size, f, init);
        lemma_extracted_all(env, in_combinator, size, f, init, ds);
        if float_combinators::is_extracted(env, in_combinator, s, g, child) {
            let (k, h) = float_combinators::extracted(env, g, child);
            lemma_extracted(env, g, child, ds);
            let us = ks.push(k);
            assert forall|i: int| 0 <= i < ts.len() implies #[trigger] us[i] == ts[i] || is_ref_to(
                us[i],
                ts[i],
                defs(h),
            ) by {
                if i < init.len() {
                    assert(us[i] == ks[i] && init[i] == ts[i]);
                    assert(ks[i] == init[i] || is_ref_to(ks[i], init[i], defs(g)));
                    if is_ref_to(ks[i], init[i], defs(g)) {
                        assert(defs(g).contains_key(ks[i].head->Ref_0));
                    }
                }
            }
            lemma_grown_more(env, f, g, h);
        } else {
            let us = ks.push(child);
            assert forall|i: int| 0 <= i < ts.len() implies #[trigger] us[i] == ts[i] || is_ref_to(
                us[i],
                ts[i],
                defs(g),
            ) by {
                if i < init.len() {
                    assert(us[i] == ks[i] && init[i] == ts[i]);
                }
            }
        }
    }
}

proof fn lemma_grown_more(env: Env, f: Float, g: Float, h: Float)
    requires
        is_grown(env, f, g),
        is_grown(env, g, h),
    ensures
        is_grown(env, f, h),
{
    assert forall|n: Str| #[trigger] defs(f).contains_key(n) implies defs(h).contains_key(n)
        && defs(h)[n] == defs(f)[n] by {
        assert(defs(g).contains_key(n));
    }
    assert forall|n: Str| #[trigger] h.combinators.contains_key(n) implies f.combinators.contains_key(
        n,
    ) || exists|k: nat| n == #[trigger] float_combinators::combinator_name(env.name, k) by {
        assert(g.combinators.contains_key(n) || !g.combinators.contains_key(n));
    }
}

proof fn lemma_floated(env: Env, f: Float, t: Tm, ds: Set<Str>)
    requires
        is_good(env, f, ds),
        is_clean(t, ds),
    ensures
        ({
            let (u, g) = float_combinators::floated(env, f, t);
            &&& is_good(env, g, ds)
            &&& is_grown(env, f, g)
            &&& expands_to(u, t, defs(g))
            &&& u.head == t.head
            &&& u.kids.len() == t.kids.len()
        }),
    decreases float_combinators::nodes(t), 0nat,
{
    float_combinators::lemma_nodes_float_kids(t);
    let qs = float_children::float_kids(t);
    let (ks, g) = float_combinators::floated_all(env, f, qs);
    lemma_with_float_kids(t, qs, Map::empty(), ds);
    lemma_floated_all(env, f, qs, ds);
    let u = float_children::with_float_kids(t, ks);
    let (rs, s, h) = float_combinators::extracted_all(
        env,
        facts::is_combinator(u),
        facts::size(u) as int,
        g,
        float_children::float_kids(u),
    );
    lemma_with_float_kids(t, ks, defs(g), ds);
    lemma_extracted_all(env, facts::is_combinator(u), facts::size(u) as int, g, ks, ds);
    lemma_grown_more(env, f, g, h);
    assert forall|i: int| 0 <= i < qs.len() implies expands_to(rs[i], #[trigger] qs[i], defs(h)) by {
        lemma_expands_more(ks[i], qs[i], defs(g), defs(h), ds);
        assert(rs[i] == ks[i] || is_ref_to(rs[i], ks[i], defs(h)));
    }
    lemma_with_float_kids(t, rs, defs(h), ds);
    float_children::lemma_with_float_kids_size(t, rs);
}

proof fn lemma_floated_all(env: Env, f: Float, ts: Seq<Tm>, ds: Set<Str>)
    requires
        is_good(env, f, ds),
        are_clean(ts, ds),
    ensures
        ({
            let (us, g) = float_combinators::floated_all(env, f, ts);
            &&& is_good(env, g, ds)
            &&& is_grown(env, f, g)
            &&& all_expand_to(us, ts, defs(g))
            &&& same_tops(us, ts)
        }),
    decreases float_combinators::nodes_all(ts), ts.len() + 1,
{
    if ts.len() > 0 {
        let init = ts.drop_last();
        assert forall|i: int| 0 <= i < init.len() implies is_clean(#[trigger] init[i], ds) by {
            assert(init[i] == ts[i]);
        }
        assert(is_clean(ts[ts.len() - 1], ds));
        let (ks, g) = float_combinators::floated_all(env, f, init);
        lemma_floated_all(env, f, init, ds);
        let (k, h) = float_combinators::floated(env, g, ts.last());
        lemma_floated(env, g, ts.last(), ds);
        lemma_grown_more(env, f, g, h);
        let us = ks.push(k);
        assert forall|i: int| 0 <= i < ts.len() implies expands_to(us[i], #[trigger] ts[i], defs(h))
            && us[i].head == ts[i].head && us[i].kids.len() == ts[i].kids.len() by {
            if i < init.len() {
                assert(init[i] == ts[i]);
                lemma_expands_more(ks[i], init[i], defs(g), defs(h), ds);
            }
        }
    }
}

/// Expansion keeps the free variables, where combinators have none.
proof fn lemma_expands_free(u: Tm, t: Tm, m: Map<Str, Dm>)
    requires
        expands_to(u, t, m),
        forall|n: Str| #[trigger]
            m.contains_key(n) ==> facts::free(term::body_of(m[n])) == Set::<Str>::empty(),
    ensures
        facts::free(u) == facts::free(t),
    decreases t,
{
    let v = resolved(u, m);
    assert forall|i: int| 0 <= i < t.kids.len() implies facts::free(v.kids[i]) == facts::free(
        #[trigger] t.kids[i],
    ) by {
        lemma_expands_free(v.kids[i], t.kids[i], m);
    }
    assert forall|x: Str| facts::free(v).contains(x) <==> facts::free(t).contains(x) by {
        if facts::free(v).contains(x) && v.head != Th::Var(x) {
            let i = choose|i: int|
                0 <= i < v.kids.len() && facts::free(#[trigger] v.kids[i]).contains(x)
                    && !term::kid_binds(v, i).contains(Some(x));
            assert(facts::free(t.kids[i]).contains(x));
            assert(term::kid_binds(v, i) == term::kid_binds(t, i));
        }
        if facts::free(t).contains(x) && t.head != Th::Var(x) {
            let i = choose|i: int|
                0 <= i < t.kids.len() && facts::free(#[trigger] t.kids[i]).contains(x)
                    && !term::kid_binds(t, i).contains(Some(x));
            assert(facts::free(v.kids[i]).contains(x));
            assert(term::kid_binds(v, i) == term::kid_binds(t, i));
        }
    }
    assert(facts::free(v) =~= facts::free(t));
    if v != u {
        assert(facts::free(u) =~= Set::empty());
    }
}

/* Programs */

/// Neither a definition nor a reference has a name that a combinator of one of
/// the definitions can get.
pub open spec fn is_clean_book(bk: Bk) -> bool {
    forall|n: Str| #[trigger]
        bk.defs.contains_key(n) ==> !is_generated(n, bk.defs.dom()) && is_clean(
            term::body_of(bk.defs[n]),
            bk.defs.dom(),
        )
}

/// The definitions that a program has after floating and not before.
pub open spec fn new_defs(bk: Bk, max_size: nat) -> Map<Str, Dm> {
    float_combinators::floated_book(bk, max_size).defs.remove_keys(bk.defs.dom())
}

/// What holds of the definitions with these names after they were floated.
spec fn is_floated(
    bk: Bk,
    names: Seq<Str>,
    defs: Map<Str, Dm>,
    combinators: Map<Str, (bool, Dm)>,
) -> bool {
    let m = float_combinators::combinator_defs(combinators);
    &&& defs.dom() == bk.defs.dom()
    &&& forall|n: Str| #[trigger]
        bk.defs.contains_key(n) ==> {
            &&& defs[n] == float_combinators::with_body(bk.defs[n], term::body_of(defs[n]))
            &&& expands_to(term::body_of(defs[n]), term::body_of(bk.defs[n]), m)
            &&& bk.entrypoint == Some(n) ==> defs[n] == bk.defs[n]
        }
    &&& forall|n: Str| #[trigger]
        combinators.contains_key(n) ==> {
            &&& is_generated(n, bk.defs.dom())
            &&& facts::is_combinator(term::body_of(combinators[n].1))
            &&& is_combinator_of(bk, names, n)
        }
}

/// The name is one of a combinator of one of these definitions.
spec fn is_combinator_of(bk: Bk, names: Seq<Str>, n: Str) -> bool {
    exists|d: Str, k: nat|
        n == #[trigger] float_combinators::combinator_name(d, k) && names.contains(d)
            && bk.entrypoint != Some(d)
}

proof fn lemma_floated_defs(bk: Bk, max_size: nat, names: Seq<Str>)
    requires
        is_clean_book(bk),
        forall|n: Str| #[trigger] bk.defs.contains_key(n) ==> term::has_one_rule(bk.defs[n]),
        names.no_duplicates(),
        names.to_set().subset_of(bk.defs.dom()),
    ensures
        ({
            let (defs, combinators) = float_combinators::floated_defs(bk, max_size, names);
            is_floated(bk, names, defs, combinators)
        }),
        forall|n: Str|
            #![trigger names.contains(n)]
            !names.contains(n) ==> float_combinators::floated_defs(bk, max_size, names).0[n]
                == bk.defs[n],
    decreases names.len(),
{
    let (defs2, combinators2) = float_combinators::floated_defs(bk, max_size, names);
    if names.len() == 0 {
        assert forall|n: Str| #[trigger] bk.defs.contains_key(n) implies bk.defs[n]
            == float_combinators::with_body(bk.defs[n], term::body_of(bk.defs[n])) && expands_to(
            term::body_of(bk.defs[n]),
            term::body_of(bk.defs[n]),
            float_combinators::combinator_defs(combinators2),
        ) by {
            assert(bk.defs[n].rules =~= float_combinators::with_body(
                bk.defs[n],
                term::body_of(bk.defs[n]),
            ).rules);
            lemma_expands_same(
                term::body_of(bk.defs[n]),
                float_combinators::combinator_defs(combinators2),
                bk.defs.dom(),
            );
        }
    } else {
        let init = names.drop_last();
        let d = names.last();
        assert forall|x: Str| init.contains(x) implies names.contains(x) && x != d by {
            let i = choose|i: int| 0 <= i < init.len() && init[i] == x;
            assert(names[i] == x);
        }
        assert forall|x: Str| names.contains(x) implies init.contains(x) || x == d by {
            let i = choose|i: int| 0 <= i < names.len() && names[i] == x;
            if i < init.len() {
                assert(init[i] == x);
            }
        }
        assert(names[names.len() - 1] == d);
        assert(names.contains(d));
        assert(init.to_set().subset_of(bk.defs.dom())) by {
            assert forall|x: Str| init.to_set().contains(x) implies bk.defs.dom().contains(x) by {
                assert(names.to_set().contains(x));
            }
        }
        assert(names.to_set().contains(d));
        lemma_floated_defs(bk, max_size, init);
        let (defs1, combinators1) = float_combinators::floated_defs(bk, max_size, init);
        assert forall|n: Str| #[trigger] combinators1.contains_key(n) implies is_combinator_of(
            bk,
            names,
            n,
        ) by {
            let (c, k) = choose|c: Str, k: nat|
                n == #[trigger] float_combinators::combinator_name(c, k) && init.contains(c)
                    && bk.entrypoint != Some(c);
            assert(names.contains(c));
        }
        if bk.entrypoint != Some(d) {
            let body = term::body_of(bk.defs[d]);
            let env = float_combinators::program_env(bk, max_size, d);
            let f = Float {
                combinators: combinators1,
                name_gen: 0,
                def_size: facts::size(body) as int,
            };
            let (u, g) = float_combinators::floated(env, f, body);
            assert forall|k: nat|
                !f.combinators.contains_key(#[trigger] float_combinators::combinator_name(env.name, k)) by {
                let n = float_combinators::combinator_name(env.name, k);
                if f.combinators.contains_key(n) {
                    let (c, j) = choose|c: Str, j: nat|
                        n == #[trigger] float_combinators::combinator_name(c, j) && init.contains(c)
                            && bk.entrypoint != Some(c);
                    law_combinator_names(d, k, c, j);
                }
            }
            assert(is_good(env, f, bk.defs.dom()));
            lemma_floated(env, f, body, bk.defs.dom());
            assert forall|n: Str| #[trigger] bk.defs.contains_key(n) implies expands_to(
                term::body_of(defs2[n]),
                term::body_of(bk.defs[n]),
                defs(g),
            ) && defs2[n] == float_combinators::with_body(bk.defs[n], term::body_of(defs2[n])) by {
                if n != d {
                    lemma_expands_more(
                        term::body_of(defs1[n]),
                        term::body_of(bk.defs[n]),
                        defs(f),
                        defs(g),
                        bk.defs.dom(),
                    );
                }
            }
            assert forall|n: Str| #[trigger] combinators2.contains_key(n) implies is_combinator_of(
                bk,
                names,
                n,
            ) by {
                if !combinators1.contains_key(n) {
                    let k = choose|k: nat| n == #[trigger] float_combinators::combinator_name(env.name, k);
                    assert(n == float_combinators::combinator_name(d, k) && names.contains(d));
                }
            }
            assert(defs2.dom() =~= bk.defs.dom());
        }
    }
}

proof fn lemma_floated_book(bk: Bk, max_size: nat)
    requires
        bk.defs.dom().finite(),
        is_clean_book(bk),
        forall|n: Str| #[trigger] bk.defs.contains_key(n) ==> term::has_one_rule(bk.defs[n]),
    ensures
        ({
            let names = name::in_order(bk.defs.dom());
            let (defs, combinators) = float_combinators::floated_defs(bk, max_size, names);
            &&& names.to_set() == bk.defs.dom()
            &&& is_floated(bk, names, defs, combinators)
            &&& new_defs(bk, max_size) == float_combinators::combinator_defs(combinators)
            &&& forall|n: Str| #[trigger]
                bk.defs.contains_key(n) ==> float_combinators::floated_book(
                    bk,
                    max_size,
                ).defs.contains_key(n) && float_combinators::floated_book(bk, max_size).defs[n]
                    == defs[n]
        }),
{
    let names = name::in_order(bk.defs.dom());
    name::lemma_finite_in_order(bk.defs.dom());
    name::lemma_sorted_no_duplicates(names);
    lemma_floated_defs(bk, max_size, names);
    let (defs, combinators) = float_combinators::floated_defs(bk, max_size, names);
    let m = float_combinators::combinator_defs(combinators);
    assert forall|n: Str| #[trigger] m.contains_key(n) implies !bk.defs.contains_key(n) by {
        assert(combinators.contains_key(n));
    }
    assert(new_defs(bk, max_size) =~= m);
}

/// Floating keeps what a program says: when references to the new definitions
/// are expanded, every definition has the body that it had. Nothing else of it
/// changes, and nothing at all of the entrypoint.
pub proof fn law_float_keeps_meaning(bk: Bk, max_size: nat, n: Str)
    requires
        bk.defs.dom().finite(),
        is_clean_book(bk),
        forall|d: Str| #[trigger] bk.defs.contains_key(d) ==> term::has_one_rule(bk.defs[d]),
        bk.defs.contains_key(n),
    ensures
        ({
            let d = float_combinators::floated_book(bk, max_size).defs[n];
            &&& float_combinators::floated_book(bk, max_size).defs.contains_key(n)
            &&& d == float_combinators::with_body(bk.defs[n], term::body_of(d))
            &&& expands_to(term::body_of(d), term::body_of(bk.defs[n]), new_defs(bk, max_size))
            &&& facts::free(term::body_of(d)) == facts::free(term::body_of(bk.defs[n]))
            &&& bk.entrypoint == Some(n) ==> d == bk.defs[n]
        }),
{
    lemma_floated_book(bk, max_size);
    let combinators = float_combinators::floated_defs(
        bk,
        max_size,
        name::in_order(bk.defs.dom()),
    ).1;
    let m = new_defs(bk, max_size);
    assert forall|x: Str| #[trigger] m.contains_key(x) implies facts::free(term::body_of(m[x]))
        == Set::<Str>::empty() by {
        assert(combinators.contains_key(x));
    }
    let d = float_combinators::floated_book(bk, max_size).defs[n];
    lemma_expands_free(term::body_of(d), term::body_of(bk.defs[n]), m);
}

} // verus!
