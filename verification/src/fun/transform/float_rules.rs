//! The rules by which combinators are floated.

use crate::fun::book::Bk;
use crate::fun::term::{Dm, Rm, SourceKind, Src, Th, Tm};
use crate::fun::transform::facts;
use crate::fun::transform::float_children;
use crate::fun::transform::float_combinators;
use crate::fun::transform::float_combinators::{Env, Float};
use crate::fun::transform::safety;
use crate::fun::transform::settled_laws;
use crate::fun::ty::{Head, Ty};
use crate::name;
use crate::name::Str;
use vstd::prelude::*;

verus! {

/* Which terms combinators are floated from */

/// From which terms below combinators are floated, for each kind of term.
///
/// From the argument of an application, and then from its function or, if that
/// is an application, from those of the function. From those of the body of a
/// lambda. From all terms below a match, a switch, a fan, a list, a `let`, a `use`
/// and an operation. The other terms have none.
pub proof fn law_float_kids(t: Tm)
    ensures
        ({
            let ks = float_children::float_kids(t);
            &&& t.head is App && t.kids.len() == 2 ==> ks == if t.kids[0].head is App
                && t.kids[0].kids.len() == 2 {
                seq![t.kids[1]] + float_children::float_kids(t.kids[0])
            } else {
                seq![t.kids[1], t.kids[0]]
            }
            &&& t.head is Lam && t.kids.len() == 1 ==> ks == float_children::float_kids(t.kids[0])
            &&& t.head is Mat ==> ks == t.kids
            &&& t.head is Swt ==> ks == t.kids
            &&& t.head is Fan ==> ks == t.kids
            &&& t.head is List ==> ks == t.kids
            &&& t.head is Let ==> ks == t.kids
            &&& t.head is Use ==> ks == t.kids
            &&& t.head is Oper ==> ks == t.kids
            &&& t.head is Var || t.head is Link || t.head is Num || t.head is Nat || t.head is Str
                || t.head is Ref || t.head is Era || t.head is ErrTerm ==> ks.len() == 0
        }),
{
    if t.head is App && t.kids.len() == 2 {
        reveal_with_fuel(float_children::spine, 2);
        assert(seq![t.kids[1]] + seq![t.kids[0]] =~= seq![t.kids[1], t.kids[0]]);
    }
}

/// Other terms take the place of those that combinators are floated from, and
/// nothing else of the term changes.
pub proof fn law_with_float_kids(t: Tm, ks: Seq<Tm>)
    requires
        ks.len() == float_children::float_kids(t).len(),
    ensures
        ({
            let u = float_children::with_float_kids(t, ks);
            &&& u.head == t.head
            &&& t.head is App && t.kids.len() == 2 ==> u.kids.len() == 2 && u.kids[1] == ks[0]
                && u.kids[0] == if t.kids[0].head is App && t.kids[0].kids.len() == 2 {
                float_children::with_float_kids(t.kids[0], ks.drop_first())
            } else {
                ks[1]
            }
            &&& t.head is Lam && t.kids.len() == 1 ==> u.kids == seq![
                float_children::with_float_kids(t.kids[0], ks),
            ]
            &&& t.head is Mat || t.head is Swt || t.head is Fan || t.head is List || t.head is Let
                || t.head is Use || t.head is Oper ==> u.kids == ks
            &&& t.head is Var || t.head is Link || t.head is Num || t.head is Nat || t.head is Str
                || t.head is Ref || t.head is Era || t.head is ErrTerm ==> u == t
        }),
{
    if t.head is App && t.kids.len() == 2 {
        law_float_kids(t);
        if !(t.kids[0].head is App && t.kids[0].kids.len() == 2) {
            assert(ks.drop_first()[0] == ks[1]);
        }
    }
}

/* Extraction */

/// A term that can become a definition of its own: it has no free variables,
/// declares the unscoped variables that it uses and no others, is not a reference
/// and not empty.
pub open spec fn can_be_extracted(t: Tm) -> bool {
    &&& facts::free(t) == Set::<Str>::empty()
    &&& facts::declared(t) == facts::used(t)
    &&& !(t.head is Ref)
    &&& facts::size(t) > 0
}

/// A term is safe by what is known so far.
pub open spec fn is_safe_now(env: Env, f: Float, t: Tm) -> bool {
    safety::is_safe(t, float_combinators::known(env.def_safety, env.constructors, f.combinators))
}

/// The term stays as it is.
pub open spec fn stays(
    before: (Seq<Tm>, int, Float),
    t: Tm,
    now: (Seq<Tm>, int, Float),
) -> bool {
    now == (before.0.push(t), before.1, before.2)
}

/// The term becomes a definition of its own, with the next number, and a
/// reference to that takes its place.
pub open spec fn becomes_definition(
    env: Env,
    before: (Seq<Tm>, int, Float),
    t: Tm,
    now: (Seq<Tm>, int, Float),
) -> bool {
    let (rs, s, f) = before;
    let x = env.name + "__C"@ + name::decimal(f.name_gen);
    let d = Dm {
        name: x,
        typ: Ty { head: Head::Hole, kids: Seq::empty() },
        check: env.check,
        rules: seq![Rm { pats: Seq::empty(), body: t }],
        source: Src {
            kind: if env.source.kind is Builtin {
                SourceKind::Builtin
            } else {
                SourceKind::Generated
            },
            ..env.source
        },
    };
    &&& now.0 == rs.push(Tm { head: Th::Ref(x), kids: Seq::empty() })
    &&& now.1 == s - facts::size(t)
    &&& now.2 == Float {
        combinators: f.combinators.insert(x, (is_safe_now(env, f, t), d)),
        name_gen: f.name_gen + 1,
        def_size: f.def_size - facts::size(t),
    }
}

/// When a term below another one is extracted, after those before it.
///
/// It stays if it cannot be extracted. If it can and is not safe, it is extracted.
/// If it is safe and the term around it is a combinator, it is extracted if and
/// only if that term is larger than the limit by then. If the term around it is no
/// combinator, it is extracted.
pub proof fn law_extraction(
    env: Env,
    in_combinator: bool,
    size: int,
    f: Float,
    kids: Seq<Tm>,
    t: Tm,
)
    ensures
        ({
            let before = float_combinators::extracted_all(env, in_combinator, size, f, kids);
            let now = float_combinators::extracted_all(env, in_combinator, size, f, kids.push(t));
            let safe = is_safe_now(env, before.2, t);
            &&& !can_be_extracted(t) ==> stays(before, t, now)
            &&& can_be_extracted(t) && !safe ==> becomes_definition(env, before, t, now)
            &&& can_be_extracted(t) && safe && in_combinator && before.1 <= env.max_size ==> stays(
                before,
                t,
                now,
            )
            &&& can_be_extracted(t) && safe && in_combinator && before.1 > env.max_size
                ==> becomes_definition(env, before, t, now)
            &&& can_be_extracted(t) && safe && !in_combinator ==> becomes_definition(
                env,
                before,
                t,
                now,
            )
        }),
{
    assert(kids.push(t).drop_last() =~= kids);
    assert(kids.push(t).last() == t);
}

/// Nothing is extracted from no terms.
pub proof fn law_extraction_of_none(env: Env, in_combinator: bool, size: int, f: Float)
    ensures
        float_combinators::extracted_all(env, in_combinator, size, f, Seq::empty()) == (
            Seq::<Tm>::empty(),
            size,
            f,
        ),
{
}

/// Combinators are floated out of the terms below first, from left to right. What
/// these become takes their places, and only then are they extracted, by whether
/// the whole term is a combinator and by its size at that point.
pub proof fn law_floated(env: Env, f: Float, t: Tm)
    ensures
        ({
            let below = float_combinators::floated_all(env, f, float_children::float_kids(t));
            let u = float_children::with_float_kids(t, below.0);
            let in_combinator = {
                &&& facts::free(u) == Set::<Str>::empty()
                &&& facts::declared(u) == facts::used(u)
                &&& !(u.head is Ref)
            };
            let out = float_combinators::extracted_all(
                env,
                in_combinator,
                facts::size(u) as int,
                below.1,
                float_children::float_kids(u),
            );
            float_combinators::floated(env, f, t) == (
                float_children::with_float_kids(u, out.0),
                out.2,
            )
        }),
{
}

/// Terms are floated one after the other.
pub proof fn law_floated_all(env: Env, f: Float, ts: Seq<Tm>, t: Tm)
    ensures
        float_combinators::floated_all(env, f, Seq::empty()) == (Seq::<Tm>::empty(), f),
        ({
            let (ks, g) = float_combinators::floated_all(env, f, ts);
            let (k, h) = float_combinators::floated(env, g, t);
            float_combinators::floated_all(env, f, ts.push(t)) == (ks.push(k), h)
        }),
{
    assert(ts.push(t).drop_last() =~= ts);
    assert(ts.push(t).last() == t);
}

/* Terms from which nothing has to be floated */

/// No term below, among those that combinators are floated from, has to be
/// extracted: each cannot be, or is safe in a combinator that is not too large.
pub open spec fn is_idle(t: Tm, known: Set<Str>, max_size: nat) -> bool
    decreases float_combinators::nodes(t),
{
    proof {
        settled_laws::lemma_nodes_kids(t);
    }
    forall|i: int|
        0 <= i < float_children::float_kids(t).len() ==> {
            let k = #[trigger] float_children::float_kids(t)[i];
            &&& is_idle(k, known, max_size)
            &&& can_be_extracted(k) ==> {
                &&& safety::is_safe(k, known)
                &&& facts::free(t) == Set::<Str>::empty()
                &&& facts::declared(t) == facts::used(t)
                &&& !(t.head is Ref)
                &&& facts::size(t) <= max_size
            }
        }
}

proof fn lemma_respine_same(t: Tm)
    ensures
        float_children::respine(t, float_children::spine(t)) == t,
    decreases t,
{
    if t.head is App && t.kids.len() == 2 {
        let s = float_children::spine(t);
        lemma_respine_same(t.kids[0]);
        assert(s.drop_first() =~= float_children::spine(t.kids[0]));
        assert(float_children::respine(t, s).kids =~= t.kids);
    }
}

/// The own terms of a term make it what it is.
pub proof fn law_same_float_kids(t: Tm)
    ensures
        float_children::with_float_kids(t, float_children::float_kids(t)) == t,
    decreases t,
{
    if t.head is App && t.kids.len() == 2 {
        lemma_respine_same(t);
    }
    if t.head is Lam && t.kids.len() == 1 {
        law_same_float_kids(t.kids[0]);
        assert(float_children::with_float_kids(t, float_children::float_kids(t)).kids =~= t.kids);
    }
}

proof fn lemma_idle_kids(
    env: Env,
    f: Float,
    t: Tm,
    in_combinator: bool,
    ks: Seq<Tm>,
)
    requires
        forall|i: int|
            0 <= i < ks.len() && can_be_extracted(#[trigger] ks[i]) ==> is_safe_now(env, f, ks[i])
                && in_combinator && facts::size(t) <= env.max_size,
    ensures
        float_combinators::extracted_all(env, in_combinator, facts::size(t) as int, f, ks) == (
            ks,
            facts::size(t) as int,
            f,
        ),
    decreases ks.len(),
{
    if ks.len() > 0 {
        let init = ks.drop_last();
        assert forall|i: int|
            0 <= i < init.len() && can_be_extracted(#[trigger] init[i]) implies is_safe_now(
            env,
            f,
            init[i],
        ) && in_combinator && facts::size(t) <= env.max_size by {
            assert(init[i] == ks[i]);
        }
        lemma_idle_kids(env, f, t, in_combinator, init);
        law_extraction(env, in_combinator, facts::size(t) as int, f, init, ks.last());
        assert(init.push(ks.last()) =~= ks);
        assert(ks[ks.len() - 1] == ks.last());
    } else {
        assert(ks =~= Seq::empty());
    }
}

proof fn lemma_idle_all(env: Env, f: Float, ts: Seq<Tm>)
    requires
        forall|i: int|
            0 <= i < ts.len() ==> is_idle(
                #[trigger] ts[i],
                float_combinators::known(env.def_safety, env.constructors, f.combinators),
                env.max_size,
            ),
    ensures
        float_combinators::floated_all(env, f, ts) == (ts, f),
    decreases float_combinators::nodes_all(ts), ts.len() + 1,
{
    if ts.len() > 0 {
        let init = ts.drop_last();
        assert(forall|i: int| 0 <= i < init.len() ==> init[i] == ts[i]);
        lemma_idle_all(env, f, init);
        law_float_idle(env, f, ts.last());
        assert(init.push(ts.last()) =~= ts);
    } else {
        assert(ts =~= Seq::empty());
    }
}

/// A term is left as it is, and nothing is extracted from it, if none of the terms
/// below has to be extracted.
pub proof fn law_float_idle(env: Env, f: Float, t: Tm)
    requires
        is_idle(
            t,
            float_combinators::known(env.def_safety, env.constructors, f.combinators),
            env.max_size,
        ),
    ensures
        float_combinators::floated(env, f, t) == (t, f),
    decreases float_combinators::nodes(t), 0nat,
{
    let ks = float_children::float_kids(t);
    float_combinators::lemma_nodes_float_kids(t);
    lemma_idle_all(env, f, ks);
    law_same_float_kids(t);
    lemma_idle_kids(env, f, t, facts::is_combinator(t), ks);
}

/* Programs */

/// The definitions are floated in the order of their names. The entrypoint is left
/// out, and every other one starts with its own size and the number zero.
pub proof fn law_floated_defs(bk: Bk, max_size: nat, names: Seq<Str>, n: Str)
    requires
        bk.defs.contains_key(n),
        bk.defs[n].rules.len() == 1,
    ensures
        ({
            let (defs, cs) = float_combinators::floated_defs(bk, max_size, names);
            let now = float_combinators::floated_defs(bk, max_size, names.push(n));
            let d = bk.defs[n];
            let env = Env {
                def_safety: safety::def_safety(bk),
                constructors: bk.ctrs.dom(),
                max_size,
                name: n,
                source: d.source,
                check: d.check,
            };
            let body = d.rules[0].body;
            let f = Float { combinators: cs, name_gen: 0, def_size: facts::size(body) as int };
            let (u, g) = float_combinators::floated(env, f, body);
            let new = Dm { rules: seq![Rm { pats: d.rules[0].pats, body: u }], ..d };
            &&& bk.entrypoint == Some(n) ==> now == (defs, cs)
            &&& bk.entrypoint != Some(n) ==> now == (defs.insert(n, new), g.combinators)
        }),
{
    assert(names.push(n).drop_last() =~= names);
    assert(names.push(n).last() == n);
}

/// The program has the floated definitions and those of the combinators, and is
/// the same otherwise.
pub proof fn law_floated_book(bk: Bk, max_size: nat, n: Str)
    ensures
        ({
            let new = float_combinators::floated_book(bk, max_size);
            let (defs, cs) = float_combinators::floated_defs(
                bk,
                max_size,
                name::in_order(bk.defs.dom()),
            );
            &&& new == Bk { defs: new.defs, ..bk }
            &&& cs.contains_key(n) ==> new.defs.contains_key(n) && new.defs[n] == cs[n].1
            &&& !cs.contains_key(n) ==> new.defs.contains_key(n) == defs.contains_key(n)
            &&& !cs.contains_key(n) && defs.contains_key(n) ==> new.defs[n] == defs[n]
        }),
{
}

} // verus!
