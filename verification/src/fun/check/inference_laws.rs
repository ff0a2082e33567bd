//! What the type of each kind of term is, in terms of the types of the terms
//! below and of what has to unify.

use crate::fun::book::{Am, Bk};
use crate::fun::check::infer_state;
use crate::fun::check::infer_state::{Er, St};
use crate::fun::check::inference;
use crate::fun::check::scheme;
use crate::fun::check::scheme::{Bind, Sch};
use crate::fun::check::stored_types;
use crate::fun::check::unify;
use crate::fun::check::unify::Clash;
use crate::fun::check::unify_cases;
use crate::fun::term;
use crate::fun::term::{FanKind, MatHead, Num, Op, Pat, PatHead, SwtHead, Tg, Th, Tm};
use crate::fun::ty;
use crate::fun::ty::{Head, Ty};
use crate::name;
use crate::name::Str;
use vstd::prelude::*;

verus! {

/// What came of inferring the type of a term.
pub type Found = Result<(Ty, St), Er>;

/// The new variable of a state.
pub open spec fn new_var(st: St) -> Ty {
    ty::leaf(Head::Var(name::base26(st.next)))
}

/// The state with so many variables made.
pub open spec fn made(st: St, n: nat) -> St {
    St { sub: st.sub, next: st.next + n }
}

/// The error of two types that do not unify in a term.
pub open spec fn clash_in(ctx: Tm, left: Ty, right: Ty, cause: Clash) -> Er {
    Er { ctx, left, right, cause }
}

/* Names */

/// A name that is given schemes is bound to the last of them.
pub proof fn law_bind_last(env: Map<Str, Sch>, bs: Seq<Bind>, x: Str, i: int)
    requires
        0 <= i < bs.len(),
        bs[i].0 == Some(x),
        forall|j: int| i < j < bs.len() ==> (#[trigger] bs[j]).0 != Some(x),
    ensures
        scheme::bind_all(env, bs).contains_key(x),
        scheme::bind_all(env, bs)[x] == bs[i].1,
    decreases bs.len(),
{
    if i < bs.len() - 1 {
        let b0 = bs.drop_last();
        assert forall|j: int| i < j < b0.len() implies (#[trigger] b0[j]).0 != Some(x) by {
            assert(b0[j] == bs[j]);
        }
        assert(b0[i] == bs[i]);
        law_bind_last(env, b0, x, i);
        assert(bs[bs.len() - 1].0 != Some(x));
    }
}

/// A name that is given no scheme is bound to what it was bound to.
pub proof fn law_bind_others(env: Map<Str, Sch>, bs: Seq<Bind>, x: Str)
    requires
        forall|i: int| 0 <= i < bs.len() ==> (#[trigger] bs[i]).0 != Some(x),
    ensures
        scheme::bind_all(env, bs).contains_key(x) == env.contains_key(x),
        scheme::bind_all(env, bs)[x] == env[x],
    decreases bs.len(),
{
    if bs.len() > 0 {
        let b0 = bs.drop_last();
        assert forall|j: int| 0 <= j < b0.len() implies (#[trigger] b0[j]).0 != Some(x) by {
            assert(b0[j] == bs[j]);
        }
        law_bind_others(env, b0, x);
        assert(bs[bs.len() - 1].0 != Some(x));
    }
}

/// The variable of each place becomes the new variable with the number of that
/// place, counted from the given one, and no other variable is replaced.
pub open spec fn is_renaming(m: Map<Str, Ty>, vars: Seq<Str>, next: nat) -> bool {
    &&& forall|v: Str| #[trigger] m.contains_key(v) <==> vars.contains(v)
    &&& forall|i: int|
        0 <= i < vars.len() ==> m[#[trigger] vars[i]] == ty::leaf(
            Head::Var(name::base26((next + i) as nat)),
        )
}

/// An instance of a scheme is its type with the variables that it binds replaced
/// by new ones.
pub proof fn law_instance(sch: Sch, next: nat, m: Map<Str, Ty>)
    requires
        sch.vars.no_duplicates(),
        is_renaming(m, sch.vars, next),
    ensures
        scheme::instance(sch, next) == ty::apply(sch.typ, m),
{
    let f = scheme::fresh_map(sch.vars, next);
    assert forall|v: Str| f.contains_key(v) <==> m.contains_key(v) by {
        inference::lemma_fresh_map(sch.vars, next, v);
    }
    assert forall|v: Str| #[trigger] f.contains_key(v) implies f[v] == m[v] by {
        inference::lemma_fresh_map(sch.vars, next, v);
        let i = choose|i: int| 0 <= i < sch.vars.len() && sch.vars[i] == v;
        stored_types::lemma_fresh_at(sch.vars, next, i);
        assert(m[sch.vars[i]] == ty::leaf(Head::Var(name::base26((next + i) as nat))));
    }
    assert(f =~= m);
}

/// A variable or reference has a new instance of its scheme. What the
/// environment binds comes before the types of the functions.
pub proof fn law_infer_name(
    bk: Bk,
    env: Map<Str, Sch>,
    types: Map<Str, Sch>,
    x: Str,
    st: St,
    sch: Sch,
)
    requires
        env.contains_key(x) ==> sch == env[x],
        !env.contains_key(x) ==> sch == types[x],
    ensures
        forall|t: Tm|
            #![trigger inference::infer(bk, env, types, t, st)]
            t.head == Th::Var(x) || t.head == Th::Ref(x) ==> inference::infer(
                bk,
                env,
                types,
                t,
                st,
            ) == Ok::<_, Er>(
                (
                    ty::apply(ty::apply(scheme::instance(sch, st.next), st.sub), st.sub),
                    made(st, sch.vars.len()),
                ),
            ),
{
}

/* Generalized types */

/// A type is generalized over the variables that it holds and that no scheme of
/// the environment holds unbound, each once and in their order.
pub proof fn law_generalized(t: Ty, env: Map<Str, Sch>, sub: Map<Str, Ty>, v: Str)
    ensures
        ({
            let sch = infer_state::generalized(t, env, sub);
            &&& sch.typ == ty::apply(t, sub)
            &&& name::sorted(sch.vars)
            &&& sch.vars.contains(v) <==> {
                &&& ty::fv(ty::apply(t, sub)).contains(v)
                &&& !exists|x: Str| #[trigger]
                    env.contains_key(x) && ty::fv(ty::apply(env[x].typ, sub)).contains(v)
                        && !env[x].vars.contains(v)
            }
        }),
{
    let u = ty::apply(t, sub);
    let held = infer_state::env_fv(env, sub);
    let free = ty::fv(u).difference(held);
    ty::lemma_fv_finite(u);
    assert(free.subset_of(ty::fv(u)));
    vstd::set_lib::lemma_set_subset_finite(ty::fv(u), free);
    name::lemma_finite_in_order(free);
    let vars = name::in_order(free);
    assert(vars.to_set().contains(v) <==> free.contains(v));
    if held.contains(v) {
        let x = choose|x: Str| #[trigger]
            env.contains_key(x) && infer_state::scheme_fv(env[x], sub).contains(v);
        assert(!env[x].vars.to_set().contains(v));
        assert(env.contains_key(x) && ty::fv(ty::apply(env[x].typ, sub)).contains(v));
    }
    if exists|x: Str| #[trigger]
        env.contains_key(x) && ty::fv(ty::apply(env[x].typ, sub)).contains(v)
            && !env[x].vars.contains(v) {
        let x = choose|x: Str| #[trigger]
            env.contains_key(x) && ty::fv(ty::apply(env[x].typ, sub)).contains(v)
                && !env[x].vars.contains(v);
        assert(infer_state::scheme_fv(env[x], sub).contains(v));
    }
}

/// A type that is stored binds exactly the variables that it holds, each once
/// and in their order.
pub proof fn law_closed(t: Ty, v: Str)
    ensures
        scheme::closed_scheme(t).typ == t,
        name::sorted(scheme::closed_scheme(t).vars),
        scheme::closed_scheme(t).vars.contains(v) <==> ty::fv(t).contains(v),
{
    ty::lemma_fv_finite(t);
    name::lemma_finite_in_order(ty::fv(t));
    assert(name::in_order(ty::fv(t)).to_set().contains(v) <==> ty::fv(t).contains(v));
}

/* Functions */

/// A lambda is inferred if and only if its body is, with a new variable as the
/// type of its own variable. It has the type of functions from that to the type
/// of the body.
pub proof fn law_infer_lambda(
    bk: Bk,
    env: Map<Str, Sch>,
    types: Map<Str, Sch>,
    tag: Tg,
    x: Option<Str>,
    body: Tm,
    st: St,
)
    ensures
        ({
            let pat = Pat { head: PatHead::Var(x), kids: Seq::empty() };
            let lam = Tm { head: Th::Lam(tag, pat), kids: seq![body] };
            let sch = Sch { vars: Seq::empty(), typ: new_var(st) };
            let inner = match x {
                Some(n) => env.insert(n, sch),
                None => env,
            };
            match inference::infer(bk, inner, types, body, made(st, 1)) {
                Ok((b, st1)) => inference::infer(bk, env, types, lam, st) == Ok::<_, Er>(
                    (
                        ty::apply(Ty { head: Head::Arr, kids: seq![new_var(st), b] }, st1.sub),
                        st1,
                    ),
                ),
                Err(e) => inference::infer(bk, env, types, lam, st) == Err::<(Ty, St), _>(e),
            }
        }),
{
    let pat = Pat { head: PatHead::Var(x), kids: Seq::empty() };
    let sch = Sch { vars: Seq::empty(), typ: new_var(st) };
    let bs = inference::mono_binds(term::pat_binds(pat), seq![new_var(st)]);
    lemma_bind_one(env, x, sch);
    assert(bs =~= seq![(x, sch)]);
}

proof fn lemma_bind_one(env: Map<Str, Sch>, x: Option<Str>, sch: Sch)
    ensures
        scheme::bind_all(env, seq![(x, sch)]) == match x {
            Some(n) => env.insert(n, sch),
            None => env,
        },
{
    let bs = seq![(x, sch)];
    assert(bs.drop_last() =~= Seq::empty());
    assert(bs.last() == (x, sch));
    reveal_with_fuel(scheme::bind_all, 2);
}

/// An application is inferred if and only if the function and then the argument
/// are, and the type of the function unifies with the type of functions from
/// the type of the argument to a new variable, which is the type of the
/// application.
pub proof fn law_infer_application(
    bk: Bk,
    env: Map<Str, Sch>,
    types: Map<Str, Sch>,
    tag: Tg,
    fun: Tm,
    arg: Tm,
    st: St,
)
    ensures
        ({
            let app = Tm { head: Th::App(tag), kids: seq![fun, arg] };
            let found = inference::infer(bk, env, types, app, st);
            match inference::infer(bk, env, types, fun, st) {
                Ok((f, st1)) => match inference::infer(bk, env, types, arg, st1) {
                    Ok((a, st2)) => {
                        let want = Ty { head: Head::Arr, kids: seq![a, new_var(st2)] };
                        match unify::unify(st2.sub, f, want) {
                            Ok((_, s)) => found == Ok::<_, Er>(
                                (ty::apply(new_var(st2), s), St { sub: s, next: st2.next + 1 }),
                            ),
                            Err(c) => found == Err::<(Ty, St), _>(clash_in(fun, f, want, c)),
                        }
                    },
                    Err(e) => found == Err::<(Ty, St), _>(e),
                },
                Err(e) => found == Err::<(Ty, St), _>(e),
            }
        }),
{
    let app = Tm { head: Th::App(tag), kids: seq![fun, arg] };
    assert(app.kids[0] == fun && app.kids[1] == arg);
}

/* Let */

/// A `let` is inferred in two steps: the value and then the rest.
proof fn lemma_infer_let(
    bk: Bk,
    env: Map<Str, Sch>,
    types: Map<Str, Sch>,
    pat: Pat,
    val: Tm,
    nxt: Tm,
    st: St,
)
    ensures
        ({
            let t = Tm { head: Th::Let(pat), kids: seq![val, nxt] };
            inference::infer(bk, env, types, t, st) == match inference::infer(
                bk,
                env,
                types,
                val,
                st,
            ) {
                Ok((v, st1)) => match inference::infer_let(bk, env, types, pat, t, v, st1) {
                    Ok((u, st2)) => Ok::<(Ty, St), Er>((ty::apply(u, st2.sub), st2)),
                    Err(e) => Err(e),
                },
                Err(e) => Err(e),
            }
        }),
{
    let t = Tm { head: Th::Let(pat), kids: seq![val, nxt] };
    assert(t.kids[0] == val && t.kids[1] == nxt);
    let raw = inference::infer_raw(bk, env, types, t, st);
    match inference::infer(bk, env, types, val, st) {
        Ok((v, st1)) => {
            assert(raw == inference::infer_let(bk, env, types, pat, t, v, st1));
        },
        Err(e) => {
            assert(raw == Err::<(Ty, St), _>(e));
        },
    }
}

/// A `let` of a variable is inferred if and only if the value is, and then the
/// rest with the generalized type of the value. It has the type of the rest.
#[verifier::rlimit(40)]
pub proof fn law_infer_let_variable(
    bk: Bk,
    env: Map<Str, Sch>,
    types: Map<Str, Sch>,
    x: Option<Str>,
    val: Tm,
    nxt: Tm,
    st: St,
)
    ensures
        ({
            let pat = Pat { head: PatHead::Var(x), kids: Seq::empty() };
            let found = inference::infer(
                bk,
                env,
                types,
                Tm { head: Th::Let(pat), kids: seq![val, nxt] },
                st,
            );
            match inference::infer(bk, env, types, val, st) {
                Ok((v, st1)) => {
                    let sch = infer_state::generalized(v, env, st1.sub);
                    let inner = match x {
                        Some(n) => env.insert(n, sch),
                        None => env,
                    };
                    match inference::infer(bk, inner, types, nxt, st1) {
                        Ok((n, st2)) => found == Ok::<_, Er>((ty::apply(n, st2.sub), st2)),
                        Err(e) => found == Err::<(Ty, St), _>(e),
                    }
                },
                Err(e) => found == Err::<(Ty, St), _>(e),
            }
        }),
{
    let pat = Pat { head: PatHead::Var(x), kids: Seq::empty() };
    let t = Tm { head: Th::Let(pat), kids: seq![val, nxt] };
    assert(t.kids[0] == val && t.kids[1] == nxt);
    lemma_infer_let(bk, env, types, pat, val, nxt, st);
    if let Ok((v, st1)) = inference::infer(bk, env, types, val, st) {
        lemma_bind_one(env, x, infer_state::generalized(v, env, st1.sub));
    }
}

/// The names of the pattern with new variables as their types.
pub open spec fn with_new_vars(env: Map<Str, Sch>, xs: Seq<Option<Str>>, st: St) -> Map<Str, Sch> {
    scheme::bind_all(
        env,
        Seq::new(
            xs.len(),
            |i: int|
                (xs[i], Sch { vars: Seq::empty(), typ: ty::leaf(Head::Var(name::base26((st.next + i) as nat))) }),
        ),
    )
}

/// So many new variables, as a substitution makes them.
pub open spec fn new_vars_in(n: nat, st: St, sub: Map<Str, Ty>) -> Seq<Ty> {
    Seq::new(n, |i: int| ty::apply(ty::leaf(Head::Var(name::base26((st.next + i) as nat))), sub))
}

pub proof fn lemma_with_new_vars(env: Map<Str, Sch>, xs: Seq<Option<Str>>, st: St)
    ensures
        with_new_vars(env, xs, st) == scheme::bind_all(
            env,
            inference::mono_binds(xs, inference::new_vars(xs.len(), st.next)),
        ),
{
    let bs = Seq::new(
        xs.len(),
        |i: int|
            (xs[i], Sch { vars: Seq::empty(), typ: ty::leaf(Head::Var(name::base26((st.next + i) as nat))) }),
    );
    assert(bs =~= inference::mono_binds(xs, inference::new_vars(xs.len(), st.next)));
}

proof fn lemma_new_vars_in(n: nat, st: St, sub: Map<Str, Ty>)
    ensures
        new_vars_in(n, st, sub) == ty::apply_all(inference::new_vars(n, st.next), sub),
{
    assert(new_vars_in(n, st, sub) =~= ty::apply_all(inference::new_vars(n, st.next), sub));
}

/// A `let` of a tuple pattern is inferred if and only if the value is, then the
/// rest with new variables as the types of the names, and the type of the value
/// unifies with the tuple of these. It has the type of the rest.
#[verifier::rlimit(40)]
pub proof fn law_infer_let_tuple(
    bk: Bk,
    env: Map<Str, Sch>,
    types: Map<Str, Sch>,
    pat: Pat,
    val: Tm,
    nxt: Tm,
    st: St,
)
    requires
        pat.head is Fan,
        pat.head->Fan_0 == FanKind::Tup,
    ensures
        ({
            let found = inference::infer(
                bk,
                env,
                types,
                Tm { head: Th::Let(pat), kids: seq![val, nxt] },
                st,
            );
            let xs = term::pat_binds(pat);
            match inference::infer(bk, env, types, val, st) {
                Ok((v, st1)) => match inference::infer(
                    bk,
                    with_new_vars(env, xs, st1),
                    types,
                    nxt,
                    made(st1, xs.len()),
                ) {
                    Ok((n, st2)) => {
                        let tup = Ty { head: Head::Tup, kids: new_vars_in(xs.len(), st1, st2.sub) };
                        match unify::unify(st2.sub, v, tup) {
                            Ok((_, s)) => found == Ok::<_, Er>(
                                (ty::apply(n, s), St { sub: s, next: st2.next }),
                            ),
                            Err(c) => found == Err::<(Ty, St), _>(clash_in(val, v, tup, c)),
                        }
                    },
                    Err(e) => found == Err::<(Ty, St), _>(e),
                },
                Err(e) => found == Err::<(Ty, St), _>(e),
            }
        }),
{
    let t = Tm { head: Th::Let(pat), kids: seq![val, nxt] };
    let xs = term::pat_binds(pat);
    assert(t.kids[0] == val && t.kids[1] == nxt);
    lemma_infer_let(bk, env, types, pat, val, nxt, st);
    if let Ok((v, st1)) = inference::infer(bk, env, types, val, st) {
        lemma_with_new_vars(env, xs, st1);
        if let Ok((n, st2)) = inference::infer(
            bk,
            with_new_vars(env, xs, st1),
            types,
            nxt,
            made(st1, xs.len()),
        ) {
            lemma_new_vars_in(xs.len(), st1, st2.sub);
        }
    }
}

/// The types unify with what comes of those before, one after the other: `us`
/// are the results and `ss` the substitutions on the way.
pub open spec fn is_joined(us: Seq<Ty>, ts: Seq<Ty>, ss: Seq<Map<Str, Ty>>) -> bool {
    &&& us.len() == ts.len() + 1
    &&& ss.len() == ts.len() + 1
    &&& forall|i: int|
        #![trigger ts[i]]
        0 <= i < ts.len() ==> unify::unify(ss[i], us[i], ts[i]) == Ok::<_, Clash>(
            (us[i + 1], ss[i + 1]),
        )
}

/// The types on the way, each as the substitution makes it by then.
pub open spec fn is_joined_pruned(us: Seq<Ty>, ts: Seq<Ty>, ss: Seq<Map<Str, Ty>>) -> bool {
    &&& us.len() == ts.len() + 1
    &&& ss.len() == ts.len() + 1
    &&& forall|i: int|
        #![trigger ts[i]]
        0 <= i < ts.len() ==> unify::unify(ss[i], us[i], ty::apply(ts[i], ss[i])) == Ok::<_, Clash>(
            (us[i + 1], ss[i + 1]),
        )
}

/// The error is about these types in this term.
pub open spec fn is_about(e: Er, ctx: Tm, left: Ty, right: Ty) -> bool {
    e.ctx == ctx && e.left == left && e.right == right
}

/// The first type that does not unify with what comes of those before is the
/// error.
pub open spec fn joins_not(t: Ty, ts: Seq<Ty>, s: Map<Str, Ty>, e: Er, ctx: Tm) -> bool {
    exists|n: int, us: Seq<Ty>, ss: Seq<Map<Str, Ty>>|
        {
            &&& 0 <= n < ts.len()
            &&& #[trigger] is_joined(us, ts.take(n), ss)
            &&& us[0] == t
            &&& ss[0] == s
            &&& unify::unify(ss.last(), us.last(), ts[n]) == Err::<
                (Ty, Map<Str, Ty>),
                _,
            >(e.cause)
            &&& is_about(e, ctx, us.last(), ts[n])
        }
}

/// The first type that does not unify, as the substitution makes it by then, is
/// the error.
pub open spec fn joins_not_pruned(t: Ty, ts: Seq<Ty>, s: Map<Str, Ty>, e: Er, ctx: Tm) -> bool {
    exists|n: int, us: Seq<Ty>, ss: Seq<Map<Str, Ty>>|
        {
            &&& 0 <= n < ts.len()
            &&& #[trigger] is_joined_pruned(us, ts.take(n), ss)
            &&& us[0] == t
            &&& ss[0] == s
            &&& unify::unify(ss.last(), us.last(), ty::apply(ts[n], ss.last())) == Err::<
                (Ty, Map<Str, Ty>),
                _,
            >(e.cause)
            &&& is_about(e, ctx, us.last(), ty::apply(ts[n], ss.last()))
        }
}

proof fn lemma_unify_each(st: St, t: Ty, ts: Seq<Ty>, ctx: Tm)
    ensures
        match inference::unify_each(st, t, ts, ctx) {
            Ok((u, st1)) => exists|us: Seq<Ty>, ss: Seq<Map<Str, Ty>>| #[trigger]
                is_joined(us, ts, ss) && us[0] == t && us.last() == u && ss[0] == st.sub
                    && ss.last() == st1.sub && st1.next == st.next,
            Err(e) => joins_not(t, ts, st.sub, e, ctx),
        },
    decreases ts.len(),
{
    if ts.len() == 0 {
        let (us, ss) = (seq![t], seq![st.sub]);
        assert(is_joined(us, ts, ss) && us[0] == t && us.last() == t);
    } else {
        let rest = ts.drop_first();
        match infer_state::unify_in(st, t, ts[0], ctx) {
            Ok((t1, st1)) => {
                lemma_unify_each(st1, t1, rest, ctx);
                match inference::unify_each(st1, t1, rest, ctx) {
                    Ok((u, st2)) => {
                        let (us, ss) = choose|us: Seq<Ty>, ss: Seq<Map<Str, Ty>>| #[trigger]
                            is_joined(us, rest, ss) && us[0] == t1 && us.last() == u && ss[0]
                                == st1.sub && ss.last() == st2.sub && st2.next == st1.next;
                        let (us1, ss1) = (seq![t] + us, seq![st.sub] + ss);
                        assert forall|i: int|
                            #![trigger ts[i]]
                            0 <= i < ts.len() implies unify::unify(ss1[i], us1[i], ts[i])
                            == Ok::<_, Clash>((us1[i + 1], ss1[i + 1])) by {
                            if i > 0 {
                                assert(rest[i - 1] == ts[i]);
                            }
                        }
                        assert(is_joined(us1, ts, ss1) && us1[0] == t && us1.last() == u);
                    },
                    Err(e) => {
                        let (n, us, ss) = choose|n: int, us: Seq<Ty>, ss: Seq<Map<Str, Ty>>|
                            {
                                &&& 0 <= n < rest.len()
                                &&& #[trigger] is_joined(us, rest.take(n), ss)
                                &&& us[0] == t1
                                &&& ss[0] == st1.sub
                                &&& unify::unify(ss.last(), us.last(), rest[n])
                                    == Err::<(Ty, Map<Str, Ty>), _>(e.cause)
                                &&& is_about(e, ctx, us.last(), rest[n])
                            };
                        let (us1, ss1) = (seq![t] + us, seq![st.sub] + ss);
                        let (r0, t0) = (rest.take(n), ts.take(n + 1));
                        assert forall|i: int|
                            #![trigger t0[i]]
                            0 <= i < t0.len() implies unify::unify(ss1[i], us1[i], t0[i])
                            == Ok::<_, Clash>((us1[i + 1], ss1[i + 1])) by {
                            if i > 0 {
                                assert(r0[i - 1] == t0[i]);
                            }
                        }
                        assert(ts[n + 1] == rest[n]);
                        assert(is_joined(us1, ts.take(n + 1), ss1) && us1[0] == t && ss1[0] == st.sub);
                        assert(joins_not(t, ts, st.sub, e, ctx));
                    },
                }
            },
            Err(e) => {
                let (us, ss) = (seq![t], seq![st.sub]);
                assert(is_joined(us, ts.take(0), ss) && us[0] == t && ss[0] == st.sub);
                assert(joins_not(t, ts, st.sub, e, ctx));
            },
        }
    }
}

proof fn lemma_unify_each_pruned(st: St, t: Ty, ts: Seq<Ty>, ctx: Tm)
    ensures
        match inference::unify_each_pruned(st, t, ts, ctx) {
            Ok((u, st1)) => exists|us: Seq<Ty>, ss: Seq<Map<Str, Ty>>| #[trigger]
                is_joined_pruned(us, ts, ss) && us[0] == t && us.last() == u && ss[0] == st.sub
                    && ss.last() == st1.sub && st1.next == st.next,
            Err(e) => joins_not_pruned(t, ts, st.sub, e, ctx),
        },
    decreases ts.len(),
{
    if ts.len() == 0 {
        let (us, ss) = (seq![t], seq![st.sub]);
        assert(is_joined_pruned(us, ts, ss) && us[0] == t && us.last() == t);
    } else {
        let rest = ts.drop_first();
        match infer_state::unify_in(st, t, ty::apply(ts[0], st.sub), ctx) {
            Ok((t1, st1)) => {
                lemma_unify_each_pruned(st1, t1, rest, ctx);
                match inference::unify_each_pruned(st1, t1, rest, ctx) {
                    Ok((u, st2)) => {
                        let (us, ss) = choose|us: Seq<Ty>, ss: Seq<Map<Str, Ty>>| #[trigger]
                            is_joined_pruned(us, rest, ss) && us[0] == t1 && us.last() == u && ss[0]
                                == st1.sub && ss.last() == st2.sub && st2.next == st1.next;
                        let (us1, ss1) = (seq![t] + us, seq![st.sub] + ss);
                        assert forall|i: int|
                            #![trigger ts[i]]
                            0 <= i < ts.len() implies unify::unify(ss1[i], us1[i], ty::apply(ts[i], ss1[i]))
                            == Ok::<_, Clash>((us1[i + 1], ss1[i + 1])) by {
                            if i > 0 {
                                assert(rest[i - 1] == ts[i]);
                            }
                        }
                        assert(is_joined_pruned(us1, ts, ss1) && us1[0] == t && us1.last() == u);
                    },
                    Err(e) => {
                        let (n, us, ss) = choose|n: int, us: Seq<Ty>, ss: Seq<Map<Str, Ty>>|
                            {
                                &&& 0 <= n < rest.len()
                                &&& #[trigger] is_joined_pruned(us, rest.take(n), ss)
                                &&& us[0] == t1
                                &&& ss[0] == st1.sub
                                &&& unify::unify(ss.last(), us.last(), ty::apply(rest[n], ss.last()))
                                    == Err::<(Ty, Map<Str, Ty>), _>(e.cause)
                                &&& is_about(e, ctx, us.last(), ty::apply(rest[n], ss.last()))
                            };
                        let (us1, ss1) = (seq![t] + us, seq![st.sub] + ss);
                        let (r0, t0) = (rest.take(n), ts.take(n + 1));
                        assert forall|i: int|
                            #![trigger t0[i]]
                            0 <= i < t0.len() implies unify::unify(ss1[i], us1[i], ty::apply(t0[i], ss1[i]))
                            == Ok::<_, Clash>((us1[i + 1], ss1[i + 1])) by {
                            if i > 0 {
                                assert(r0[i - 1] == t0[i]);
                            }
                        }
                        assert(ts[n + 1] == rest[n]);
                        assert(is_joined_pruned(us1, ts.take(n + 1), ss1) && us1[0] == t && ss1[0] == st.sub);
                        assert(joins_not_pruned(t, ts, st.sub, e, ctx));
                    },
                }
            },
            Err(e) => {
                let (us, ss) = (seq![t], seq![st.sub]);
                assert(is_joined_pruned(us, ts.take(0), ss) && us[0] == t && ss[0] == st.sub);
                assert(joins_not_pruned(t, ts, st.sub, e, ctx));
            },
        }
    }
}

/// A `let` of a duplication is inferred if and only if the value is, then the rest
/// with new variables as the types of the names, and the type of the value
/// unifies with each of these in turn. It has the type of the rest.
#[verifier::rlimit(40)]
pub proof fn law_infer_let_duplication(
    bk: Bk,
    env: Map<Str, Sch>,
    types: Map<Str, Sch>,
    pat: Pat,
    val: Tm,
    nxt: Tm,
    st: St,
)
    requires
        pat.head is Fan,
        pat.head->Fan_0 == FanKind::Dup,
    ensures
        ({
            let found = inference::infer(
                bk,
                env,
                types,
                Tm { head: Th::Let(pat), kids: seq![val, nxt] },
                st,
            );
            let xs = term::pat_binds(pat);
            match inference::infer(bk, env, types, val, st) {
                Ok((v, st1)) => match inference::infer(
                    bk,
                    with_new_vars(env, xs, st1),
                    types,
                    nxt,
                    made(st1, xs.len()),
                ) {
                    Ok((n, st2)) => {
                        let tvs = new_vars_in(xs.len(), st1, Map::empty());
                        match found {
                            Ok((u, st3)) => exists|us: Seq<Ty>, ss: Seq<Map<Str, Ty>>| #[trigger]
                                is_joined_pruned(us, tvs, ss) && us[0] == v && ss[0] == st2.sub && u
                                    == ty::apply(n, st3.sub) && st3 == (St {
                                    sub: ss.last(),
                                    next: st2.next,
                                }),
                            Err(e) => joins_not_pruned(v, tvs, st2.sub, e, val),
                        }
                    },
                    Err(e) => found == Err::<(Ty, St), _>(e),
                },
                Err(e) => found == Err::<(Ty, St), _>(e),
            }
        }),
{
    let t = Tm { head: Th::Let(pat), kids: seq![val, nxt] };
    let xs = term::pat_binds(pat);
    assert(t.kids[0] == val && t.kids[1] == nxt);
    lemma_infer_let(bk, env, types, pat, val, nxt, st);
    if let Ok((v, st1)) = inference::infer(bk, env, types, val, st) {
        lemma_with_new_vars(env, xs, st1);
        if let Ok((n, st2)) = inference::infer(
            bk,
            with_new_vars(env, xs, st1),
            types,
            nxt,
            made(st1, xs.len()),
        ) {
            let tvs = new_vars_in(xs.len(), st1, Map::empty());
            assert(tvs =~= inference::new_vars(xs.len(), st1.next));
            lemma_unify_each_pruned(st2, v, tvs, val);
        }
    }
}

/* Numbers */

/// A number has the type of its kind, and nothing is found out.
pub proof fn law_infer_number(
    bk: Bk,
    env: Map<Str, Sch>,
    types: Map<Str, Sch>,
    val: Num,
    kids: Seq<Tm>,
    st: St,
)
    ensures
        ({
            let found = inference::infer(bk, env, types, Tm { head: Th::Num(val), kids }, st);
            &&& val is U24 ==> found == Ok::<_, Er>((ty::leaf(Head::U24), st))
            &&& val is I24 ==> found == Ok::<_, Er>((ty::leaf(Head::I24), st))
            &&& val is F24 ==> found == Ok::<_, Er>((ty::leaf(Head::F24), st))
        }),
{
    ty::lemma_apply_disjoint(ty::leaf(Head::U24), st.sub);
    ty::lemma_apply_disjoint(ty::leaf(Head::I24), st.sub);
    ty::lemma_apply_disjoint(ty::leaf(Head::F24), st.sub);
}

/// An operation that compares.
pub open spec fn is_comparison(op: Op) -> bool {
    op is EQ || op is NEQ || op is LT || op is GT || op is GE || op is LE
}

/// An operation on any numbers that gives a number.
pub open spec fn is_arithmetic(op: Op) -> bool {
    op is ADD || op is SUB || op is MUL || op is DIV
}

/// An operation on integers.
pub open spec fn is_integer_operation(op: Op) -> bool {
    op is REM || op is AND || op is OR || op is XOR || op is SHL || op is SHR
}

/// The type that the arguments of an operation must unify with.
pub open spec fn wanted(op: Op, new: Ty) -> Ty {
    if is_arithmetic(op) || is_comparison(op) {
        Ty { head: Head::Number, kids: seq![new] }
    } else if is_integer_operation(op) {
        Ty { head: Head::Integer, kids: seq![new] }
    } else {
        ty::leaf(Head::F24)
    }
}

/// An operation is inferred if and only if its arguments are, their types unify,
/// and the result unifies with what the operation is on: any numbers, integers,
/// or `F24` for powers. A comparison has type `U24`, any other operation the type
/// that was unified.
pub proof fn law_infer_operation(
    bk: Bk,
    env: Map<Str, Sch>,
    types: Map<Str, Sch>,
    op: Op,
    fst: Tm,
    snd: Tm,
    st: St,
)
    ensures
        ({
            let t = Tm { head: Th::Oper(op), kids: seq![fst, snd] };
            let found = inference::infer(bk, env, types, t, st);
            match inference::infer(bk, env, types, fst, st) {
                Ok((a, st1)) => match inference::infer(bk, env, types, snd, st1) {
                    Ok((b, st2)) => match unify::unify(st2.sub, b, a) {
                        Ok((u, s)) => match unify::unify(s, u, wanted(op, new_var(st2))) {
                            Ok((w, s1)) => found == Ok::<_, Er>(
                                (
                                    if is_comparison(op) {
                                        ty::leaf(Head::U24)
                                    } else {
                                        ty::apply(w, s1)
                                    },
                                    St { sub: s1, next: st2.next + 1 },
                                ),
                            ),
                            Err(c) => found == Err::<(Ty, St), _>(
                                clash_in(t, u, wanted(op, new_var(st2)), c),
                            ),
                        },
                        Err(c) => found == Err::<(Ty, St), _>(clash_in(t, b, a, c)),
                    },
                    Err(e) => found == Err::<(Ty, St), _>(e),
                },
                Err(e) => found == Err::<(Ty, St), _>(e),
            }
        }),
{
    let t = Tm { head: Th::Oper(op), kids: seq![fst, snd] };
    assert(t.kids[0] == fst && t.kids[1] == snd);
    if let Ok((a, st1)) = inference::infer(bk, env, types, fst, st) {
        if let Ok((b, st2)) = inference::infer(bk, env, types, snd, st1) {
            if let Ok((u, s)) = unify::unify(st2.sub, b, a) {
                if let Ok((w, s1)) = unify::unify(s, u, wanted(op, new_var(st2))) {
                    ty::lemma_apply_disjoint(ty::leaf(Head::U24), s1);
                }
            }
        }
    }
}

/// An operation on two terms of the same machine number type is typed. One on
/// numbers or integers has that type, a comparison has `U24`, and a power is
/// typed if and only if the type is `F24`, which it then has.
pub proof fn law_operation_on_machine_numbers(
    bk: Bk,
    env: Map<Str, Sch>,
    types: Map<Str, Sch>,
    op: Op,
    fst: Tm,
    snd: Tm,
    m: Ty,
    st: St,
    st1: St,
    st2: St,
)
    requires
        unify_cases::is_machine_type(m),
        inference::infer(bk, env, types, fst, st) == Ok::<_, Er>((m, st1)),
        inference::infer(bk, env, types, snd, st1) == Ok::<_, Er>((m, st2)),
        unify::idempotent(st2.sub),
        !st2.sub.contains_key(name::base26(st2.next)),
    ensures
        ({
            let t = Tm { head: Th::Oper(op), kids: seq![fst, snd] };
            let found = inference::infer(bk, env, types, t, st);
            let v = name::base26(st2.next);
            let both = St { sub: ty::compose(st2.sub, map![v => m]), next: st2.next + 1 };
            &&& is_arithmetic(op) || is_integer_operation(op) ==> found == Ok::<_, Er>((m, both))
            &&& is_comparison(op) ==> found == Ok::<_, Er>((ty::leaf(Head::U24), both))
            &&& op is POW && m.head is F24 ==> found == Ok::<_, Er>((m, made(st2, 1)))
            &&& op is POW && !(m.head is F24) ==> found is Err
        }),
{
    let tv = new_var(st2);
    let s = st2.sub;
    law_infer_operation(bk, env, types, op, fst, snd, st);
    unify_cases::law_unify_machines(s, m, m);
    unify_cases::law_unify_machines(s, m, ty::leaf(Head::F24));
    unify_cases::law_unify_with_machine(s, tv, m);
    assert(ty::apply(tv, s) == tv);
    assert(unify_cases::number_of(tv) == (Ty { head: Head::Number, kids: seq![tv] }));
    assert(unify_cases::integer_of(tv) == (Ty { head: Head::Integer, kids: seq![tv] }));
    ty::lemma_apply_disjoint(m, s);
    ty::lemma_apply_disjoint(m, ty::compose(s, map![name::base26(st2.next) => m]));
}

/// An operation on two terms of different machine number types is not typed.
pub proof fn law_operation_on_mixed_numbers(
    bk: Bk,
    env: Map<Str, Sch>,
    types: Map<Str, Sch>,
    op: Op,
    fst: Tm,
    snd: Tm,
    m: Ty,
    n: Ty,
    st: St,
    st1: St,
    st2: St,
)
    requires
        unify_cases::is_machine_type(m),
        unify_cases::is_machine_type(n),
        m != n,
        inference::infer(bk, env, types, fst, st) == Ok::<_, Er>((m, st1)),
        inference::infer(bk, env, types, snd, st1) == Ok::<_, Er>((n, st2)),
        unify::idempotent(st2.sub),
    ensures
        ({
            let t = Tm { head: Th::Oper(op), kids: seq![fst, snd] };
            inference::infer(bk, env, types, t, st) == Err::<(Ty, St), _>(
                clash_in(t, n, m, Clash::Mismatch),
            )
        }),
{
    law_infer_operation(bk, env, types, op, fst, snd, st);
    unify_cases::law_unify_machines(st2.sub, n, m);
}

/* Tuples and erasers */

/// The terms are inferred one after the other.
pub open spec fn is_inferred_in_turn(
    bk: Bk,
    env: Map<Str, Sch>,
    types: Map<Str, Sch>,
    ks: Seq<Tm>,
    ts: Seq<Ty>,
    sts: Seq<St>,
) -> bool {
    &&& ts.len() == ks.len()
    &&& sts.len() == ks.len() + 1
    &&& forall|i: int|
        #![trigger ts[i]]
        0 <= i < ks.len() ==> inference::infer(bk, env, types, ks[i], sts[i]) == Ok::<_, Er>(
            (ts[i], sts[i + 1]),
        )
}

/// The terms are inferred from one state to another.
pub open spec fn infers_all(
    bk: Bk,
    env: Map<Str, Sch>,
    types: Map<Str, Sch>,
    ks: Seq<Tm>,
    ts: Seq<Ty>,
    st: St,
    st1: St,
) -> bool {
    exists|sts: Seq<St>| #[trigger]
        is_inferred_in_turn(bk, env, types, ks, ts, sts) && sts[0] == st && sts.last() == st1
}

/// The first of the terms that cannot be inferred fails.
pub open spec fn infers_not_all(
    bk: Bk,
    env: Map<Str, Sch>,
    types: Map<Str, Sch>,
    ks: Seq<Tm>,
    st: St,
    e: Er,
) -> bool {
    exists|k: int, ts: Seq<Ty>, st1: St|
        {
            &&& 0 <= k < ks.len()
            &&& #[trigger] infers_all(bk, env, types, ks.take(k), ts, st, st1)
            &&& inference::infer(bk, env, types, ks[k], st1) == Err::<(Ty, St), _>(e)
        }
}

proof fn lemma_infer_list(
    bk: Bk,
    env: Map<Str, Sch>,
    types: Map<Str, Sch>,
    t: Tm,
    i: int,
    sts: Seq<St>,
    done: Seq<Ty>,
)
    requires
        0 <= i <= t.kids.len(),
        is_inferred_in_turn(bk, env, types, t.kids.take(i), done, sts),
    ensures
        match inference::infer_list(bk, env, types, t, i, sts.last(), done) {
            Ok((ts, st1)) => infers_all(bk, env, types, t.kids, ts, sts[0], st1),
            Err(e) => infers_not_all(bk, env, types, t.kids, sts[0], e),
        },
    decreases t.kids.len() - i,
{
    if i < t.kids.len() {
        match inference::infer(bk, env, types, t.kids[i], sts.last()) {
            Ok((u, st1)) => {
                let (ts1, sts1) = (done.push(u), sts.push(st1));
                let (k0, k1) = (t.kids.take(i), t.kids.take(i + 1));
                assert forall|j: int|
                    #![trigger ts1[j]]
                    0 <= j < k1.len() implies inference::infer(bk, env, types, k1[j], sts1[j])
                    == Ok::<_, Er>((ts1[j], sts1[j + 1])) by {
                    if j < i {
                        assert(done[j] == ts1[j]);
                        assert(k0[j] == k1[j]);
                    }
                }
                assert(sts1[0] == sts[0]);
                lemma_infer_list(bk, env, types, t, i + 1, sts1, ts1);
            },
            Err(e) => {
                assert(infers_all(bk, env, types, t.kids.take(i), done, sts[0], sts.last()));
                assert(infers_not_all(bk, env, types, t.kids, sts[0], e));
            },
        }
    } else {
        assert(t.kids.take(i) =~= t.kids);
        assert(infers_all(bk, env, types, t.kids, done, sts[0], sts.last()));
    }
}

/// The elements are inferred one after the other, and the type is that of tuples
/// of their types.
pub open spec fn infers_tuple(
    bk: Bk,
    env: Map<Str, Sch>,
    types: Map<Str, Sch>,
    els: Seq<Tm>,
    u: Ty,
    st: St,
    st1: St,
) -> bool {
    exists|ts: Seq<Ty>| #[trigger]
        infers_all(bk, env, types, els, ts, st, st1) && u == ty::apply(
            Ty { head: Head::Tup, kids: ts },
            st1.sub,
        )
}

/// A tuple is inferred if and only if its elements are, one after the other. It
/// has the type of tuples of their types, in their order.
pub proof fn law_infer_tuple(
    bk: Bk,
    env: Map<Str, Sch>,
    types: Map<Str, Sch>,
    fan: FanKind,
    tag: Tg,
    els: Seq<Tm>,
    st: St,
)
    ensures
        match inference::infer(bk, env, types, Tm { head: Th::Fan(fan, tag), kids: els }, st) {
            Ok((u, st1)) => infers_tuple(bk, env, types, els, u, st, st1),
            Err(e) => infers_not_all(bk, env, types, els, st, e),
        },
{
    let t = Tm { head: Th::Fan(fan, tag), kids: els };
    let (none, sts) = (Seq::<Ty>::empty(), seq![st]);
    assert(is_inferred_in_turn(bk, env, types, els.take(0), none, sts));
    lemma_infer_list(bk, env, types, t, 0, sts, none);
    let raw = inference::infer_raw(bk, env, types, t, st);
    match inference::infer_list(bk, env, types, t, 0, st, none) {
        Ok((ts, st1)) => {
            assert(raw == Ok::<_, Er>((Ty { head: Head::Tup, kids: ts }, st1)));
            assert(infers_all(bk, env, types, els, ts, st, st1));
            assert(infers_tuple(
                bk,
                env,
                types,
                els,
                ty::apply(Ty { head: Head::Tup, kids: ts }, st1.sub),
                st,
                st1,
            ));
        },
        Err(e) => {
            assert(raw == Err::<(Ty, St), _>(e));
        },
    }
}

/// An eraser has the type of nothing.
pub proof fn law_infer_eraser(
    bk: Bk,
    env: Map<Str, Sch>,
    types: Map<Str, Sch>,
    kids: Seq<Tm>,
    st: St,
)
    ensures
        inference::infer(bk, env, types, Tm { head: Th::Era, kids }, st) == Ok::<_, Er>(
            (ty::leaf(Head::NoneType), st),
        ),
{
    ty::lemma_apply_disjoint(ty::leaf(Head::NoneType), st.sub);
}

/* Switches */

/// The arms of a switch for numbers, the last first.
pub open spec fn number_arms(t: Tm, args: nat) -> Seq<Tm> {
    let n = (t.kids.len() - args - 2) as nat;
    Seq::new(n, |j: int| t.kids[args + n - j])
}

proof fn lemma_infer_numbers(
    bk: Bk,
    env: Map<Str, Sch>,
    types: Map<Str, Sch>,
    h: SwtHead,
    t: Tm,
    n: int,
    sts: Seq<St>,
    done: Seq<Ty>,
)
    requires
        t.kids.len() > h.args + 2,
        0 <= n <= t.kids.len() - h.args - 2,
        done.len() == t.kids.len() - h.args - 2 - n,
        is_inferred_in_turn(
            bk,
            env,
            types,
            number_arms(t, h.args).take(done.len() as int),
            done,
            sts,
        ),
    ensures
        match inference::infer_numbers(bk, env, types, h, t, n, sts.last(), done) {
            Ok((ts, st1)) => infers_all(
                bk,
                env,
                types,
                number_arms(t, h.args),
                ts,
                sts[0],
                st1,
            ),
            Err(e) => infers_not_all(bk, env, types, number_arms(t, h.args), sts[0], e),
        },
    decreases n,
{
    let ks = number_arms(t, h.args);
    let d = done.len() as int;
    if n > 0 {
        let k = h.args + n;
        assert(ks[d] == t.kids[k]);
        match inference::infer(bk, env, types, t.kids[k], sts.last()) {
            Ok((u, st1)) => {
                let (ts1, sts1) = (done.push(u), sts.push(st1));
                let (k0, k1) = (ks.take(d), ks.take(d + 1));
                assert forall|j: int|
                    #![trigger ts1[j]]
                    0 <= j < k1.len() implies inference::infer(bk, env, types, k1[j], sts1[j])
                    == Ok::<_, Er>((ts1[j], sts1[j + 1])) by {
                    if j < d {
                        assert(done[j] == ts1[j]);
                        assert(k0[j] == k1[j]);
                    }
                }
                assert(sts1[0] == sts[0]);
                lemma_infer_numbers(bk, env, types, h, t, n - 1, sts1, ts1);
            },
            Err(e) => {
                assert(infers_all(bk, env, types, ks.take(d), done, sts[0], sts.last()));
                assert(infers_not_all(bk, env, types, ks, sts[0], e));
            },
        }
    } else {
        assert(ks.take(d) =~= ks);
        assert(infers_all(bk, env, types, ks, done, sts[0], sts.last()));
    }
}

/// The types unify with this one in turn, which then becomes the other one.
pub open spec fn joins_to(t: Ty, ts: Seq<Ty>, sub: Map<Str, Ty>, u: Ty, sub1: Map<Str, Ty>) -> bool {
    exists|us: Seq<Ty>, ss: Seq<Map<Str, Ty>>| #[trigger]
        is_joined(us, ts, ss) && us[0] == t && ss[0] == sub && us.last() == u && ss.last() == sub1
}

/// What comes of joining the type of the last arm with those of the others.
pub open spec fn arms_join(s: Ty, ts: Seq<Ty>, st: St, ctx: Tm, found: Found) -> bool {
    match found {
        Ok((u, st1)) => st1.next == st.next && exists|w: Ty| #[trigger]
            joins_to(s, ts, st.sub, w, st1.sub) && u == ty::apply(w, st1.sub),
        Err(e) => joins_not(s, ts, st.sub, e, ctx),
    }
}

/// What comes of the arms of a switch: those for numbers are inferred as they
/// stand, the last one with a predecessor of type `U24`, and their types join.
pub open spec fn infers_arms(
    bk: Bk,
    env: Map<Str, Sch>,
    types: Map<Str, Sch>,
    h: SwtHead,
    t: Tm,
    st: St,
    found: Found,
) -> bool {
    let u24 = Sch { vars: Seq::empty(), typ: ty::leaf(Head::U24) };
    let inner = match h.pred {
        Some(p) => env.insert(p, u24),
        None => env,
    };
    let ks = number_arms(t, h.args);
    ||| {
        &&& found is Err
        &&& infers_not_all(bk, env, types, ks, st, found->Err_0)
    }
    ||| exists|ts: Seq<Ty>, st1: St|
        {
            &&& #[trigger] infers_all(bk, env, types, ks, ts, st, st1)
            &&& match inference::infer(bk, inner, types, t.kids.last(), st1) {
                Ok((s, st2)) => arms_join(s, ts, st2, t, found),
                Err(e) => found == Err::<(Ty, St), _>(e),
            }
        }
}

#[verifier::rlimit(40)]
proof fn lemma_infer_arms(
    bk: Bk,
    env: Map<Str, Sch>,
    types: Map<Str, Sch>,
    h: SwtHead,
    t: Tm,
    st: St,
)
    requires
        t.kids.len() > h.args + 2,
    ensures
        infers_arms(
            bk,
            env,
            types,
            h,
            t,
            st,
            match inference::infer_switch(bk, env, types, h, t, st) {
                Ok((w, st3)) => Ok((ty::apply(w, st3.sub), st3)),
                Err(e) => Err(e),
            },
        ),
{
    let ks = number_arms(t, h.args);
    let n = t.kids.len() - h.args - 2;
    let (none, sts) = (Seq::<Ty>::empty(), seq![st]);
    assert(is_inferred_in_turn(bk, env, types, ks.take(0), none, sts));
    lemma_infer_numbers(bk, env, types, h, t, n, sts, none);
    let u24 = Sch { vars: Seq::empty(), typ: ty::leaf(Head::U24) };
    let bs = inference::mono_binds(seq![h.pred], seq![ty::leaf(Head::U24)]);
    assert(bs =~= seq![(h.pred, u24)]);
    lemma_bind_one(env, h.pred, u24);
    let inner = scheme::bind_all(env, bs);
    let whole = inference::infer_switch(bk, env, types, h, t, st);
    let found: Found = match whole {
        Ok((w, st3)) => Ok((ty::apply(w, st3.sub), st3)),
        Err(e) => Err(e),
    };
    match inference::infer_numbers(bk, env, types, h, t, n, st, none) {
        Ok((ts, st1)) => {
            assert(infers_all(bk, env, types, ks, ts, st, st1));
            match inference::infer(bk, inner, types, t.kids.last(), st1) {
                Ok((s, st2)) => {
                    lemma_unify_each(st2, s, ts, t);
                    assert(whole == inference::unify_each(st2, s, ts, t));
                    match inference::unify_each(st2, s, ts, t) {
                        Ok((w, st3)) => {
                            assert(joins_to(s, ts, st2.sub, w, st3.sub));
                            assert(arms_join(s, ts, st2, t, found));
                        },
                        Err(_) => {
                            assert(arms_join(s, ts, st2, t, found));
                        },
                    }
                },
                Err(e) => {
                    assert(whole == Err::<(Ty, St), _>(e));
                },
            }
        },
        Err(e) => {
            assert(whole == Err::<(Ty, St), _>(e));
        },
    }
}

/// A switch is inferred if and only if its argument is, the type of the argument
/// unifies with `U24`, the arms are inferred, and their types join. Its type is
/// what they join to.
#[verifier::rlimit(40)]
pub proof fn law_infer_switch(
    bk: Bk,
    env: Map<Str, Sch>,
    types: Map<Str, Sch>,
    h: SwtHead,
    t: Tm,
    st: St,
)
    requires
        t.head == Th::Swt(h),
        t.kids.len() > h.args + 2,
    ensures
        ({
            let found = inference::infer(bk, env, types, t, st);
            let arg = t.kids[0];
            match inference::infer(bk, env, types, arg, st) {
                Ok((u, st1)) => match unify::unify(st1.sub, u, ty::leaf(Head::U24)) {
                    Ok((_, s)) => infers_arms(
                        bk,
                        env,
                        types,
                        h,
                        t,
                        St { sub: s, next: st1.next },
                        found,
                    ),
                    Err(c) => found == Err::<(Ty, St), _>(
                        clash_in(arg, u, ty::leaf(Head::U24), c),
                    ),
                },
                Err(e) => found == Err::<(Ty, St), _>(e),
            }
        }),
{
    let raw = inference::infer_raw(bk, env, types, t, st);
    if let Ok((u, st1)) = inference::infer(bk, env, types, t.kids[0], st) {
        if let Ok((_, s)) = unify::unify(st1.sub, u, ty::leaf(Head::U24)) {
            let st2 = St { sub: s, next: st1.next };
            lemma_infer_arms(bk, env, types, h, t, st2);
            assert(raw == inference::infer_switch(bk, env, types, h, t, st2));
        }
    }
}

/* Matches */

proof fn lemma_unify_pairs(st: St, xs: Seq<Ty>, ys: Seq<Ty>, ctx: Tm)
    ensures
        match inference::unify_pairs(st, xs, ys, ctx) {
            Ok(st1) => pairs_unify(xs, ys, st.sub, st1.sub) && st1.next == st.next,
            Err(e) => pairs_fail(xs, ys, st.sub, e, ctx),
        },
    decreases xs.len(),
{
    if xs.len() == 0 || ys.len() == 0 {
        let (ss, ts) = (seq![st.sub], Seq::<Ty>::empty());
        assert(unify_cases::is_run(xs, ys, common(xs, ys), ss, ts) && ss[0] == st.sub && ss.last()
            == st.sub);
        assert(pairs_unify(xs, ys, st.sub, st.sub));
    } else {
        let (xr, yr) = (xs.drop_first(), ys.drop_first());
        match infer_state::unify_in(st, xs[0], ys[0], ctx) {
            Ok((t, st1)) => {
                lemma_unify_pairs(st1, xr, yr, ctx);
                match inference::unify_pairs(st1, xr, yr, ctx) {
                    Ok(st2) => {
                        let n = common(xr, yr);
                        let (ss, ts) = choose|ss: Seq<Map<Str, Ty>>, ts: Seq<Ty>| #[trigger]
                            unify_cases::is_run(xr, yr, n, ss, ts) && ss[0] == st1.sub && ss.last()
                                == st2.sub;
                        lemma_run_more(xs, ys, n, ss, ts, st.sub, t);
                        let (ss1, ts1) = (seq![st.sub] + ss, seq![t] + ts);
                        assert(unify_cases::is_run(xs, ys, common(xs, ys), ss1, ts1) && ss1[0]
                            == st.sub && ss1.last() == st2.sub);
                        assert(pairs_unify(xs, ys, st.sub, st2.sub));
                    },
                    Err(e) => {
                        let (n, ss, ts) = choose|n: int, ss: Seq<Map<Str, Ty>>, ts: Seq<Ty>|
                            #[trigger]
                            unify_cases::is_failed_run(xr, yr, n, ss, ts, e.cause) && ss[0]
                                == st1.sub && is_about(e, ctx, xr[n], yr[n]);
                        lemma_run_more(xs, ys, n, ss, ts, st.sub, t);
                        let (ss1, ts1) = (seq![st.sub] + ss, seq![t] + ts);
                        assert(xs[n + 1] == xr[n] && ys[n + 1] == yr[n]);
                        assert(unify_cases::is_failed_run(xs, ys, n + 1, ss1, ts1, e.cause)
                            && ss1[0] == st.sub && is_about(e, ctx, xs[n + 1], ys[n + 1]));
                        assert(pairs_fail(xs, ys, st.sub, e, ctx));
                    },
                }
            },
            Err(e) => {
                let (ss, ts) = (seq![st.sub], Seq::<Ty>::empty());
                assert(unify_cases::is_run(xs, ys, 0, ss, ts));
                assert(unify_cases::is_failed_run(xs, ys, 0, ss, ts, e.cause) && ss[0] == st.sub
                    && is_about(e, ctx, xs[0], ys[0]));
                assert(pairs_fail(xs, ys, st.sub, e, ctx));
            },
        }
    }
}

proof fn lemma_run_more(
    xs: Seq<Ty>,
    ys: Seq<Ty>,
    n: int,
    ss: Seq<Map<Str, Ty>>,
    ts: Seq<Ty>,
    s: Map<Str, Ty>,
    t: Ty,
)
    requires
        xs.len() > 0,
        ys.len() > 0,
        unify_cases::is_run(xs.drop_first(), ys.drop_first(), n, ss, ts),
        unify::unify(s, xs[0], ys[0]) == Ok::<_, Clash>((t, ss[0])),
    ensures
        unify_cases::is_run(xs, ys, n + 1, seq![s] + ss, seq![t] + ts),
{
    let (ss1, ts1) = (seq![s] + ss, seq![t] + ts);
    let (xr, yr) = (xs.drop_first(), ys.drop_first());
    assert forall|i: int|
        #![trigger ts1[i]]
        0 <= i < n + 1 implies unify::unify(ss1[i], xs[i], ys[i]) == Ok::<_, Clash>(
        (ts1[i], ss1[i + 1]),
    ) by {
        if i > 0 {
            assert(ts1[i] == ts[i - 1]);
            assert(xr[i - 1] == xs[i] && yr[i - 1] == ys[i]);
        }
    }
}

/// How far both lists go.
pub open spec fn common(xs: Seq<Ty>, ys: Seq<Ty>) -> int {
    if xs.len() <= ys.len() {
        xs.len() as int
    } else {
        ys.len() as int
    }
}

/// The types unify pair by pair, as far as both lists go.
pub open spec fn pairs_unify(
    xs: Seq<Ty>,
    ys: Seq<Ty>,
    s: Map<Str, Ty>,
    s1: Map<Str, Ty>,
) -> bool {
    exists|ss: Seq<Map<Str, Ty>>, ts: Seq<Ty>| #[trigger]
        unify_cases::is_run(xs, ys, common(xs, ys), ss, ts) && ss[0] == s && ss.last() == s1
}

/// The first pair that does not unify is the error.
pub open spec fn pairs_fail(
    xs: Seq<Ty>,
    ys: Seq<Ty>,
    s: Map<Str, Ty>,
    e: Er,
    ctx: Tm,
) -> bool {
    exists|n: int, ss: Seq<Map<Str, Ty>>, ts: Seq<Ty>| #[trigger]
        unify_cases::is_failed_run(xs, ys, n, ss, ts, e.cause) && ss[0] == s && is_about(
            e,
            ctx,
            xs[n],
            ys[n],
        )
}

/// A match is inferred if and only if its argument is, its arms are, with new
/// variables for those of the datatype, and the type of the argument unifies
/// with the datatype of these. It has the type that the arms have.
pub proof fn law_infer_match(
    bk: Bk,
    env: Map<Str, Sch>,
    types: Map<Str, Sch>,
    h: MatHead,
    t: Tm,
    st: St,
)
    requires
        t.head == Th::Mat(h),
        t.kids.len() > 0,
        h.arms.len() > 0,
        h.arms[0].0 is Some,
    ensures
        ({
            let found = inference::infer(bk, env, types, t, st);
            let adt = bk.adts[bk.ctrs[h.arms[0].0->Some_0]];
            let arg = t.kids[0];
            match inference::infer(bk, env, types, arg, st) {
                Ok((u, st1)) => {
                    let m = scheme::fresh_map(adt.vars, st1.next);
                    let data = Ty {
                        head: Head::Ctr(adt.name),
                        kids: Seq::new(adt.vars.len(), |i: int| ty::image(m, adt.vars[i])),
                    };
                    match inference::infer_cases(
                        bk,
                        env,
                        types,
                        adt,
                        h,
                        t,
                        0,
                        m,
                        made(st1, adt.vars.len()),
                    ) {
                        Ok((n, st2)) => match unify::unify(st2.sub, u, data) {
                            Ok((_, s)) => found == Ok::<_, Er>(
                                (ty::apply(n, s), St { sub: s, next: st2.next }),
                            ),
                            Err(c) => found == Err::<(Ty, St), _>(clash_in(arg, u, data, c)),
                        },
                        Err(e) => found == Err::<(Ty, St), _>(e),
                    }
                },
                Err(e) => found == Err::<(Ty, St), _>(e),
            }
        }),
{
    let adt = bk.adts[bk.ctrs[h.arms[0].0->Some_0]];
    let raw = inference::infer_raw(bk, env, types, t, st);
    if let Ok((u, st1)) = inference::infer(bk, env, types, t.kids[0], st) {
        let m = scheme::fresh_map(adt.vars, st1.next);
        let data = Ty {
            head: Head::Ctr(adt.name),
            kids: Seq::new(adt.vars.len(), |i: int| ty::image(m, adt.vars[i])),
        };
        let own = inference::adt_type(adt);
        ty::lemma_apply_kids(own, m);
        assert(ty::apply_all(own.kids, m) =~= data.kids);
        assert(ty::apply(own, m) == data);
    }
}

/// An arm of a match, and those after it, are inferred if and only if the arm
/// is, with new variables as the types of its names, these unify with the types of
/// the fields of the constructor, the arms after it are inferred, and the types
/// unify.
#[verifier::rlimit(40)]
pub proof fn law_infer_arm(
    bk: Bk,
    env: Map<Str, Sch>,
    types: Map<Str, Sch>,
    adt: Am,
    h: MatHead,
    t: Tm,
    i: int,
    m: Map<Str, Ty>,
    st: St,
)
    requires
        0 <= i < h.arms.len(),
        t.kids.len() == 1 + h.args + h.arms.len(),
        h.arms[i].0 is Some,
    ensures
        ({
            let found = inference::infer_cases(bk, env, types, adt, h, t, i, m, st);
            let arm = t.kids[1 + h.args + i];
            let xs = h.arms[i].1;
            let fields = adt.ctrs[h.arms[i].0->Some_0].fields;
            let want = Seq::new(fields.len(), |k: int| ty::apply(fields[k].typ, m));
            match inference::infer(
                bk,
                with_new_vars(env, xs, st),
                types,
                arm,
                made(st, xs.len()),
            ) {
                Ok((u, st1)) => {
                    let have = new_vars_in(xs.len(), st, st1.sub);
                    ||| found is Err && pairs_fail(have, want, st1.sub, found->Err_0, arm)
                    ||| exists|s: Map<Str, Ty>|
                        {
                            &&& #[trigger] pairs_unify(have, want, st1.sub, s)
                            &&& match inference::infer_cases(
                                bk,
                                env,
                                types,
                                adt,
                                h,
                                t,
                                i + 1,
                                m,
                                St { sub: s, next: st1.next },
                            ) {
                                Ok((rest, st2)) => match unify::unify(st2.sub, u, rest) {
                                    Ok((w, s1)) => found == Ok::<_, Er>(
                                        (w, St { sub: s1, next: st2.next }),
                                    ),
                                    Err(c) => found == Err::<(Ty, St), _>(
                                        clash_in(arm, u, rest, c),
                                    ),
                                },
                                Err(e) => found == Err::<(Ty, St), _>(e),
                            }
                        }
                },
                Err(e) => found == Err::<(Ty, St), _>(e),
            }
        }),
{
    let arm = t.kids[1 + h.args + i];
    let xs = h.arms[i].1;
    let ctr = adt.ctrs[h.arms[i].0->Some_0];
    let fields = ctr.fields;
    let want = Seq::new(fields.len(), |k: int| ty::apply(fields[k].typ, m));
    assert(want =~= inference::field_types(ctr, m));
    lemma_with_new_vars(env, xs, st);
    if let Ok((u, st1)) = inference::infer(
        bk,
        with_new_vars(env, xs, st),
        types,
        arm,
        made(st, xs.len()),
    ) {
        let have = new_vars_in(xs.len(), st, st1.sub);
        lemma_new_vars_in(xs.len(), st, st1.sub);
        lemma_unify_pairs(st1, have, want, arm);
        if let Ok(st2) = inference::unify_pairs(st1, have, want, arm) {
            assert(pairs_unify(have, want, st1.sub, st2.sub));
            assert(st2 == (St { sub: st2.sub, next: st1.next }));
        }
    }
}

/// Without arms left, a match has a new variable as its type.
pub proof fn law_infer_no_arm(
    bk: Bk,
    env: Map<Str, Sch>,
    types: Map<Str, Sch>,
    adt: Am,
    h: MatHead,
    t: Tm,
    m: Map<Str, Ty>,
    st: St,
)
    ensures
        inference::infer_cases(bk, env, types, adt, h, t, h.arms.len() as int, m, st) == Ok::<
            _,
            Er,
        >((new_var(st), made(st, 1))),
{
}

} // verus!
