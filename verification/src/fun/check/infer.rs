//! Type inference for terms.

use crate::fun::book::{Adt, AdtCtr, Bk, Book};
use crate::fun::check::frame;
use crate::fun::check::infer_state;
use crate::fun::check::infer_state::{Er, InferState, St, TypeError};
use crate::fun::check::inference;
use crate::fun::check::scheme;
use crate::fun::check::scheme::{Sch, Scheme, TypeEnv};
use crate::fun::check::unify;
use crate::fun::term;
use crate::fun::term::{FanKind, MatHead, MatchRule, Num, Op, Pattern, SwtHead, Term, Th, Tm};
use crate::fun::ty;
use crate::fun::ty::{Head, Subst, Ty, Type};
use crate::name;
use crate::name::{Name, Str};
use crate::name_map::NameMap;
use vstd::prelude::*;

verus! {

/// The environment and the state are fit for inference, and the term can be
/// inferred in them.
pub open spec fn ready(bk: Bk, env: Map<Str, Sch>, types: Map<Str, Sch>, t: Tm, st: St) -> bool {
    &&& frame::clean(env, st)
    &&& inference::types_closed(types)
    &&& inference::fields_closed(bk)
    &&& inference::checkable(
        bk,
        inference::known(env, types),
        inference::known(env, types),
        t,
    )
}

/// The type is what was inferred, maybe before the substitution is applied.
spec fn found(r: Result<(Ty, St), Er>, t: Ty, st: St) -> bool {
    match r {
        Ok((u, st1)) => st1 == st && ty::apply(t, st.sub) == ty::apply(u, st.sub),
        Err(_) => false,
    }
}

/// New type variables, one for each name, and the names bound to them.
fn fresh_binds(xs: &Vec<Option<Name>>, state: &mut InferState) -> (r: (
    Vec<Type>,
    Vec<(Option<Name>, Scheme)>,
))
    requires
        old(state).wf(),
    ensures
        final(state).wf(),
        final(state)@ == inference::after(old(state)@, xs@.len()),
        ty::models(r.0@) == inference::new_vars(xs@.len(), old(state)@.next),
        scheme::bind_models(r.1@) == inference::mono_binds(
            term::opt_names(xs@),
            inference::new_vars(xs@.len(), old(state)@.next),
        ),
{
    let mut tvs: Vec<Type> = Vec::new();
    let mut bs: Vec<(Option<Name>, Scheme)> = Vec::new();
    let n: usize = xs.len();
    let ghost next = state@.next;
    let mut i: usize = 0;
    while i < n
        invariant
            i <= n,
            n == xs@.len(),
            next == old(state)@.next,
            state.wf(),
            state@ == inference::after(old(state)@, i as nat),
            tvs@.len() == i,
            bs@.len() == i,
            forall|j: int|
                0 <= j < i ==> (#[trigger] tvs@[j])@ == ty::ty_var(name::base26((next + j) as nat)),
            forall|j: int|
                0 <= j < i ==> name::opt_name((#[trigger] bs@[j]).0) == name::opt_name(xs@[j])
                    && bs@[j].1@ == scheme::mono(ty::ty_var(name::base26((next + j) as nat))),
        decreases n - i,
    {
        let tv = state.fresh();
        bs.push((name::clone_opt_name(&xs[i]), Scheme::mono(tv.clone())));
        tvs.push(tv);
        i += 1;
    }
    proof {
        let vs = inference::new_vars(xs@.len(), next);
        assert(ty::models(tvs@) =~= vs);
        assert(scheme::bind_models(bs@) =~= inference::mono_binds(term::opt_names(xs@), vs)) by {
            assert forall|j: int| 0 <= j < n implies scheme::bind_models(bs@)[j] == inference::mono_binds(
                term::opt_names(xs@),
                vs,
            )[j] by {
                assert(name::opt_name(bs@[j].0) == name::opt_name(xs@[j]));
            }
        }
    }
    (tvs, bs)
}

/// The types under the substitution.
pub fn prune_all(ts: &Vec<Type>, state: &mut InferState) -> (r: Vec<Type>)
    requires
        old(state).wf(),
    ensures
        final(state).wf(),
        final(state)@ == old(state)@,
        ty::models(r@) == ty::apply_all(ty::models(ts@), old(state)@.sub),
{
    let mut r: Vec<Type> = Vec::new();
    let n: usize = ts.len();
    let mut i: usize = 0;
    while i < n
        invariant
            i <= n,
            n == ts@.len(),
            state.wf(),
            state@ == old(state)@,
            r@.len() == i,
            forall|j: int| 0 <= j < i ==> (#[trigger] r@[j])@ == ty::apply(ts@[j]@, old(state)@.sub),
        decreases n - i,
    {
        let t = state.prune(&ts[i]);
        r.push(t);
        i += 1;
    }
    assert(ty::models(r@) =~= ty::apply_all(ty::models(ts@), old(state)@.sub));
    r
}

/// Unifies the types of two lists pair by pair, as far as both go.
pub fn unify_fields(
    inf_ts: &Vec<Type>,
    exp_ts: &Vec<Type>,
    ctx: &Term,
    state: &mut InferState,
) -> (r: Result<(), TypeError>)
    requires
        old(state).wf(),
    ensures
        final(state).wf(),
        match r {
            Ok(()) => inference::unify_pairs(
                old(state)@,
                ty::models(inf_ts@),
                ty::models(exp_ts@),
                ctx@,
            ) == Ok::<_, Er>(final(state)@),
            Err(e) => inference::unify_pairs(
                old(state)@,
                ty::models(inf_ts@),
                ty::models(exp_ts@),
                ctx@,
            ) == Err::<St, _>(e@),
        },
{
    let ghost (us, vs) = (ty::models(inf_ts@), ty::models(exp_ts@));
    let n: usize = if inf_ts.len() < exp_ts.len() {
        inf_ts.len()
    } else {
        exp_ts.len()
    };
    let mut i: usize = 0;
    proof {
        assert(us.skip(0) =~= us);
        assert(vs.skip(0) =~= vs);
    }
    while i < n
        invariant
            i <= n,
            n <= inf_ts@.len(),
            n <= exp_ts@.len(),
            us == ty::models(inf_ts@),
            vs == ty::models(exp_ts@),
            state.wf(),
            inference::unify_pairs(old(state)@, us, vs, ctx@) == inference::unify_pairs(
                state@,
                us.skip(i as int),
                vs.skip(i as int),
                ctx@,
            ),
        decreases n - i,
    {
        proof {
            let (ur, vr) = (us.skip(i as int), vs.skip(i as int));
            assert(ur[0] == inf_ts@[i as int]@);
            assert(vr[0] == exp_ts@[i as int]@);
            assert(ur.drop_first() =~= us.skip(i + 1));
            assert(vr.drop_first() =~= vs.skip(i + 1));
        }
        match state.unify_term(&inf_ts[i], &exp_ts[i], ctx) {
            Ok(_) => {},
            Err(e) => {
                return Err(e);
            },
        }
        i += 1;
    }
    Ok(())
}

/// Instantiates the type constructor of an ADT, also returning the
/// ADT var to instantiated var substitution, to be used when
/// instantiating the types of the fields of the eliminated constructors.
pub fn instantiate_adt(adt: &Adt, state: &mut InferState) -> (r: (Subst, Type))
    requires
        old(state).wf(),
    ensures
        final(state).wf(),
        final(state)@ == inference::after(old(state)@, adt@.vars.len()),
        r.0@ == scheme::fresh_map(adt@.vars, old(state)@.next),
        r.1@ == ty::apply(inference::adt_type(adt@), r.0@),
{
    let s = state.fresh_subst(&adt.vars);
    let mut args: Vec<Type> = Vec::new();
    let n: usize = adt.vars.len();
    let mut i: usize = 0;
    while i < n
        invariant
            i <= n,
            n == adt.vars@.len(),
            args@.len() == i,
            forall|j: int| 0 <= j < i ==> (#[trigger] args@[j])@ == ty::ty_var(adt.vars@[j]@),
        decreases n - i,
    {
        args.push(Type::Var(adt.vars[i].clone()));
        i += 1;
    }
    let t = Type::Ctr(adt.name.clone(), args);
    assert(t@.kids =~= inference::adt_type(adt@).kids);
    let t = t.subst(&s);
    (s, t)
}

/// Infer the type of a term in the given environment.
///
/// The type environment must contain bindings for all the free variables of the term.
///
/// The state records the type constraints imposed on type variables by the term.
/// The returned type is the type of the term.
pub fn infer(
    env: &mut TypeEnv,
    book: &Book,
    types: &NameMap<Scheme>,
    term: &Term,
    state: &mut InferState,
) -> (r: Result<Type, TypeError>)
    requires
        old(state).wf(),
        ready(book@, old(env)@, types@, term@, old(state)@),
    ensures
        final(state).wf(),
        match r {
            Ok(t) => {
                &&& inference::infer(book@, old(env)@, types@, term@, old(state)@) == Ok::<_, Er>(
                    (t@, final(state)@),
                )
                &&& final(env)@ == old(env)@
            },
            Err(e) => inference::infer(book@, old(env)@, types@, term@, old(state)@) == Err::<
                (Ty, St),
                _,
            >(e@),
        },
    decreases term, 2nat,
{
    match infer_arm(env, book, types, term, state) {
        Ok(res) => Ok(state.prune(&res)),
        Err(e) => Err(e),
    }
}

/// The type of a name.
fn infer_name(
    env: &TypeEnv,
    types: &NameMap<Scheme>,
    nam: &Name,
    state: &mut InferState,
) -> (r: Type)
    requires
        old(state).wf(),
        inference::known(env@, types@).contains(nam@),
    ensures
        final(state).wf(),
        (r@, final(state)@) == inference::infer_name(env@, types@, nam@, old(state)@),
{
    if let Some(scheme) = env.0.get(nam) {
        state.instantiate(scheme)
    } else {
        let scheme = types.get(nam).unwrap();
        state.instantiate(scheme)
    }
}

fn infer_arm(
    env: &mut TypeEnv,
    book: &Book,
    types: &NameMap<Scheme>,
    term: &Term,
    state: &mut InferState,
) -> (r: Result<Type, TypeError>)
    requires
        old(state).wf(),
        ready(book@, old(env)@, types@, term@, old(state)@),
    ensures
        final(state).wf(),
        match r {
            Ok(t) => {
                &&& found(
                    inference::infer_raw(book@, old(env)@, types@, term@, old(state)@),
                    t@,
                    final(state)@,
                )
                &&& final(env)@ == old(env)@
            },
            Err(e) => inference::infer_raw(book@, old(env)@, types@, term@, old(state)@) == Err::<
                (Ty, St),
                _,
            >(e@),
        },
    decreases term, 1nat,
{
    match term {
        Term::Var { nam } | Term::Ref { nam } => {
            let t = infer_name(env, types, nam, state);
            Ok(t)
        },
        Term::Lam { pat, bod, .. } => infer_lambda(env, book, types, pat, bod, state, Ghost(term@)),
        Term::App { fun, arg, .. } => infer_app(env, book, types, term, fun, arg, state),
        Term::Let { pat, val, nxt } => infer_let_term(env, book, types, term, pat, val, nxt, state),
        Term::Mat { arg, arms, .. } => infer_mat(env, book, types, term, arg, arms, state),
        Term::Num { val } => {
            let t = match val {
                Num::U24(_) => Type::U24,
                Num::I24(_) => Type::I24,
                Num::F24(_) => Type::F24,
            };
            Ok(t)
        },
        Term::Oper { opr, fst, snd } => infer_oper(env, book, types, term, *opr, fst, snd, state),
        Term::Swt { arg, pred, arms, .. } => infer_swt(env, book, types, term, arg, pred, arms, state),
        Term::Fan { els, .. } => {
            assert(term@.kids =~= term::tm_models(els@));
            infer_tuple(env, book, types, els, state, Ghost(term@))
        },
        _ => {
            assert(term@.head is Era);
            Ok(Type::NoneType)
        },
    }
}

fn infer_app(
    env: &mut TypeEnv,
    book: &Book,
    types: &NameMap<Scheme>,
    term: &Term,
    fun: &Term,
    arg: &Term,
    state: &mut InferState,
) -> (r: Result<Type, TypeError>)
    requires
        old(state).wf(),
        ready(book@, old(env)@, types@, term@, old(state)@),
        term@.head is App,
        term@.kids == seq![fun@, arg@],
        decreases_to!(term => fun),
        decreases_to!(term => arg),
    ensures
        final(state).wf(),
        match r {
            Ok(t) => {
                &&& found(
                    inference::infer_raw(book@, old(env)@, types@, term@, old(state)@),
                    t@,
                    final(state)@,
                )
                &&& final(env)@ == old(env)@
            },
            Err(e) => inference::infer_raw(book@, old(env)@, types@, term@, old(state)@) == Err::<
                (Ty, St),
                _,
            >(e@),
        },
    decreases term, 0nat,
{
    let ghost env0 = env@;
    let ghost st0 = state@;
    proof {
        frame::lemma_step_refl(env0, st0);
    }
    let fun_t = match infer(env, book, types, fun, state) {
        Ok(t) => t,
        Err(e) => {
            return Err(e);
        },
    };
    proof {
        inference::lemma_frame_next(book@, env0, types@, fun@, st0, st0);
        inference::lemma_steps(env0, st0, state@);
    }
    let arg_t = match infer(env, book, types, arg, state) {
        Ok(t) => t,
        Err(e) => {
            return Err(e);
        },
    };
    let app_t = state.fresh();
    let expected = Type::Arr(Box::new(arg_t), Box::new(app_t.clone()));
    match state.unify_term(&fun_t, &expected, fun) {
        Ok(_) => {},
        Err(e) => {
            return Err(e);
        },
    }
    proof {
        state.lemma_wf();
        unify::lemma_idempotent_apply(state@.sub, app_t@);
    }
    Ok(state.prune(&app_t))
}

fn infer_let_term(
    env: &mut TypeEnv,
    book: &Book,
    types: &NameMap<Scheme>,
    term: &Term,
    pat: &Pattern,
    val: &Term,
    nxt: &Term,
    state: &mut InferState,
) -> (r: Result<Type, TypeError>)
    requires
        old(state).wf(),
        ready(book@, old(env)@, types@, term@, old(state)@),
        term@.head == Th::Let(pat@),
        term@.kids == seq![val@, nxt@],
        decreases_to!(term => val),
        decreases_to!(term => nxt),
    ensures
        final(state).wf(),
        match r {
            Ok(t) => {
                &&& found(
                    inference::infer_raw(book@, old(env)@, types@, term@, old(state)@),
                    t@,
                    final(state)@,
                )
                &&& final(env)@ == old(env)@
            },
            Err(e) => inference::infer_raw(book@, old(env)@, types@, term@, old(state)@) == Err::<
                (Ty, St),
                _,
            >(e@),
        },
    decreases term, 0nat,
{
    let ghost env0 = env@;
    let ghost st0 = state@;
    proof {
        frame::lemma_step_refl(env0, st0);
    }
    let val_t = match infer(env, book, types, val, state) {
        Ok(t) => t,
        Err(e) => {
            return Err(e);
        },
    };
    proof {
        inference::lemma_frame_next(book@, env0, types@, val@, st0, st0);
    }
    infer_let(env, book, types, pat, val, nxt, val_t, state, Ghost(term@), Ghost(st0))
}

fn infer_mat(
    env: &mut TypeEnv,
    book: &Book,
    types: &NameMap<Scheme>,
    term: &Term,
    arg: &Term,
    arms: &Vec<MatchRule>,
    state: &mut InferState,
) -> (r: Result<Type, TypeError>)
    requires
        old(state).wf(),
        ready(book@, old(env)@, types@, term@, old(state)@),
        term@.head is Mat,
        term@.head->Mat_0.arms == term::arm_heads(arms@),
        term@.kids[0] == arg@,
        forall|j: int|
            0 <= j < arms@.len() ==> term@.kids[1 + term@.head->Mat_0.args + j] == (#[trigger] arms@[j]).2@,
        decreases_to!(term => arg),
        decreases_to!(term => arms),
    ensures
        final(state).wf(),
        match r {
            Ok(t) => {
                &&& found(
                    inference::infer_raw(book@, old(env)@, types@, term@, old(state)@),
                    t@,
                    final(state)@,
                )
                &&& final(env)@ == old(env)@
            },
            Err(e) => inference::infer_raw(book@, old(env)@, types@, term@, old(state)@) == Err::<
                (Ty, St),
                _,
            >(e@),
        },
    decreases term, 0nat,
{
    let ghost env0 = env@;
    let ghost st0 = state@;
    proof {
        frame::lemma_step_refl(env0, st0);
    }
    // Infer type of the scrutinee
    let t1 = match infer(env, book, types, arg, state) {
        Ok(t) => t,
        Err(e) => {
            return Err(e);
        },
    };
    let ghost h = term@.head->Mat_0;
    let ghost st1 = state@;
    proof {
        inference::lemma_frame_next(book@, env0, types@, arg@, st0, st0);
        assert(h.arms[0] == term::arm_heads(arms@)[0]);
    }
    // Instantiate the expected type of the scrutinee
    let ctr_nam = arms[0].0.as_ref().unwrap();
    let adt_name = book.ctrs.get(ctr_nam).unwrap();
    let adt = book.adts.get(adt_name).unwrap();
    let (adt_s, adt_t) = instantiate_adt(adt, state);
    proof {
        frame::lemma_step_fresh(env0, st0, st1, adt@.vars.len());
    }
    // For each case, infer the types and unify them all.
    // Unify the inferred type of the destructured fields with the
    // expected from what we inferred from the scrutinee.
    let nxt_t = match infer_match_cases(
        env,
        book,
        types,
        adt,
        arms,
        0,
        &adt_s,
        state,
        Ghost(term@),
        Ghost(h),
        Ghost(st0),
        Ghost(st1.next),
    ) {
        Ok(t) => t,
        Err(e) => {
            return Err(e);
        },
    };
    // Unify the inferred type with the expected type
    match state.unify_term(&t1, &adt_t, arg) {
        Ok(_) => {},
        Err(e) => {
            return Err(e);
        },
    }
    proof {
        state.lemma_wf();
        unify::lemma_idempotent_apply(state@.sub, nxt_t@);
    }
    Ok(state.prune(&nxt_t))
}

fn infer_oper(
    env: &mut TypeEnv,
    book: &Book,
    types: &NameMap<Scheme>,
    term: &Term,
    opr: Op,
    fst: &Term,
    snd: &Term,
    state: &mut InferState,
) -> (r: Result<Type, TypeError>)
    requires
        old(state).wf(),
        ready(book@, old(env)@, types@, term@, old(state)@),
        term@.head == Th::Oper(opr),
        term@.kids == seq![fst@, snd@],
        decreases_to!(term => fst),
        decreases_to!(term => snd),
    ensures
        final(state).wf(),
        match r {
            Ok(t) => {
                &&& found(
                    inference::infer_raw(book@, old(env)@, types@, term@, old(state)@),
                    t@,
                    final(state)@,
                )
                &&& final(env)@ == old(env)@
            },
            Err(e) => inference::infer_raw(book@, old(env)@, types@, term@, old(state)@) == Err::<
                (Ty, St),
                _,
            >(e@),
        },
    decreases term, 0nat,
{
    let ghost env0 = env@;
    let ghost st0 = state@;
    proof {
        frame::lemma_step_refl(env0, st0);
    }
    let t1 = match infer(env, book, types, fst, state) {
        Ok(t) => t,
        Err(e) => {
            return Err(e);
        },
    };
    proof {
        inference::lemma_frame_next(book@, env0, types@, fst@, st0, st0);
        inference::lemma_steps(env0, st0, state@);
    }
    let t2 = match infer(env, book, types, snd, state) {
        Ok(t) => t,
        Err(e) => {
            return Err(e);
        },
    };
    let t_args = match state.unify_term(&t2, &t1, term) {
        Ok(t) => t,
        Err(e) => {
            return Err(e);
        },
    };
    infer_op(opr, &t_args, term, state)
}

fn infer_swt(
    env: &mut TypeEnv,
    book: &Book,
    types: &NameMap<Scheme>,
    term: &Term,
    arg: &Term,
    pred: &Option<Name>,
    arms: &Vec<Term>,
    state: &mut InferState,
) -> (r: Result<Type, TypeError>)
    requires
        old(state).wf(),
        ready(book@, old(env)@, types@, term@, old(state)@),
        term@.head is Swt,
        term@.head->Swt_0.pred == name::opt_name(*pred),
        term@.kids.len() == 1 + term@.head->Swt_0.args + arms@.len(),
        term@.kids[0] == arg@,
        forall|j: int|
            0 <= j < arms@.len() ==> term@.kids[1 + term@.head->Swt_0.args + j] == (#[trigger] arms@[j])@,
        decreases_to!(term => arg),
        decreases_to!(term => arms),
    ensures
        final(state).wf(),
        match r {
            Ok(t) => {
                &&& found(
                    inference::infer_raw(book@, old(env)@, types@, term@, old(state)@),
                    t@,
                    final(state)@,
                )
                &&& final(env)@ == old(env)@
            },
            Err(e) => inference::infer_raw(book@, old(env)@, types@, term@, old(state)@) == Err::<
                (Ty, St),
                _,
            >(e@),
        },
    decreases term, 0nat,
{
    let ghost env0 = env@;
    let ghost st0 = state@;
    proof {
        frame::lemma_step_refl(env0, st0);
    }
    let t1 = match infer(env, book, types, arg, state) {
        Ok(t) => t,
        Err(e) => {
            return Err(e);
        },
    };
    let ghost h = term@.head->Swt_0;
    proof {
        inference::lemma_frame_next(book@, env0, types@, arg@, st0, st0);
        inference::lemma_within_leaf(Head::U24, env0, st0, state@.next);
        frame::lemma_step_unify(env0, st0, state@, t1@, ty::leaf(Head::U24), arg@);
    }
    match state.unify_term(&t1, &Type::U24, arg) {
        Ok(_) => {},
        Err(e) => {
            return Err(e);
        },
    }
    infer_switch(env, book, types, pred, arms, term, state, Ghost(h), Ghost(st0))
}

fn infer_tuple(
    env: &mut TypeEnv,
    book: &Book,
    types: &NameMap<Scheme>,
    els: &Vec<Term>,
    state: &mut InferState,
    Ghost(t): Ghost<Tm>,
) -> (r: Result<Type, TypeError>)
    requires
        old(state).wf(),
        ready(book@, old(env)@, types@, t, old(state)@),
        t.head is Fan,
        t.kids == term::tm_models(els@),
    ensures
        final(state).wf(),
        match r {
            Ok(u) => {
                &&& found(
                    inference::infer_raw(book@, old(env)@, types@, t, old(state)@),
                    u@,
                    final(state)@,
                )
                &&& final(env)@ == old(env)@
            },
            Err(e) => inference::infer_raw(book@, old(env)@, types@, t, old(state)@) == Err::<
                (Ty, St),
                _,
            >(e@),
        },
    decreases els, 1nat,
{
    let ts = match infer_list(env, book, types, els, state, Ghost(t)) {
        Ok(ts) => ts,
        Err(e) => {
            return Err(e);
        },
    };
    let ps = prune_all(&ts, state);
    let r = Type::Tup(ps);
    proof {
        state.lemma_wf();
        let u = Ty { head: Head::Tup, kids: ty::models(ts@) };
        ty::lemma_apply_kids(u, state@.sub);
        assert(r@.kids =~= ty::models(ps@));
        unify::lemma_idempotent_apply(state@.sub, u);
    }
    Ok(r)
}

/// The type of a native operation on arguments of a type.
fn infer_op(opr: Op, t_args: &Type, term: &Term, state: &mut InferState) -> (r: Result<
    Type,
    TypeError,
>)
    requires
        old(state).wf(),
    ensures
        final(state).wf(),
        match r {
            Ok(t) => found(
                inference::infer_op(opr, t_args@, old(state)@, term@),
                t@,
                final(state)@,
            ),
            Err(e) => inference::infer_op(opr, t_args@, old(state)@, term@) == Err::<(Ty, St), _>(e@),
        },
{
    // Check numeric type matches the operation
    let tv = state.fresh();
    let t_opr = match opr {
        // Any numeric type
        Op::ADD | Op::SUB | Op::MUL | Op::DIV => {
            match state.unify_term(t_args, &Type::Number(Box::new(tv)), term) {
                Ok(t) => t,
                Err(e) => {
                    return Err(e);
                },
            }
        },
        Op::EQ | Op::NEQ | Op::LT | Op::GT | Op::GE | Op::LE => {
            match state.unify_term(t_args, &Type::Number(Box::new(tv)), term) {
                Ok(_) => Type::U24,
                Err(e) => {
                    return Err(e);
                },
            }
        },
        // Integers
        Op::REM | Op::AND | Op::OR | Op::XOR | Op::SHL | Op::SHR => {
            match state.unify_term(t_args, &Type::Integer(Box::new(tv)), term) {
                Ok(t) => t,
                Err(e) => {
                    return Err(e);
                },
            }
        },
        // Floating
        Op::POW => match state.unify_term(t_args, &Type::F24, term) {
            Ok(t) => t,
            Err(e) => {
                return Err(e);
            },
        },
    };
    proof {
        state.lemma_wf();
        unify::lemma_idempotent_apply(state@.sub, t_opr@);
    }
    Ok(state.prune(&t_opr))
}

proof fn lemma_arr_apply(a: Ty, b: Ty, s: Map<Str, Ty>)
    requires
        unify::idempotent(s),
    ensures
        ty::apply(ty::ty_arr(a, b), s) == ty::ty_arr(ty::apply(a, s), ty::apply(b, s)),
        ty::apply(ty::ty_arr(ty::apply(a, s), ty::apply(b, s)), s) == ty::apply(ty::ty_arr(a, b), s),
{
    let u = ty::ty_arr(a, b);
    let v = ty::ty_arr(ty::apply(a, s), ty::apply(b, s));
    ty::lemma_apply_kids(u, s);
    assert(v.kids =~= ty::apply_all(u.kids, s));
    unify::lemma_idempotent_apply(s, u);
}

fn infer_lambda(
    env: &mut TypeEnv,
    book: &Book,
    types: &NameMap<Scheme>,
    pat: &Pattern,
    bod: &Term,
    state: &mut InferState,
    Ghost(t): Ghost<Tm>,
) -> (r: Result<Type, TypeError>)
    requires
        old(state).wf(),
        ready(book@, old(env)@, types@, t, old(state)@),
        t.head is Lam,
        t.head->Lam_1 == pat@,
        t.kids == seq![bod@],
    ensures
        final(state).wf(),
        match r {
            Ok(u) => {
                &&& found(
                    inference::infer_raw(book@, old(env)@, types@, t, old(state)@),
                    u@,
                    final(state)@,
                )
                &&& final(env)@ == old(env)@
            },
            Err(e) => inference::infer_raw(book@, old(env)@, types@, t, old(state)@) == Err::<
                (Ty, St),
                _,
            >(e@),
        },
    decreases bod, 3nat,
{
    let ghost env0 = env@;
    let ghost st0 = state@;
    let xs = pat.binds();
    let (tvs, bs) = fresh_binds(&xs, state);
    let ghost names = term::opt_names(xs@);
    proof {
        assert(inference::checkable(
            book@,
            inference::with_names(inference::known(env0, types@), names),
            inference::known(env0, types@),
            bod@,
        ));
        frame::lemma_step_refl(env0, st0);
        inference::lemma_new_binds(env0, st0, st0, names);
        assert(names.len() == 1);
        assert(inference::new_vars(1, st0.next) =~= seq![ty::ty_var(name::base26(st0.next))]);
        inference::lemma_frame_inner(
            book@,
            env0,
            types@,
            scheme::bind_models(bs@),
            names,
            bod@,
            st0,
            state@,
        );
        scheme::law_pop_undoes_add(env0, scheme::bind_models(bs@));
        assert(ty::models(tvs@)[0] == tvs@[0]@);
    }
    let old_bnd = env.add_binds(&bs);
    let bod_t = match infer(env, book, types, bod, state) {
        Ok(t) => t,
        Err(e) => {
            return Err(e);
        },
    };
    env.pop_binds(old_bnd);
    let tv = &tvs[0];
    let var_t = state.prune(tv);
    let ret_t = state.prune(&bod_t);
    let r = Type::Arr(Box::new(var_t), Box::new(ret_t));
    proof {
        state.lemma_wf();
        lemma_arr_apply(tv@, bod_t@, state@.sub);
    }
    Ok(r)
}

fn infer_let(
    env: &mut TypeEnv,
    book: &Book,
    types: &NameMap<Scheme>,
    pat: &Pattern,
    val: &Term,
    nxt: &Term,
    val_t: Type,
    state: &mut InferState,
    Ghost(t): Ghost<Tm>,
    Ghost(st0): Ghost<St>,
) -> (r: Result<Type, TypeError>)
    requires
        old(state).wf(),
        frame::clean(old(env)@, st0),
        frame::step(old(env)@, st0, old(state)@),
        frame::within(val_t@, old(env)@, st0, old(state)@.next),
        inference::types_closed(types@),
        inference::fields_closed(book@),
        t.kids == seq![val@, nxt@],
        inference::is_let_pattern(pat@),
        inference::checkable(
            book@,
            inference::with_names(inference::known(old(env)@, types@), term::pat_binds(pat@)),
            inference::known(old(env)@, types@),
            nxt@,
        ),
    ensures
        final(state).wf(),
        match r {
            Ok(u) => {
                &&& found(
                    inference::infer_let(
                        book@,
                        old(env)@,
                        types@,
                        pat@,
                        t,
                        val_t@,
                        old(state)@,
                    ),
                    u@,
                    final(state)@,
                )
                &&& final(env)@ == old(env)@
            },
            Err(e) => inference::infer_let(
                book@,
                old(env)@,
                types@,
                pat@,
                t,
                val_t@,
                old(state)@,
            ) == Err::<(Ty, St), _>(e@),
        },
    decreases nxt, 3nat,
{
    let ghost env0 = env@;
    let ghost st1 = state@;
    let nxt_t = match pat {
        Pattern::Var(nam) => {
            proof {
                inference::lemma_generalized_bind(env0, st0, st1, val_t@);
                frame::lemma_env_fv(env0, st1);
                frame::lemma_step_refl(env0, st1);
            }
            let scheme = state.generalize(&val_t, env);
            let mut bs: Vec<(Option<Name>, Scheme)> = Vec::new();
            bs.push((name::clone_opt_name(nam), scheme));
            proof {
                let sch = infer_state::generalized(val_t@, env0, st1.sub);
                assert(scheme::bind_models(bs@) =~= seq![(name::opt_name(*nam), sch)]);
                inference::lemma_frame_inner(
                    book@,
                    env0,
                    types@,
                    scheme::bind_models(bs@),
                    term::pat_binds(pat@),
                    nxt@,
                    st1,
                    st1,
                );
                scheme::law_pop_undoes_add(env0, scheme::bind_models(bs@));
            }
            let old_bnd = env.add_binds(&bs);
            let nxt_t = match infer(env, book, types, nxt, state) {
                Ok(t) => t,
                Err(e) => {
                    return Err(e);
                },
            };
            env.pop_binds(old_bnd);
            nxt_t
        },
        _ => {
            let xs = pat.binds();
            let (tvs, bs) = fresh_binds(&xs, state);
            let ghost names = term::opt_names(xs@);
            let ghost vs = inference::new_vars(names.len(), st1.next);
            proof {
                inference::lemma_new_binds(env0, st0, st1, names);
                inference::lemma_frame_inner(
                    book@,
                    env0,
                    types@,
                    scheme::bind_models(bs@),
                    names,
                    nxt@,
                    st0,
                    state@,
                );
                scheme::law_pop_undoes_add(env0, scheme::bind_models(bs@));
            }
            let old_bnd = env.add_binds(&bs);
            let nxt_t = match infer(env, book, types, nxt, state) {
                Ok(t) => t,
                Err(e) => {
                    return Err(e);
                },
            };
            env.pop_binds(old_bnd);
            match pat {
                Pattern::Fan(FanKind::Tup, _, _) => {
                    // Tuple elimination behaves like pattern matching.
                    // Variables from tuple patterns don't get generalized.
                    let ts = prune_all(&tvs, state);
                    let tup = Type::Tup(ts);
                    assert(tup@.kids =~= ty::models(ts@));
                    match state.unify_term(&val_t, &tup, val) {
                        Ok(_) => {},
                        Err(e) => {
                            return Err(e);
                        },
                    }
                },
                _ => {
                    // We pretend that sups don't exist and dups don't collide.
                    // All variables must have the same type as the body of the dup.
                    match unify_dups(val_t, &tvs, val, state) {
                        Ok(_) => {},
                        Err(e) => {
                            return Err(e);
                        },
                    }
                },
            }
            nxt_t
        },
    };
    proof {
        state.lemma_wf();
        unify::lemma_idempotent_apply(state@.sub, nxt_t@);
    }
    Ok(state.prune(&nxt_t))
}

/// Makes all variables of a duplication have the type of its value.
fn unify_dups(val_t: Type, tvs: &Vec<Type>, val: &Term, state: &mut InferState) -> (r: Result<
    Type,
    TypeError,
>)
    requires
        old(state).wf(),
    ensures
        final(state).wf(),
        match r {
            Ok(t) => inference::unify_each_pruned(old(state)@, val_t@, ty::models(tvs@), val@) == Ok::<
                _,
                Er,
            >((t@, final(state)@)),
            Err(e) => inference::unify_each_pruned(old(state)@, val_t@, ty::models(tvs@), val@)
                == Err::<(Ty, St), _>(e@),
        },
{
    let ghost us = ty::models(tvs@);
    let ghost v0 = val_t@;
    let mut cur = val_t;
    let n: usize = tvs.len();
    let mut i: usize = 0;
    proof {
        assert(us.skip(0) =~= us);
    }
    while i < n
        invariant
            i <= n,
            n == tvs@.len(),
            us == ty::models(tvs@),
            v0 == val_t@,
            state.wf(),
            inference::unify_each_pruned(old(state)@, v0, us, val@) == inference::unify_each_pruned(
                state@,
                cur@,
                us.skip(i as int),
                val@,
            ),
        decreases n - i,
    {
        proof {
            let ur = us.skip(i as int);
            assert(ur[0] == tvs@[i as int]@);
            assert(ur.drop_first() =~= us.skip(i + 1));
        }
        let tv = state.prune(&tvs[i]);
        match state.unify_term(&cur, &tv, val) {
            Ok(t) => {
                cur = t;
            },
            Err(e) => {
                return Err(e);
            },
        }
        i += 1;
    }
    Ok(cur)
}

/// Infers the arms of a match from one on and makes their types the same.
fn infer_match_cases(
    env: &mut TypeEnv,
    book: &Book,
    types: &NameMap<Scheme>,
    adt: &Adt,
    arms: &Vec<MatchRule>,
    i: usize,
    adt_s: &Subst,
    state: &mut InferState,
    Ghost(t): Ghost<Tm>,
    Ghost(h): Ghost<MatHead>,
    Ghost(st0): Ghost<St>,
    Ghost(first): Ghost<nat>,
) -> (r: Result<Type, TypeError>)
    requires
        old(state).wf(),
        frame::clean(old(env)@, st0),
        frame::step(old(env)@, st0, old(state)@),
        inference::types_closed(types@),
        inference::fields_closed(book@),
        inference::is_match_of_adt(book@, h),
        adt@ == book@.adts[book@.ctrs[h.arms[0].0->0]],
        adt_s@ == scheme::fresh_map(adt@.vars, first),
        st0.next <= first,
        first + adt@.vars.len() <= old(state)@.next,
        i <= arms@.len(),
        h.arms == term::arm_heads(arms@),
        t.kids.len() == 1 + h.args + h.arms.len(),
        forall|j: int| 0 <= j < arms@.len() ==> t.kids[1 + h.args + j] == (#[trigger] arms@[j]).2@,
        forall|j: int|
            1 + h.args <= j < t.kids.len() ==> inference::checkable(
                book@,
                inference::with_names(
                    inference::known(old(env)@, types@),
                    h.arms[j - 1 - h.args].1,
                ),
                inference::known(old(env)@, types@),
                #[trigger] t.kids[j],
            ),
    ensures
        final(state).wf(),
        match r {
            Ok(u) => {
                &&& inference::infer_cases(
                    book@,
                    old(env)@,
                    types@,
                    adt@,
                    h,
                    t,
                    i as int,
                    adt_s@,
                    old(state)@,
                ) == Ok::<_, Er>((u@, final(state)@))
                &&& final(env)@ == old(env)@
            },
            Err(e) => inference::infer_cases(
                book@,
                old(env)@,
                types@,
                adt@,
                h,
                t,
                i as int,
                adt_s@,
                old(state)@,
            ) == Err::<(Ty, St), _>(e@),
        },
    decreases arms, arms@.len() - i,
{
    let ghost env0 = env@;
    let ghost st1 = state@;
    if i < arms.len() {
        let arm = &arms[i];
        let bod = &arm.2;
        let ghost k = 1 + h.args + i;
        let ghost a = book@.ctrs[h.arms[0].0->0];
        let ghost names = h.arms[i as int].1;
        let ctr_nam = arm.0.as_ref().unwrap();
        let ctr = adt.ctrs.get(ctr_nam).unwrap();
        // One fresh var per field, we later unify with the expected type.
        let (tvs, bs) = fresh_binds(&arm.1, state);
        let ghost vs = inference::new_vars(names.len(), st1.next);
        proof {
            assert(h.arms[i as int] == term::arm_heads(arms@)[i as int]);
            assert(t.kids[k] == bod@);
            assert(inference::checkable(
                book@,
                inference::with_names(inference::known(env0, types@), h.arms[k - 1 - h.args].1),
                inference::known(env0, types@),
                t.kids[k],
            ));
            inference::lemma_new_binds(env0, st0, st1, names);
            inference::lemma_frame_inner(
                book@,
                env0,
                types@,
                scheme::bind_models(bs@),
                names,
                bod@,
                st0,
                state@,
            );
            scheme::law_pop_undoes_add(env0, scheme::bind_models(bs@));
            assert(decreases_to!(arms => arms@[i as int].2));
        }
        let ghost st2 = state@;
        // Infer the body and unify the inferred field types with the expected.
        let old_bnd = env.add_binds(&bs);
        let t1 = match infer(env, book, types, bod, state) {
            Ok(t) => t,
            Err(e) => {
                return Err(e);
            },
        };
        env.pop_binds(old_bnd);
        let ghost st3 = state@;
        let inf_ts = prune_all(&tvs, state);
        let exp_ts = field_types(ctr, adt_s);
        proof {
            lemma_fields_step(
                book@,
                env0,
                a,
                ctr_nam@,
                vs,
                first,
                st0,
                st2,
                st3,
                bod@,
            );
        }
        match unify_fields(&inf_ts, &exp_ts, bod, state) {
            Ok(()) => {},
            Err(e) => {
                return Err(e);
            },
        }
        // Recurse and unify with the other arms.
        let t_rest = match infer_match_cases(
            env,
            book,
            types,
            adt,
            arms,
            i + 1,
            adt_s,
            state,
            Ghost(t),
            Ghost(h),
            Ghost(st0),
            Ghost(first),
        ) {
            Ok(t) => t,
            Err(e) => {
                return Err(e);
            },
        };
        let ghost st4 = state@;
        proof {
            state.lemma_wf();
            unify::lemma_unify(st4.sub, t1@, t_rest@);
        }
        match state.unify_term(&t1, &t_rest, bod) {
            Ok(t_final) => Ok(state.prune(&t_final)),
            Err(e) => Err(e),
        }
    } else {
        Ok(state.fresh())
    }
}

/// Unifying the fields of a constructor is a step.
proof fn lemma_fields_step(
    bk: Bk,
    env: Map<Str, Sch>,
    a: Str,
    c: Str,
    tvs: Seq<Ty>,
    first: nat,
    st0: St,
    st2: St,
    st3: St,
    ctx: Tm,
)
    requires
        frame::clean(env, st0),
        frame::step(env, st0, st3),
        inference::fields_closed(bk),
        bk.adts.contains_key(a),
        bk.adts[a].ctrs.contains_key(c),
        st0.next <= first,
        first + bk.adts[a].vars.len() <= st2.next <= st3.next,
        forall|j: int| 0 <= j < tvs.len() ==> frame::within(#[trigger] tvs[j], env, st0, st2.next),
    ensures
        match inference::unify_pairs(
            st3,
            ty::apply_all(tvs, st3.sub),
            inference::field_types(
                bk.adts[a].ctrs[c],
                scheme::fresh_map(bk.adts[a].vars, first),
            ),
            ctx,
        ) {
            Ok(st4) => frame::step(env, st0, st4) && st4.next == st3.next,
            Err(_) => true,
        },
{
    let adt = bk.adts[a];
    let ctr = adt.ctrs[c];
    let ps = ty::apply_all(tvs, st3.sub);
    let fs = inference::field_types(ctr, scheme::fresh_map(adt.vars, first));
    assert forall|j: int| 0 <= j < ps.len() implies frame::within(#[trigger] ps[j], env, st0, st3.next) by {
        assert(frame::within(tvs[j], env, st0, st2.next));
        inference::lemma_within_later(tvs[j], env, st0, st2.next, st3.next);
        frame::lemma_within_apply(env, st0, st3, tvs[j]);
    }
    assert forall|j: int| 0 <= j < fs.len() implies frame::within(#[trigger] fs[j], env, st0, st3.next) by {
        let ft = ctr.fields[j].typ;
        assert forall|v: Str| #[trigger] ty::fv(ft).contains(v) implies adt.vars.contains(v) by {
            assert(bk.adts[a].ctrs[c].fields[j].typ == ft);
            assert(bk.adts[a].vars.contains(v));
        }
        assert forall|w: Str| ty::fv(fs[j]).contains(w) implies frame::near(env, st0, st3.next).contains(w) by {
            inference::lemma_fresh_type(ft, adt.vars, first, w);
            frame::lemma_made_split(st0.next, first, st3.next, w);
            frame::lemma_made_split(first, first + adt.vars.len(), st3.next, w);
        }
    }
    inference::lemma_frame_pairs(env, st0, st3, ps, fs, ctx);
}

/// The types of the fields of a constructor.
fn field_types(ctr: &AdtCtr, adt_s: &Subst) -> (r: Vec<Type>)
    ensures
        ty::models(r@) == inference::field_types(ctr@, adt_s@),
{
    let mut r: Vec<Type> = Vec::new();
    let n: usize = ctr.fields.len();
    let mut i: usize = 0;
    while i < n
        invariant
            i <= n,
            n == ctr.fields@.len(),
            r@.len() == i,
            forall|j: int| 0 <= j < i ==> (#[trigger] r@[j])@ == ty::apply(ctr.fields@[j].typ@, adt_s@),
        decreases n - i,
    {
        r.push(ctr.fields[i].typ.subst(adt_s));
        i += 1;
    }
    assert(ty::models(r@) =~= inference::field_types(ctr@, adt_s@));
    r
}

/// Infers the arms of a switch and makes their types the same.
fn infer_switch(
    env: &mut TypeEnv,
    book: &Book,
    types: &NameMap<Scheme>,
    pred: &Option<Name>,
    arms: &Vec<Term>,
    term: &Term,
    state: &mut InferState,
    Ghost(h): Ghost<SwtHead>,
    Ghost(st0): Ghost<St>,
) -> (r: Result<Type, TypeError>)
    requires
        old(state).wf(),
        frame::clean(old(env)@, st0),
        frame::step(old(env)@, st0, old(state)@),
        inference::types_closed(types@),
        inference::fields_closed(book@),
        term@.head == Th::Swt(h),
        h.pred == name::opt_name(*pred),
        inference::checkable(
            book@,
            inference::known(old(env)@, types@),
            inference::known(old(env)@, types@),
            term@,
        ),
        term@.kids.len() == 1 + h.args + arms@.len(),
        forall|j: int| 0 <= j < arms@.len() ==> term@.kids[1 + h.args + j] == (#[trigger] arms@[j])@,
    ensures
        final(state).wf(),
        match r {
            Ok(u) => {
                &&& found(
                    inference::infer_switch(
                        book@,
                        old(env)@,
                        types@,
                        h,
                        term@,
                        old(state)@,
                    ),
                    u@,
                    final(state)@,
                )
                &&& final(env)@ == old(env)@
            },
            Err(e) => inference::infer_switch(
                book@,
                old(env)@,
                types@,
                h,
                term@,
                old(state)@,
            ) == Err::<(Ty, St), _>(e@),
        },
    decreases arms, 0nat,
{
    let ghost env0 = env@;
    let ghost st1 = state@;
    let ghost t = term@;
    let mut ts_nums: Vec<Type> = Vec::new();
    let ghost total = arms@.len() - 1;
    let last: usize = arms.len() - 1;
    let mut n: usize = last;
    assert(ty::models(ts_nums@) =~= Seq::<Ty>::empty());
    while n > 0
        invariant
            0 <= n < arms@.len(),
            total == arms@.len() - 1,
            t == term@,
            t.head == Th::Swt(h),
            t.kids.len() == 1 + h.args + arms@.len(),
            forall|j: int| 0 <= j < arms@.len() ==> t.kids[1 + h.args + j] == (#[trigger] arms@[j])@,
            inference::checkable(book@, inference::known(env0, types@), inference::known(env0, types@), t),
            env0 == old(env)@,
            env@ == env0,
            st1 == old(state)@,
            state.wf(),
            frame::clean(env0, st0),
            frame::step(env0, st0, state@),
            inference::types_closed(types@),
            inference::fields_closed(book@),
            inference::infer_numbers(book@, env0, types@, h, t, total as int, st1, Seq::empty())
                == inference::infer_numbers(
                book@,
                env0,
                types@,
                h,
                t,
                n as int,
                state@,
                ty::models(ts_nums@),
            ),
        decreases n,
    {
        let ghost before = ts_nums@;
        let ghost k = h.args + n;
        proof {
            assert(t.kids[1 + h.args + (n - 1)] == arms@[n - 1]@);
            assert(inference::checkable(book@, inference::known(env0, types@), inference::known(env0, types@), t.kids[k]));
            inference::lemma_steps(env0, st0, state@);
            inference::lemma_frame_next(book@, env0, types@, t.kids[k], st0, state@);
        }
        match infer(env, book, types, &arms[n - 1], state) {
            Ok(u) => {
                ts_nums.push(u);
                assert(ty::models(ts_nums@) =~= ty::models(before).push(u@));
            },
            Err(e) => {
                return Err(e);
            },
        }
        n -= 1;
    }
    let ghost st3 = state@;
    let mut bs: Vec<(Option<Name>, Scheme)> = Vec::new();
    bs.push((name::clone_opt_name(pred), Scheme::mono(Type::U24)));
    proof {
        let u24 = ty::leaf(Head::U24);
        let xs = seq![h.pred];
        assert(scheme::bind_models(bs@) =~= inference::mono_binds(xs, seq![u24]));
        inference::lemma_within_leaf(Head::U24, env0, st0, st3.next);
        frame::lemma_mono_bindable(env0, st0, st3, u24);
        assert(t.kids[1 + h.args + (arms@.len() - 1)] == arms@[arms@.len() - 1]@);
        inference::lemma_frame_inner(
            book@,
            env0,
            types@,
            scheme::bind_models(bs@),
            xs,
            t.kids.last(),
            st0,
            st3,
        );
        scheme::law_pop_undoes_add(env0, scheme::bind_models(bs@));
    }
    let old_bnd = env.add_binds(&bs);
    let t_succ = match infer(env, book, types, &arms[last], state) {
        Ok(t) => t,
        Err(e) => {
            return Err(e);
        },
    };
    env.pop_binds(old_bnd);
    match unify_arms(t_succ, &ts_nums, term, state) {
        Ok(t_swt) => {
            proof {
                state.lemma_wf();
                unify::lemma_idempotent_apply(state@.sub, t_swt@);
            }
            Ok(state.prune(&t_swt))
        },
        Err(e) => Err(e),
    }
}

/// Makes the type of the last arm of a switch the same as those of the others.
fn unify_arms(t_succ: Type, ts_nums: &Vec<Type>, term: &Term, state: &mut InferState) -> (r: Result<
    Type,
    TypeError,
>)
    requires
        old(state).wf(),
    ensures
        final(state).wf(),
        match r {
            Ok(t) => inference::unify_each(old(state)@, t_succ@, ty::models(ts_nums@), term@) == Ok::<
                _,
                Er,
            >((t@, final(state)@)),
            Err(e) => inference::unify_each(old(state)@, t_succ@, ty::models(ts_nums@), term@)
                == Err::<(Ty, St), _>(e@),
        },
{
    let ghost us = ty::models(ts_nums@);
    let ghost v0 = t_succ@;
    let mut t_swt = t_succ;
    let n: usize = ts_nums.len();
    let mut i: usize = 0;
    proof {
        assert(us.skip(0) =~= us);
    }
    while i < n
        invariant
            i <= n,
            n == ts_nums@.len(),
            us == ty::models(ts_nums@),
            v0 == t_succ@,
            state.wf(),
            inference::unify_each(old(state)@, v0, us, term@) == inference::unify_each(
                state@,
                t_swt@,
                us.skip(i as int),
                term@,
            ),
        decreases n - i,
    {
        proof {
            let ur = us.skip(i as int);
            assert(ur[0] == ts_nums@[i as int]@);
            assert(ur.drop_first() =~= us.skip(i + 1));
        }
        match state.unify_term(&t_swt, &ts_nums[i], term) {
            Ok(t) => {
                t_swt = t;
            },
            Err(e) => {
                return Err(e);
            },
        }
        i += 1;
    }
    Ok(t_swt)
}

/// The types of the elements of a tuple.
fn infer_list(
    env: &mut TypeEnv,
    book: &Book,
    types: &NameMap<Scheme>,
    els: &Vec<Term>,
    state: &mut InferState,
    Ghost(t): Ghost<Tm>,
) -> (r: Result<Vec<Type>, TypeError>)
    requires
        old(state).wf(),
        ready(book@, old(env)@, types@, t, old(state)@),
        t.head is Fan,
        t.kids == term::tm_models(els@),
    ensures
        final(state).wf(),
        match r {
            Ok(ts) => {
                &&& inference::infer_list(
                    book@,
                    old(env)@,
                    types@,
                    t,
                    0,
                    old(state)@,
                    Seq::empty(),
                ) == Ok::<_, Er>((ty::models(ts@), final(state)@))
                &&& final(env)@ == old(env)@
            },
            Err(e) => inference::infer_list(
                book@,
                old(env)@,
                types@,
                t,
                0,
                old(state)@,
                Seq::empty(),
            ) == Err::<(Seq<Ty>, St), _>(e@),
        },
    decreases els, 0nat,
{
    let ghost env0 = env@;
    let ghost st0 = state@;
    let mut ts: Vec<Type> = Vec::new();
    let n: usize = els.len();
    let mut i: usize = 0;
    proof {
        frame::lemma_step_refl(env0, st0);
        assert(ty::models(ts@) =~= Seq::<Ty>::empty());
    }
    while i < n
        invariant
            i <= n,
            n == els@.len(),
            t.head is Fan,
            t.kids == term::tm_models(els@),
            inference::checkable(book@, inference::known(env0, types@), inference::known(env0, types@), t),
            env0 == old(env)@,
            env@ == env0,
            st0 == old(state)@,
            state.wf(),
            frame::clean(env0, st0),
            frame::step(env0, st0, state@),
            inference::types_closed(types@),
            inference::fields_closed(book@),
            inference::infer_list(book@, env0, types@, t, 0, st0, Seq::empty())
                == inference::infer_list(
                book@,
                env0,
                types@,
                t,
                i as int,
                state@,
                ty::models(ts@),
            ),
        decreases n - i,
    {
        let ghost before = ts@;
        proof {
            assert(t.kids[i as int] == els@[i as int]@);
            assert(inference::checkable(book@, inference::known(env0, types@), inference::known(env0, types@), t.kids[i as int]));
            inference::lemma_steps(env0, st0, state@);
            inference::lemma_frame_next(book@, env0, types@, t.kids[i as int], st0, state@);
        }
        match infer(env, book, types, &els[i], state) {
            Ok(u) => {
                ts.push(u);
                assert(ty::models(ts@) =~= ty::models(before).push(u@));
            },
            Err(e) => {
                return Err(e);
            },
        }
        i += 1;
    }
    Ok(ts)
}

} // verus!
