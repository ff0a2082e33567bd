//! What the type of a term is, and what finding it can change.

use crate::fun::book::{Am, Bk, Cm};
use crate::fun::check::frame;
use crate::fun::check::infer_state;
use crate::fun::check::infer_state::{Er, St};
use crate::fun::check::scheme;
use crate::fun::check::scheme::{Bind, Sch};
use crate::fun::term;
use crate::fun::term::{FanKind, MatHead, Num, Op, Pat, PatHead, SwtHead, Tg, Th, Tm};
use crate::fun::ty;
use crate::fun::ty::{Head, Ty};
use crate::name;
use crate::name::Str;
use vstd::prelude::*;

verus! {

/* What is inferred */

pub open spec fn number(t: Ty) -> Ty {
    Ty { head: Head::Number, kids: seq![t] }
}

pub open spec fn integer(t: Ty) -> Ty {
    Ty { head: Head::Integer, kids: seq![t] }
}

/// New variables with numbers from the given one on.
pub open spec fn new_vars(n: nat, next: nat) -> Seq<Ty> {
    Seq::new(n, |i: int| ty::ty_var(name::base26((next + i) as nat)))
}

/// The state after making new variables.
pub open spec fn after(st: St, n: nat) -> St {
    St { sub: st.sub, next: st.next + n }
}

/// Names with the types that they have.
pub open spec fn mono_binds(xs: Seq<Option<Str>>, ts: Seq<Ty>) -> Seq<Bind> {
    Seq::new(xs.len(), |i: int| (xs[i], scheme::mono(ts[i])))
}

/// Unifies a type with each type of a list in turn.
pub open spec fn unify_each(st: St, t: Ty, ts: Seq<Ty>, ctx: Tm) -> Result<(Ty, St), Er>
    decreases ts.len(),
{
    if ts.len() == 0 {
        Ok((t, st))
    } else {
        match infer_state::unify_in(st, t, ts[0], ctx) {
            Ok((t1, st1)) => unify_each(st1, t1, ts.drop_first(), ctx),
            Err(e) => Err(e),
        }
    }
}

/// Unifies a type with what each type of a list is by then.
pub open spec fn unify_each_pruned(st: St, t: Ty, ts: Seq<Ty>, ctx: Tm) -> Result<(Ty, St), Er>
    decreases ts.len(),
{
    if ts.len() == 0 {
        Ok((t, st))
    } else {
        match infer_state::unify_in(st, t, ty::apply(ts[0], st.sub), ctx) {
            Ok((t1, st1)) => unify_each_pruned(st1, t1, ts.drop_first(), ctx),
            Err(e) => Err(e),
        }
    }
}

/// Unifies the types of two lists pair by pair, as far as both go.
pub open spec fn unify_pairs(st: St, xs: Seq<Ty>, ys: Seq<Ty>, ctx: Tm) -> Result<St, Er>
    decreases xs.len(),
{
    if xs.len() == 0 || ys.len() == 0 {
        Ok(st)
    } else {
        match infer_state::unify_in(st, xs[0], ys[0], ctx) {
            Ok((t, st1)) => unify_pairs(st1, xs.drop_first(), ys.drop_first(), ctx),
            Err(e) => Err(e),
        }
    }
}

/// The type of a datatype with its own variables as arguments.
pub open spec fn adt_type(adt: Am) -> Ty {
    Ty {
        head: Head::Ctr(adt.name),
        kids: Seq::new(adt.vars.len(), |i: int| ty::ty_var(adt.vars[i])),
    }
}

/// The types of the fields of a constructor.
pub open spec fn field_types(ctr: Cm, m: Map<Str, Ty>) -> Seq<Ty> {
    Seq::new(ctr.fields.len(), |i: int| ty::apply(ctr.fields[i].typ, m))
}

/// The type of a native operation on arguments of a type.
pub open spec fn infer_op(op: Op, t: Ty, st: St, ctx: Tm) -> Result<(Ty, St), Er> {
    let tv = ty::ty_var(name::base26(st.next));
    let st1 = after(st, 1);
    match op {
        // Any numeric type
        Op::ADD | Op::SUB | Op::MUL | Op::DIV => infer_state::unify_in(st1, t, number(tv), ctx),
        Op::EQ | Op::NEQ | Op::LT | Op::GT | Op::GE | Op::LE => match infer_state::unify_in(
            st1,
            t,
            number(tv),
            ctx,
        ) {
            Ok((u, st2)) => Ok((ty::leaf(Head::U24), st2)),
            Err(e) => Err(e),
        },
        // Integers
        Op::REM | Op::AND | Op::OR | Op::XOR | Op::SHL | Op::SHR => infer_state::unify_in(
            st1,
            t,
            integer(tv),
            ctx,
        ),
        // Floating
        Op::POW => infer_state::unify_in(st1, t, ty::leaf(Head::F24), ctx),
    }
}

/// The type of a term in an environment, and what was found out on the way.
pub open spec fn infer(
    bk: Bk,
    env: Map<Str, Sch>,
    types: Map<Str, Sch>,
    t: Tm,
    st: St,
) -> Result<(Ty, St), Er>
    decreases t, 2nat, 0nat,
{
    match infer_raw(bk, env, types, t, st) {
        Ok((ty, st1)) => Ok((ty::apply(ty, st1.sub), st1)),
        Err(e) => Err(e),
    }
}

/// The type of a term before the substitution is applied to it.
pub open spec fn infer_raw(
    bk: Bk,
    env: Map<Str, Sch>,
    types: Map<Str, Sch>,
    t: Tm,
    st: St,
) -> Result<(Ty, St), Er>
    decreases t, 1nat, 0nat,
{
    match t.head {
        Th::Var(x) => Ok(infer_name(env, types, x, st)),
        Th::Ref(x) => Ok(infer_name(env, types, x, st)),
        Th::Lam(_, pat) => if t.kids.len() == 1 {
            let tv = ty::ty_var(name::base26(st.next));
            let inner = scheme::bind_all(env, mono_binds(term::pat_binds(pat), seq![tv]));
            match infer(bk, inner, types, t.kids[0], after(st, 1)) {
                Ok((bod, st1)) => Ok((ty::ty_arr(tv, bod), st1)),
                Err(e) => Err(e),
            }
        } else {
            arbitrary()
        },
        Th::App(_) => if t.kids.len() == 2 {
            match infer(bk, env, types, t.kids[0], st) {
                Ok((f, st1)) => match infer(bk, env, types, t.kids[1], st1) {
                    Ok((a, st2)) => {
                        let r = ty::ty_var(name::base26(st2.next));
                        match infer_state::unify_in(after(st2, 1), f, ty::ty_arr(a, r), t.kids[0]) {
                            Ok((u, st3)) => Ok((r, st3)),
                            Err(e) => Err(e),
                        }
                    },
                    Err(e) => Err(e),
                },
                Err(e) => Err(e),
            }
        } else {
            arbitrary()
        },
        Th::Let(pat) => if t.kids.len() == 2 {
            match infer(bk, env, types, t.kids[0], st) {
                Ok((v, st1)) => infer_let(bk, env, types, pat, t, v, st1),
                Err(e) => Err(e),
            }
        } else {
            arbitrary()
        },
        Th::Mat(h) => if t.kids.len() > 0 {
            match infer(bk, env, types, t.kids[0], st) {
                Ok((u, st1)) => {
                    let adt = bk.adts[bk.ctrs[h.arms[0].0->0]];
                    let m = scheme::fresh_map(adt.vars, st1.next);
                    match infer_cases(bk, env, types, adt, h, t, 0, m, after(st1, adt.vars.len())) {
                        Ok((n, st2)) => match infer_state::unify_in(
                            st2,
                            u,
                            ty::apply(adt_type(adt), m),
                            t.kids[0],
                        ) {
                            Ok((_, st3)) => Ok((n, st3)),
                            Err(e) => Err(e),
                        },
                        Err(e) => Err(e),
                    }
                },
                Err(e) => Err(e),
            }
        } else {
            arbitrary()
        },
        Th::Num(val) => Ok(
            (
                ty::leaf(
                    match val {
                        Num::U24(_) => Head::U24,
                        Num::I24(_) => Head::I24,
                        Num::F24(_) => Head::F24,
                    },
                ),
                st,
            ),
        ),
        Th::Oper(op) => if t.kids.len() == 2 {
            match infer(bk, env, types, t.kids[0], st) {
                Ok((a, st1)) => match infer(bk, env, types, t.kids[1], st1) {
                    Ok((b, st2)) => match infer_state::unify_in(st2, b, a, t) {
                        Ok((u, st3)) => infer_op(op, u, st3, t),
                        Err(e) => Err(e),
                    },
                    Err(e) => Err(e),
                },
                Err(e) => Err(e),
            }
        } else {
            arbitrary()
        },
        Th::Swt(h) => if t.kids.len() > h.args + 2 {
            match infer(bk, env, types, t.kids[0], st) {
                Ok((u, st1)) => match infer_state::unify_in(
                    st1,
                    u,
                    ty::leaf(Head::U24),
                    t.kids[0],
                ) {
                    Ok((_, st2)) => infer_switch(bk, env, types, h, t, st2),
                    Err(e) => Err(e),
                },
                Err(e) => Err(e),
            }
        } else {
            arbitrary()
        },
        Th::Fan(_, _) => match infer_list(bk, env, types, t, 0, st, Seq::empty()) {
            Ok((ts, st1)) => Ok((Ty { head: Head::Tup, kids: ts }, st1)),
            Err(e) => Err(e),
        },
        Th::Era => Ok((ty::leaf(Head::NoneType), st)),
        _ => arbitrary(),
    }
}

/// A new instance of the scheme of a name.
pub open spec fn infer_name(env: Map<Str, Sch>, types: Map<Str, Sch>, x: Str, st: St) -> (Ty, St) {
    let sch = if env.contains_key(x) {
        env[x]
    } else {
        types[x]
    };
    (ty::apply(scheme::instance(sch, st.next), st.sub), after(st, sch.vars.len()))
}

/// The type of the rest of a `let` whose value has the given type.
///
/// A variable gets the generalized type. The variables of a tuple pattern get
/// the types of the elements, and those of a duplication all get the type of
/// the value; they are not generalized.
pub open spec fn infer_let(
    bk: Bk,
    env: Map<Str, Sch>,
    types: Map<Str, Sch>,
    pat: Pat,
    t: Tm,
    v: Ty,
    st: St,
) -> Result<(Ty, St), Er>
    decreases t, 0nat, 0nat,
{
    if t.kids.len() != 2 {
        arbitrary()
    } else if let PatHead::Var(x) = pat.head {
        let sch = infer_state::generalized(v, env, st.sub);
        infer(bk, scheme::bind_all(env, seq![(x, sch)]), types, t.kids[1], st)
    } else {
        let xs = term::pat_binds(pat);
        let tvs = new_vars(xs.len(), st.next);
        let inner = scheme::bind_all(env, mono_binds(xs, tvs));
        match infer(bk, inner, types, t.kids[1], after(st, xs.len())) {
            Ok((n, st1)) => if pat.head is Fan && pat.head->Fan_0 == FanKind::Tup {
                let tup = Ty { head: Head::Tup, kids: ty::apply_all(tvs, st1.sub) };
                match infer_state::unify_in(st1, v, tup, t.kids[0]) {
                    Ok((_, st2)) => Ok((n, st2)),
                    Err(e) => Err(e),
                }
            } else {
                match unify_each_pruned(st1, v, tvs, t.kids[0]) {
                    Ok((_, st2)) => Ok((n, st2)),
                    Err(e) => Err(e),
                }
            },
            Err(e) => Err(e),
        }
    }
}

/// The types of the arms of a match from one on, all made the same.
pub open spec fn infer_cases(
    bk: Bk,
    env: Map<Str, Sch>,
    types: Map<Str, Sch>,
    adt: Am,
    h: MatHead,
    t: Tm,
    i: int,
    m: Map<Str, Ty>,
    st: St,
) -> Result<(Ty, St), Er>
    decreases t, 0nat, h.arms.len() - i,
{
    if 0 <= i < h.arms.len() {
        let k = 1 + h.args + i;
        if k < t.kids.len() {
            let ctr = adt.ctrs[h.arms[i].0->0];
            let xs = h.arms[i].1;
            let tvs = new_vars(xs.len(), st.next);
            let inner = scheme::bind_all(env, mono_binds(xs, tvs));
            match infer(bk, inner, types, t.kids[k], after(st, xs.len())) {
                Ok((u, st1)) => match unify_pairs(
                    st1,
                    ty::apply_all(tvs, st1.sub),
                    field_types(ctr, m),
                    t.kids[k],
                ) {
                    Ok(st2) => match infer_cases(bk, env, types, adt, h, t, i + 1, m, st2) {
                        Ok((rest, st3)) => infer_state::unify_in(st3, u, rest, t.kids[k]),
                        Err(e) => Err(e),
                    },
                    Err(e) => Err(e),
                },
                Err(e) => Err(e),
            }
        } else {
            arbitrary()
        }
    } else {
        Ok((ty::ty_var(name::base26(st.next)), after(st, 1)))
    }
}

/// The type of a switch after its argument.
///
/// The last arm is inferred with the predecessor, and the others without it.
pub open spec fn infer_switch(
    bk: Bk,
    env: Map<Str, Sch>,
    types: Map<Str, Sch>,
    h: SwtHead,
    t: Tm,
    st: St,
) -> Result<(Ty, St), Er>
    decreases t, 0nat, t.kids.len(),
{
    let n = t.kids.len() - h.args - 2;
    if t.kids.len() > h.args + 2 {
        match infer_numbers(bk, env, types, h, t, n, st, Seq::empty()) {
            Ok((ts, st1)) => {
                let inner = scheme::bind_all(
                    env,
                    mono_binds(seq![h.pred], seq![ty::leaf(Head::U24)]),
                );
                match infer(bk, inner, types, t.kids.last(), st1) {
                    Ok((s, st2)) => unify_each(st2, s, ts, t),
                    Err(e) => Err(e),
                }
            },
            Err(e) => Err(e),
        }
    } else {
        arbitrary()
    }
}

/// The types of all arms of a switch but the last one, in reverse.
pub open spec fn infer_numbers(
    bk: Bk,
    env: Map<Str, Sch>,
    types: Map<Str, Sch>,
    h: SwtHead,
    t: Tm,
    n: int,
    st: St,
    done: Seq<Ty>,
) -> Result<(Seq<Ty>, St), Er>
    decreases t, 0nat, n,
{
    if n <= 0 {
        Ok((done, st))
    } else {
        let k = h.args + n;
        if k < t.kids.len() {
            match infer(bk, env, types, t.kids[k], st) {
                Ok((u, st1)) => infer_numbers(bk, env, types, h, t, n - 1, st1, done.push(u)),
                Err(e) => Err(e),
            }
        } else {
            arbitrary()
        }
    }
}

/// The types of the terms below a term from one on.
pub open spec fn infer_list(
    bk: Bk,
    env: Map<Str, Sch>,
    types: Map<Str, Sch>,
    t: Tm,
    i: int,
    st: St,
    done: Seq<Ty>,
) -> Result<(Seq<Ty>, St), Er>
    decreases t, 0nat, t.kids.len() - i,
{
    if 0 <= i < t.kids.len() {
        match infer(bk, env, types, t.kids[i], st) {
            Ok((u, st1)) => infer_list(bk, env, types, t, i + 1, st1, done.push(u)),
            Err(e) => Err(e),
        }
    } else {
        Ok((done, st))
    }
}

/* What can be inferred */

/// The names together with more names.
pub open spec fn with_names(known: Set<Str>, xs: Seq<Option<Str>>) -> Set<Str> {
    Set::new(|x: Str| known.contains(x) || xs.contains(Some(x)))
}

/// The names that have a type.
pub open spec fn known(env: Map<Str, Sch>, types: Map<Str, Sch>) -> Set<Str> {
    env.dom().union(types.dom())
}

/// A pattern without patterns below it, or a tuple or duplication of such.
pub open spec fn is_let_pattern(p: Pat) -> bool {
    match p.head {
        PatHead::Var(_) => true,
        PatHead::Fan(fan, tag) => {
            &&& fan == FanKind::Tup && tag == Tg::Static || fan == FanKind::Dup && tag == Tg::Auto
            &&& forall|i: int| 0 <= i < p.kids.len() ==> (#[trigger] p.kids[i]).head is Var
        },
        _ => false,
    }
}

/// The arms of the match are constructors of one datatype.
pub open spec fn is_match_of_adt(bk: Bk, h: MatHead) -> bool {
    &&& h.arms.len() > 0
    &&& h.arms[0].0 is Some
    &&& bk.ctrs.contains_key(h.arms[0].0->0)
    &&& bk.adts.contains_key(bk.ctrs[h.arms[0].0->0])
    &&& forall|i: int|
        0 <= i < h.arms.len() ==> (#[trigger] h.arms[i]).0 is Some
            && bk.adts[bk.ctrs[h.arms[0].0->0]].ctrs.contains_key(h.arms[i].0->0)
}

/// A term as it stands in a function that is checked, given the names that
/// variables and references may have: what is only shorthand is gone.
pub open spec fn checkable(bk: Bk, names: Set<Str>, refs: Set<Str>, t: Tm) -> bool
    decreases t,
{
    match t.head {
        Th::Var(x) => names.contains(x),
        Th::Ref(x) => refs.contains(x),
        Th::Lam(tag, pat) => {
            &&& tag == Tg::Static
            &&& pat.head is Var
            &&& t.kids.len() == 1
            &&& checkable(bk, with_names(names, term::pat_binds(pat)), refs, t.kids[0])
        },
        Th::App(tag) => {
            &&& tag == Tg::Static
            &&& t.kids.len() == 2
            &&& checkable(bk, names, refs, t.kids[0])
            &&& checkable(bk, names, refs, t.kids[1])
        },
        Th::Let(pat) => {
            &&& is_let_pattern(pat)
            &&& t.kids.len() == 2
            &&& checkable(bk, names, refs, t.kids[0])
            &&& checkable(bk, with_names(names, term::pat_binds(pat)), refs, t.kids[1])
        },
        Th::Mat(h) => {
            &&& is_match_of_adt(bk, h)
            &&& t.kids.len() == 1 + h.args + h.arms.len()
            &&& checkable(bk, names, refs, t.kids[0])
            &&& forall|i: int|
                1 + h.args <= i < t.kids.len() ==> checkable(
                    bk,
                    with_names(names, h.arms[i - 1 - h.args].1),
                    refs,
                    #[trigger] t.kids[i],
                )
        },
        Th::Num(_) => true,
        Th::Oper(_) => {
            &&& t.kids.len() == 2
            &&& checkable(bk, names, refs, t.kids[0])
            &&& checkable(bk, names, refs, t.kids[1])
        },
        Th::Swt(h) => {
            &&& t.kids.len() > h.args + 2
            &&& checkable(bk, names, refs, t.kids[0])
            &&& forall|i: int|
                1 + h.args <= i < t.kids.len() - 1 ==> checkable(bk, names, refs, #[trigger] t.kids[i])
            &&& checkable(bk, with_names(names, seq![h.pred]), refs, t.kids.last())
        },
        Th::Fan(fan, tag) => {
            &&& fan == FanKind::Tup
            &&& tag == Tg::Static
            &&& forall|i: int| 0 <= i < t.kids.len() ==> checkable(bk, names, refs, #[trigger] t.kids[i])
        },
        Th::Era => true,
        _ => false,
    }
}

/// More names do no harm, and of the references only those that occur count.
pub proof fn lemma_checkable(
    bk: Bk,
    names: Set<Str>,
    refs: Set<Str>,
    names1: Set<Str>,
    refs1: Set<Str>,
    t: Tm,
)
    requires
        checkable(bk, names, refs, t),
        forall|x: Str| #[trigger] names.contains(x) ==> names1.contains(x),
        forall|x: Str| #[trigger] refs.contains(x) && term::all_refs(t).contains(x) ==> refs1.contains(x),
    ensures
        checkable(bk, names1, refs1, t),
    decreases t, 1nat,
{
    match t.head {
        Th::Lam(_, pat) => {
            let xs = term::pat_binds(pat);
            lemma_checkable_kid(bk, with_names(names, xs), refs, with_names(names1, xs), refs1, t, 0);
        },
        Th::Let(pat) => {
            let xs = term::pat_binds(pat);
            lemma_checkable_kid(bk, names, refs, names1, refs1, t, 0);
            lemma_checkable_kid(bk, with_names(names, xs), refs, with_names(names1, xs), refs1, t, 1);
        },
        Th::App(_) => {
            lemma_checkable_kid(bk, names, refs, names1, refs1, t, 0);
            lemma_checkable_kid(bk, names, refs, names1, refs1, t, 1);
        },
        Th::Oper(_) => {
            lemma_checkable_kid(bk, names, refs, names1, refs1, t, 0);
            lemma_checkable_kid(bk, names, refs, names1, refs1, t, 1);
        },
        Th::Mat(h) => {
            lemma_checkable_kid(bk, names, refs, names1, refs1, t, 0);
            assert forall|i: int| 1 + h.args <= i < t.kids.len() implies checkable(
                bk,
                with_names(names1, h.arms[i - 1 - h.args].1),
                refs1,
                #[trigger] t.kids[i],
            ) by {
                let xs = h.arms[i - 1 - h.args].1;
                assert(checkable(bk, with_names(names, xs), refs, t.kids[i]));
                lemma_checkable_kid(bk, with_names(names, xs), refs, with_names(names1, xs), refs1, t, i);
            }
        },
        Th::Swt(h) => {
            lemma_checkable_kid(bk, names, refs, names1, refs1, t, 0);
            assert forall|i: int| 1 + h.args <= i < t.kids.len() - 1 implies checkable(
                bk,
                names1,
                refs1,
                #[trigger] t.kids[i],
            ) by {
                assert(checkable(bk, names, refs, t.kids[i]));
                lemma_checkable_kid(bk, names, refs, names1, refs1, t, i);
            }
            let xs = seq![h.pred];
            lemma_checkable_kid(
                bk,
                with_names(names, xs),
                refs,
                with_names(names1, xs),
                refs1,
                t,
                t.kids.len() - 1,
            );
        },
        Th::Fan(_, _) => {
            assert forall|i: int| 0 <= i < t.kids.len() implies checkable(
                bk,
                names1,
                refs1,
                #[trigger] t.kids[i],
            ) by {
                assert(checkable(bk, names, refs, t.kids[i]));
                lemma_checkable_kid(bk, names, refs, names1, refs1, t, i);
            }
        },
        Th::Ref(x) => {
            assert(term::all_refs(t).contains(x));
        },
        _ => {},
    }
}

proof fn lemma_checkable_kid(
    bk: Bk,
    names: Set<Str>,
    refs: Set<Str>,
    names1: Set<Str>,
    refs1: Set<Str>,
    t: Tm,
    i: int,
)
    requires
        0 <= i < t.kids.len(),
        checkable(bk, names, refs, t.kids[i]),
        forall|x: Str| #[trigger] names.contains(x) ==> names1.contains(x),
        forall|x: Str| #[trigger] refs.contains(x) && term::all_refs(t).contains(x) ==> refs1.contains(x),
    ensures
        checkable(bk, names1, refs1, t.kids[i]),
    decreases t, 0nat,
{
    assert forall|x: Str| #[trigger] refs.contains(x) && term::all_refs(t.kids[i]).contains(x) implies refs1.contains(
        x,
    ) by {
        assert(term::all_refs(t).contains(x));
    }
    lemma_checkable(bk, names, refs, names1, refs1, t.kids[i]);
}

/// The fields of the constructors only use the variables of their datatype.
pub open spec fn fields_closed(bk: Bk) -> bool {
    forall|a: Str, c: Str, i: int, v: Str|
        #![trigger bk.adts[a].ctrs[c].fields[i], bk.adts[a].vars.contains(v)]
        bk.adts.contains_key(a) && bk.adts[a].ctrs.contains_key(c) && 0 <= i
            < bk.adts[a].ctrs[c].fields.len() && ty::fv(bk.adts[a].ctrs[c].fields[i].typ).contains(v)
            ==> bk.adts[a].vars.contains(v)
}

/// Every scheme binds all its variables.
pub open spec fn types_closed(types: Map<Str, Sch>) -> bool {
    forall|x: Str, v: Str|
        #![trigger types.contains_key(x), types[x].vars.contains(v)]
        types.contains_key(x) && ty::fv(types[x].typ).contains(v) ==> types[x].vars.contains(v)
}

/* What inference can change */

/// A result of inference that stays within the environment.
pub open spec fn framed(r: Result<(Ty, St), Er>, env: Map<Str, Sch>, st0: St) -> bool {
    match r {
        Ok((t, st)) => frame::step(env, st0, st) && frame::within(t, env, st0, st.next),
        Err(_) => true,
    }
}

pub proof fn lemma_fresh_map(vars: Seq<Str>, next: nat, x: Str)
    ensures
        scheme::fresh_map(vars, next).contains_key(x) <==> vars.contains(x),
        vars.contains(x) ==> exists|k: nat|
            next <= k < next + vars.len() && scheme::fresh_map(vars, next)[x] == ty::ty_var(
                #[trigger] name::base26(k),
            ),
    decreases vars.len(),
{
    if vars.len() > 0 {
        let v0 = vars.drop_last();
        lemma_fresh_map(v0, next, x);
        if x == vars.last() {
            assert(vars[vars.len() - 1] == x);
            let k = (next + vars.len() - 1) as nat;
            assert(scheme::fresh_map(vars, next)[x] == ty::ty_var(name::base26(k)));
        } else {
            if v0.contains(x) {
                let i = choose|i: int| 0 <= i < v0.len() && v0[i] == x;
                assert(vars[i] == x);
                let k = choose|k: nat|
                    next <= k < next + v0.len() && scheme::fresh_map(v0, next)[x] == ty::ty_var(
                        #[trigger] name::base26(k),
                    );
                assert(scheme::fresh_map(vars, next)[x] == ty::ty_var(name::base26(k)));
            }
            if vars.contains(x) {
                let i = choose|i: int| 0 <= i < vars.len() && vars[i] == x;
                assert(v0[i] == x);
            }
        }
    }
}

/// New variables in place of all that a type holds.
pub proof fn lemma_fresh_type(t: Ty, vars: Seq<Str>, next: nat, w: Str)
    requires
        forall|v: Str| #[trigger] ty::fv(t).contains(v) ==> vars.contains(v),
        ty::fv(ty::apply(t, scheme::fresh_map(vars, next))).contains(w),
    ensures
        frame::made(next, next + vars.len()).contains(w),
{
    let m = scheme::fresh_map(vars, next);
    ty::lemma_apply_fv(t, m, w);
    let v = choose|v: Str| #[trigger] ty::fv(t).contains(v) && ty::fv(ty::image(m, v)).contains(w);
    lemma_fresh_map(vars, next, v);
    let k = choose|k: nat|
        next <= k < next + vars.len() && m[v] == ty::ty_var(#[trigger] name::base26(k));
    frame::lemma_made(next, next + vars.len(), k);
}

/// The instance of a name's scheme.
proof fn lemma_frame_name(env: Map<Str, Sch>, types: Map<Str, Sch>, x: Str, st: St)
    requires
        frame::clean(env, st),
        types_closed(types),
        known(env, types).contains(x),
    ensures
        framed(Ok(infer_name(env, types, x, st)), env, st),
{
    let sch = if env.contains_key(x) {
        env[x]
    } else {
        types[x]
    };
    let n = sch.vars.len();
    let m = scheme::fresh_map(sch.vars, st.next);
    let inst = scheme::instance(sch, st.next);
    let t = ty::apply(inst, st.sub);
    frame::lemma_step_refl(env, st);
    frame::lemma_step_fresh(env, st, st, n);
    assert forall|w: Str| ty::fv(t).contains(w) implies frame::near(env, st, st.next + n).contains(w) by {
        ty::lemma_apply_fv(inst, st.sub, w);
        let y = choose|y: Str| #[trigger]
            ty::fv(inst).contains(y) && ty::fv(ty::image(st.sub, y)).contains(w);
        ty::lemma_apply_fv(sch.typ, m, y);
        let v = choose|v: Str| #[trigger]
            ty::fv(sch.typ).contains(v) && ty::fv(ty::image(m, v)).contains(y);
        lemma_fresh_map(sch.vars, st.next, v);
        if sch.vars.contains(v) {
            let k = choose|k: nat|
                st.next <= k < st.next + n && m[v] == ty::ty_var(#[trigger] name::base26(k));
            frame::lemma_made(st.next, st.next + n, k);
            frame::lemma_made_split(0, st.next, st.next + n, y);
            assert(y == name::base26(k));
            assert(!st.sub.contains_key(y));
            assert(w == y);
        } else {
            assert(y == v);
            assert(env.contains_key(x));
            assert(frame::loose(env, st.sub).contains(w));
        }
    }
}

/// Everything that holds of a step after another one.
pub proof fn lemma_steps(env: Map<Str, Sch>, st0: St, st: St)
    requires
        frame::clean(env, st0),
        frame::step(env, st0, st),
    ensures
        frame::clean(env, st),
        frame::loose(env, st.sub).subset_of(frame::near(env, st0, st.next)),
{
    frame::lemma_step_clean(env, st0, st);
    assert forall|x: Str| frame::loose(env, st.sub).contains(x) implies frame::near(
        env,
        st0,
        st.next,
    ).contains(x) by {
        frame::lemma_loose_step(env, st0, st, x);
    }
}

/// Types stay within when more variables are made.
pub proof fn lemma_within_later(t: Ty, env: Map<Str, Sch>, st0: St, m: nat, n: nat)
    requires
        st0.next <= m <= n,
        frame::within(t, env, st0, m),
    ensures
        frame::within(t, env, st0, n),
{
    frame::lemma_near_more(env, st0, m, n);
}

pub proof fn lemma_within_arr(a: Ty, b: Ty, env: Map<Str, Sch>, st0: St, n: nat)
    requires
        frame::within(a, env, st0, n),
        frame::within(b, env, st0, n),
    ensures
        frame::within(ty::ty_arr(a, b), env, st0, n),
{
    let t = ty::ty_arr(a, b);
    assert forall|v: Str| ty::fv(t).contains(v) implies frame::near(env, st0, n).contains(v) by {
        let i = choose|i: int| 0 <= i < t.kids.len() && ty::fv(#[trigger] t.kids[i]).contains(v);
        assert(t.kids[i] == a || t.kids[i] == b);
    }
}

pub proof fn lemma_within_all(h: Head, ts: Seq<Ty>, env: Map<Str, Sch>, st0: St, n: nat)
    requires
        !(h is Var),
        forall|i: int| 0 <= i < ts.len() ==> frame::within(#[trigger] ts[i], env, st0, n),
    ensures
        frame::within(Ty { head: h, kids: ts }, env, st0, n),
{
    let t = Ty { head: h, kids: ts };
    assert forall|v: Str| ty::fv(t).contains(v) implies frame::near(env, st0, n).contains(v) by {
        let i = choose|i: int| 0 <= i < t.kids.len() && ty::fv(#[trigger] t.kids[i]).contains(v);
        assert(frame::within(ts[i], env, st0, n));
    }
}

/// Inference in the same environment after a step.
pub proof fn lemma_frame_next(
    bk: Bk,
    env: Map<Str, Sch>,
    types: Map<Str, Sch>,
    t: Tm,
    st0: St,
    st: St,
)
    requires
        frame::clean(env, st0),
        frame::step(env, st0, st),
        types_closed(types),
        fields_closed(bk),
        checkable(bk, known(env, types), known(env, types), t),
    ensures
        framed(infer(bk, env, types, t, st), env, st0),
        match infer(bk, env, types, t, st) {
            Ok((u, st1)) => st.next <= st1.next,
            Err(_) => true,
        },
    decreases t, 3nat, 0nat,
{
    lemma_steps(env, st0, st);
    lemma_frame(bk, env, types, t, st);
    if let Ok((u, st1)) = infer(bk, env, types, t, st) {
        frame::lemma_step_inner(env, st0, st, env, st1, u);
    }
}

/// Inference with more names bound, after a step.
pub proof fn lemma_frame_inner(
    bk: Bk,
    env: Map<Str, Sch>,
    types: Map<Str, Sch>,
    bs: Seq<Bind>,
    xs: Seq<Option<Str>>,
    t: Tm,
    st0: St,
    st: St,
)
    requires
        frame::clean(env, st0),
        frame::step(env, st0, st),
        types_closed(types),
        fields_closed(bk),
        xs.len() == bs.len(),
        forall|i: int| 0 <= i < bs.len() ==> (#[trigger] bs[i]).0 == xs[i],
        forall|i: int| 0 <= i < bs.len() ==> frame::bindable((#[trigger] bs[i]).1, env, st0, st),
        checkable(bk, with_names(known(env, types), xs), known(env, types), t),
    ensures
        framed(infer(bk, scheme::bind_all(env, bs), types, t, st), env, st0),
        frame::clean(scheme::bind_all(env, bs), st),
        checkable(
            bk,
            known(scheme::bind_all(env, bs), types),
            known(scheme::bind_all(env, bs), types),
            t,
        ),
        match infer(bk, scheme::bind_all(env, bs), types, t, st) {
            Ok((u, st1)) => st.next <= st1.next,
            Err(_) => true,
        },
    decreases t, 3nat, 0nat,
{
    let inner = scheme::bind_all(env, bs);
    frame::lemma_bind_clean(env, st0, st, bs);
    lemma_known(env, types, bs, xs);
    let more = with_names(known(env, types), xs);
    lemma_checkable(bk, more, known(env, types), more, more, t);
    lemma_frame(bk, inner, types, t, st);
    if let Ok((u, st1)) = infer(bk, inner, types, t, st) {
        frame::lemma_step_inner(env, st0, st, inner, st1, u);
    }
}

/// The names that are bound are known.
pub proof fn lemma_known(env: Map<Str, Sch>, types: Map<Str, Sch>, bs: Seq<Bind>, xs: Seq<Option<Str>>)
    requires
        xs.len() == bs.len(),
        forall|i: int| 0 <= i < bs.len() ==> (#[trigger] bs[i]).0 == xs[i],
    ensures
        known(scheme::bind_all(env, bs), types) == with_names(known(env, types), xs),
    decreases bs.len(),
{
    if bs.len() > 0 {
        let (b0, x0) = (bs.drop_last(), xs.drop_last());
        assert forall|i: int| 0 <= i < b0.len() implies (#[trigger] b0[i]).0 == x0[i] by {
            assert(b0[i] == bs[i]);
        }
        lemma_known(env, types, b0, x0);
        assert forall|x: Str| known(scheme::bind_all(env, bs), types).contains(x) <==> with_names(
            known(env, types),
            xs,
        ).contains(x) by {
            assert(known(scheme::bind_all(env, b0), types).contains(x) <==> with_names(
                known(env, types),
                x0,
            ).contains(x));
            if xs.contains(Some(x)) {
                let i = choose|i: int| 0 <= i < xs.len() && xs[i] == Some(x);
                if i < x0.len() {
                    assert(x0[i] == Some(x));
                } else {
                    assert(bs[i].0 == xs[i]);
                }
            }
            if x0.contains(Some(x)) {
                let i = choose|i: int| 0 <= i < x0.len() && x0[i] == Some(x);
                assert(xs[i] == Some(x));
            }
            assert(bs[bs.len() - 1].0 == xs[xs.len() - 1]);
        }
        assert(known(scheme::bind_all(env, bs), types) =~= with_names(known(env, types), xs));
    } else {
        assert(known(scheme::bind_all(env, bs), types) =~= with_names(known(env, types), xs));
    }
}

/// New variables may be bound.
pub proof fn lemma_new_binds(env: Map<Str, Sch>, st0: St, st: St, xs: Seq<Option<Str>>)
    requires
        frame::clean(env, st0),
        frame::step(env, st0, st),
    ensures
        ({
            let tvs = new_vars(xs.len(), st.next);
            let bs = mono_binds(xs, tvs);
            let st1 = after(st, xs.len());
            &&& frame::step(env, st0, st1)
            &&& forall|i: int| 0 <= i < bs.len() ==> frame::bindable((#[trigger] bs[i]).1, env, st0, st1)
            &&& forall|i: int| 0 <= i < tvs.len() ==> frame::within(#[trigger] tvs[i], env, st0, st1.next)
        }),
{
    let n = xs.len();
    let tvs = new_vars(n, st.next);
    let bs = mono_binds(xs, tvs);
    let st1 = after(st, n);
    frame::lemma_step_fresh(env, st0, st, n);
    assert forall|i: int| 0 <= i < tvs.len() implies frame::within(#[trigger] tvs[i], env, st0, st1.next) by {
        let k = (st.next + i) as nat;
        assert(tvs[i] == ty::ty_var(name::base26(k)));
    }
    assert forall|i: int| 0 <= i < bs.len() implies frame::bindable((#[trigger] bs[i]).1, env, st0, st1) by {
        assert(frame::within(tvs[i], env, st0, st1.next));
        frame::lemma_mono_bindable(env, st0, st1, tvs[i]);
    }
}

pub proof fn lemma_frame_each(env: Map<Str, Sch>, st0: St, st: St, t: Ty, ts: Seq<Ty>, ctx: Tm)
    requires
        frame::clean(env, st0),
        frame::step(env, st0, st),
        frame::within(t, env, st0, st.next),
        forall|i: int| 0 <= i < ts.len() ==> frame::within(#[trigger] ts[i], env, st0, st.next),
    ensures
        framed(unify_each(st, t, ts, ctx), env, st0),
        match unify_each(st, t, ts, ctx) {
            Ok((u, st1)) => st1.next == st.next,
            Err(_) => true,
        },
    decreases ts.len(),
{
    if ts.len() > 0 {
        assert(frame::within(ts[0], env, st0, st.next));
        frame::lemma_step_unify(env, st0, st, t, ts[0], ctx);
        if let Ok((t1, st1)) = infer_state::unify_in(st, t, ts[0], ctx) {
            let tr = ts.drop_first();
            assert forall|i: int| 0 <= i < tr.len() implies frame::within(#[trigger] tr[i], env, st0, st1.next) by {
                assert(tr[i] == ts[i + 1]);
            }
            lemma_frame_each(env, st0, st1, t1, tr, ctx);
        }
    }
}

pub proof fn lemma_frame_each_pruned(env: Map<Str, Sch>, st0: St, st: St, t: Ty, ts: Seq<Ty>, ctx: Tm)
    requires
        frame::clean(env, st0),
        frame::step(env, st0, st),
        frame::within(t, env, st0, st.next),
        forall|i: int| 0 <= i < ts.len() ==> frame::within(#[trigger] ts[i], env, st0, st.next),
    ensures
        framed(unify_each_pruned(st, t, ts, ctx), env, st0),
        match unify_each_pruned(st, t, ts, ctx) {
            Ok((u, st1)) => st1.next == st.next,
            Err(_) => true,
        },
    decreases ts.len(),
{
    if ts.len() > 0 {
        assert(frame::within(ts[0], env, st0, st.next));
        frame::lemma_within_apply(env, st0, st, ts[0]);
        let p = ty::apply(ts[0], st.sub);
        frame::lemma_step_unify(env, st0, st, t, p, ctx);
        if let Ok((t1, st1)) = infer_state::unify_in(st, t, p, ctx) {
            let tr = ts.drop_first();
            assert forall|i: int| 0 <= i < tr.len() implies frame::within(#[trigger] tr[i], env, st0, st1.next) by {
                assert(tr[i] == ts[i + 1]);
            }
            lemma_frame_each_pruned(env, st0, st1, t1, tr, ctx);
        }
    }
}

pub proof fn lemma_frame_pairs(env: Map<Str, Sch>, st0: St, st: St, xs: Seq<Ty>, ys: Seq<Ty>, ctx: Tm)
    requires
        frame::clean(env, st0),
        frame::step(env, st0, st),
        forall|i: int| 0 <= i < xs.len() ==> frame::within(#[trigger] xs[i], env, st0, st.next),
        forall|i: int| 0 <= i < ys.len() ==> frame::within(#[trigger] ys[i], env, st0, st.next),
    ensures
        match unify_pairs(st, xs, ys, ctx) {
            Ok(st1) => frame::step(env, st0, st1) && st1.next == st.next,
            Err(_) => true,
        },
    decreases xs.len(),
{
    if xs.len() > 0 && ys.len() > 0 {
        assert(frame::within(xs[0], env, st0, st.next));
        assert(frame::within(ys[0], env, st0, st.next));
        frame::lemma_step_unify(env, st0, st, xs[0], ys[0], ctx);
        if let Ok((t, st1)) = infer_state::unify_in(st, xs[0], ys[0], ctx) {
            let (xr, yr) = (xs.drop_first(), ys.drop_first());
            assert forall|i: int| 0 <= i < xr.len() implies frame::within(#[trigger] xr[i], env, st0, st1.next) by {
                assert(xr[i] == xs[i + 1]);
            }
            assert forall|i: int| 0 <= i < yr.len() implies frame::within(#[trigger] yr[i], env, st0, st1.next) by {
                assert(yr[i] == ys[i + 1]);
            }
            lemma_frame_pairs(env, st0, st1, xr, yr, ctx);
        }
    }
}

pub proof fn lemma_within_leaf(h: Head, env: Map<Str, Sch>, st0: St, n: nat)
    requires
        !(h is Var),
    ensures
        frame::within(ty::leaf(h), env, st0, n),
{
    assert forall|v: Str| ty::fv(ty::leaf(h)).contains(v) implies frame::near(env, st0, n).contains(v) by {}
}

pub proof fn lemma_frame_op(env: Map<Str, Sch>, op: Op, t: Ty, st0: St, st: St, ctx: Tm)
    requires
        frame::clean(env, st0),
        frame::step(env, st0, st),
        frame::within(t, env, st0, st.next),
    ensures
        framed(infer_op(op, t, st, ctx), env, st0),
{
    let tv = ty::ty_var(name::base26(st.next));
    let st1 = after(st, 1);
    frame::lemma_step_fresh(env, st0, st, 1);
    assert(frame::within(tv, env, st0, st1.next));
    assert(frame::within(t, env, st0, st1.next));
    lemma_within_all(Head::Number, seq![tv], env, st0, st1.next);
    lemma_within_all(Head::Integer, seq![tv], env, st0, st1.next);
    lemma_within_leaf(Head::F24, env, st0, st1.next);
    lemma_within_leaf(Head::U24, env, st0, st1.next);
    frame::lemma_step_unify(env, st0, st1, t, number(tv), ctx);
    frame::lemma_step_unify(env, st0, st1, t, integer(tv), ctx);
    frame::lemma_step_unify(env, st0, st1, t, ty::leaf(Head::F24), ctx);
}

/// Inference only replaces variables of the environment and new ones, and the
/// type that it finds only holds such variables.
pub proof fn lemma_frame(bk: Bk, env: Map<Str, Sch>, types: Map<Str, Sch>, t: Tm, st: St)
    requires
        frame::clean(env, st),
        types_closed(types),
        fields_closed(bk),
        checkable(bk, known(env, types), known(env, types), t),
    ensures
        framed(infer(bk, env, types, t, st), env, st),
    decreases t, 2nat, 0nat,
{
    lemma_frame_raw(bk, env, types, t, st);
    if let Ok((u, st1)) = infer_raw(bk, env, types, t, st) {
        frame::lemma_within_apply(env, st, st1, u);
    }
}

proof fn lemma_frame_raw(bk: Bk, env: Map<Str, Sch>, types: Map<Str, Sch>, t: Tm, st: St)
    requires
        frame::clean(env, st),
        types_closed(types),
        fields_closed(bk),
        checkable(bk, known(env, types), known(env, types), t),
    ensures
        framed(infer_raw(bk, env, types, t, st), env, st),
    decreases t, 1nat, 0nat,
{
    frame::lemma_step_refl(env, st);
    match t.head {
        Th::Var(x) => {
            lemma_frame_name(env, types, x, st);
        },
        Th::Ref(x) => {
            lemma_frame_name(env, types, x, st);
        },
        Th::Lam(_, pat) => {
            let xs = term::pat_binds(pat);
            let tv = ty::ty_var(name::base26(st.next));
            assert(xs.len() == 1);
            lemma_new_binds(env, st, st, xs);
            assert(new_vars(1, st.next) =~= seq![tv]);
            let bs = mono_binds(xs, seq![tv]);
            lemma_frame_inner(bk, env, types, bs, xs, t.kids[0], st, after(st, 1));
            if let Ok((bod, st1)) = infer(
                bk,
                scheme::bind_all(env, bs),
                types,
                t.kids[0],
                after(st, 1),
            ) {
                assert(frame::within(new_vars(1, st.next)[0], env, st, st.next + 1));
                lemma_within_later(tv, env, st, st.next + 1, st1.next);
                lemma_within_arr(tv, bod, env, st, st1.next);
            }
        },
        Th::App(_) => {
            lemma_frame_next(bk, env, types, t.kids[0], st, st);
            if let Ok((f, st1)) = infer(bk, env, types, t.kids[0], st) {
                lemma_frame_next(bk, env, types, t.kids[1], st, st1);
                if let Ok((a, st2)) = infer(bk, env, types, t.kids[1], st1) {
                    let r = ty::ty_var(name::base26(st2.next));
                    let st3 = after(st2, 1);
                    lemma_within_later(f, env, st, st1.next, st2.next);
                    frame::lemma_step_fresh(env, st, st2, 1);
                    assert(frame::within(r, env, st, st3.next));
                    assert(frame::within(a, env, st, st3.next));
                    assert(frame::within(f, env, st, st3.next));
                    lemma_within_arr(a, r, env, st, st3.next);
                    frame::lemma_step_unify(env, st, st3, f, ty::ty_arr(a, r), t.kids[0]);
                }
            }
        },
        Th::Let(pat) => {
            lemma_frame_next(bk, env, types, t.kids[0], st, st);
            if let Ok((v, st1)) = infer(bk, env, types, t.kids[0], st) {
                lemma_frame_let(bk, env, types, pat, t, v, st, st1);
            }
        },
        Th::Mat(h) => {
            lemma_frame_next(bk, env, types, t.kids[0], st, st);
            if let Ok((u, st1)) = infer(bk, env, types, t.kids[0], st) {
                let a = bk.ctrs[h.arms[0].0->0];
                let adt = bk.adts[a];
                let n = adt.vars.len();
                let m = scheme::fresh_map(adt.vars, st1.next);
                let st2 = after(st1, n);
                frame::lemma_step_fresh(env, st, st1, n);
                assert(frame::within(u, env, st, st2.next));
                let at = ty::apply(adt_type(adt), m);
                assert(frame::within(at, env, st, st2.next)) by {
                    assert forall|v: Str| #[trigger] ty::fv(adt_type(adt)).contains(v) implies adt.vars.contains(v) by {
                        let i = choose|i: int|
                            0 <= i < adt_type(adt).kids.len() && ty::fv(#[trigger] adt_type(adt).kids[i]).contains(v);
                        assert(adt.vars[i] == v);
                    }
                    assert forall|w: Str| ty::fv(at).contains(w) implies frame::near(env, st, st2.next).contains(w) by {
                        lemma_fresh_type(adt_type(adt), adt.vars, st1.next, w);
                        frame::lemma_made_split(st.next, st1.next, st2.next, w);
                    }
                }
                lemma_frame_cases(bk, env, types, a, h, t, 0, st1.next, st, st2);
                if let Ok((nx, st3)) = infer_cases(bk, env, types, adt, h, t, 0, m, st2) {
                    lemma_within_later(u, env, st, st2.next, st3.next);
                    lemma_within_later(at, env, st, st2.next, st3.next);
                    frame::lemma_step_unify(env, st, st3, u, at, t.kids[0]);
                }
            }
        },
        Th::Num(val) => {
            lemma_within_leaf(Head::U24, env, st, st.next);
            lemma_within_leaf(Head::I24, env, st, st.next);
            lemma_within_leaf(Head::F24, env, st, st.next);
        },
        Th::Oper(op) => {
            lemma_frame_next(bk, env, types, t.kids[0], st, st);
            if let Ok((a, st1)) = infer(bk, env, types, t.kids[0], st) {
                lemma_frame_next(bk, env, types, t.kids[1], st, st1);
                if let Ok((b, st2)) = infer(bk, env, types, t.kids[1], st1) {
                    lemma_within_later(a, env, st, st1.next, st2.next);
                    frame::lemma_step_unify(env, st, st2, b, a, t);
                    if let Ok((u, st3)) = infer_state::unify_in(st2, b, a, t) {
                        lemma_frame_op(env, op, u, st, st3, t);
                    }
                }
            }
        },
        Th::Swt(h) => {
            lemma_frame_switch(bk, env, types, h, t, st);
        },
        Th::Fan(_, _) => {
            lemma_frame_list(bk, env, types, t, 0, st, st, Seq::empty());
            if let Ok((ts, st1)) = infer_list(bk, env, types, t, 0, st, Seq::empty()) {
                lemma_within_all(Head::Tup, ts, env, st, st1.next);
            }
        },
        Th::Era => {
            lemma_within_leaf(Head::NoneType, env, st, st.next);
        },
        _ => {},
    }
}

pub proof fn lemma_frame_let(
    bk: Bk,
    env: Map<Str, Sch>,
    types: Map<Str, Sch>,
    pat: Pat,
    t: Tm,
    v: Ty,
    st0: St,
    st: St,
)
    requires
        frame::clean(env, st0),
        frame::step(env, st0, st),
        frame::within(v, env, st0, st.next),
        types_closed(types),
        fields_closed(bk),
        t.kids.len() == 2,
        is_let_pattern(pat),
        checkable(
            bk,
            with_names(known(env, types), term::pat_binds(pat)),
            known(env, types),
            t.kids[1],
        ),
    ensures
        framed(infer_let(bk, env, types, pat, t, v, st), env, st0),
    decreases t, 0nat, 0nat,
{
    let xs = term::pat_binds(pat);
    lemma_steps(env, st0, st);
    if let PatHead::Var(x) = pat.head {
        let sch = infer_state::generalized(v, env, st.sub);
        let bs = seq![(x, sch)];
        lemma_generalized_bind(env, st0, st, v);
        frame::lemma_step_refl(env, st);
        lemma_frame_inner(bk, env, types, bs, xs, t.kids[1], st, st);
        if let Ok((n, st1)) = infer(bk, scheme::bind_all(env, bs), types, t.kids[1], st) {
            frame::lemma_step_inner(env, st0, st, env, st1, n);
        }
    } else {
        let tvs = new_vars(xs.len(), st.next);
        let bs = mono_binds(xs, tvs);
        let st1 = after(st, xs.len());
        lemma_new_binds(env, st0, st, xs);
        lemma_frame_inner(bk, env, types, bs, xs, t.kids[1], st0, st1);
        if let Ok((n, st2)) = infer(bk, scheme::bind_all(env, bs), types, t.kids[1], st1) {
            lemma_within_later(v, env, st0, st.next, st2.next);
            assert forall|i: int| 0 <= i < tvs.len() implies frame::within(#[trigger] tvs[i], env, st0, st2.next) by {
                assert(frame::within(tvs[i], env, st0, st1.next));
                lemma_within_later(tvs[i], env, st0, st1.next, st2.next);
            }
            let ps = ty::apply_all(tvs, st2.sub);
            assert forall|i: int| 0 <= i < ps.len() implies frame::within(#[trigger] ps[i], env, st0, st2.next) by {
                frame::lemma_within_apply(env, st0, st2, tvs[i]);
            }
            let tup = Ty { head: Head::Tup, kids: ps };
            lemma_within_all(Head::Tup, ps, env, st0, st2.next);
            frame::lemma_step_unify(env, st0, st2, v, tup, t.kids[0]);
            lemma_frame_each_pruned(env, st0, st2, v, tvs, t.kids[0]);
        }
    }
}

pub proof fn lemma_generalized_bind(env: Map<Str, Sch>, st0: St, st: St, v: Ty)
    requires
        frame::clean(env, st0),
        frame::step(env, st0, st),
        frame::within(v, env, st0, st.next),
    ensures
        frame::clean(env, st),
        frame::bindable(infer_state::generalized(v, env, st.sub), env, st, st),
{
    lemma_steps(env, st0, st);
    frame::lemma_within_apply(env, st0, st, v);
    assert forall|w: Str| #[trigger] ty::fv(ty::apply(v, st.sub)).contains(w) implies frame::made(
        0,
        st.next,
    ).contains(w) by {
        frame::lemma_near(env, st0, st.next, w);
    }
    frame::lemma_generalized_bindable(env, st, v);
}

/// One arm of a match.
pub proof fn lemma_frame_arm(
    bk: Bk,
    env: Map<Str, Sch>,
    types: Map<Str, Sch>,
    a: Str,
    h: MatHead,
    t: Tm,
    i: int,
    first: nat,
    st0: St,
    st: St,
)
    requires
        frame::clean(env, st0),
        frame::step(env, st0, st),
        types_closed(types),
        fields_closed(bk),
        bk.adts.contains_key(a),
        st0.next <= first,
        first + bk.adts[a].vars.len() <= st.next,
        0 <= i < h.arms.len(),
        t.kids.len() == 1 + h.args + h.arms.len(),
        bk.adts[a].ctrs.contains_key(h.arms[i].0->0),
        checkable(
            bk,
            with_names(known(env, types), h.arms[i].1),
            known(env, types),
            t.kids[1 + h.args + i],
        ),
    ensures
        ({
            let k = 1 + h.args + i;
            let xs = h.arms[i].1;
            let tvs = new_vars(xs.len(), st.next);
            let inner = scheme::bind_all(env, mono_binds(xs, tvs));
            let st1 = after(st, xs.len());
            let fs = field_types(
                bk.adts[a].ctrs[h.arms[i].0->0],
                scheme::fresh_map(bk.adts[a].vars, first),
            );
            let r = infer(bk, inner, types, t.kids[k], st1);
            &&& frame::clean(inner, st1)
            &&& checkable(bk, known(inner, types), known(inner, types), t.kids[k])
            &&& framed(r, env, st0)
            &&& match r {
                Ok((u, st2)) => st1.next <= st2.next && match unify_pairs(
                    st2,
                    ty::apply_all(tvs, st2.sub),
                    fs,
                    t.kids[k],
                ) {
                    Ok(st3) => frame::step(env, st0, st3) && st3.next == st2.next,
                    Err(_) => true,
                },
                Err(_) => true,
            }
        }),
    decreases t, 0nat, 0nat,
{
    let k = 1 + h.args + i;
    let adt = bk.adts[a];
    let m = scheme::fresh_map(adt.vars, first);
    let c = h.arms[i].0->0;
    let ctr = adt.ctrs[c];
    let xs = h.arms[i].1;
    let tvs = new_vars(xs.len(), st.next);
    let bs = mono_binds(xs, tvs);
    let st1 = after(st, xs.len());
    lemma_new_binds(env, st0, st, xs);
    lemma_frame_inner(bk, env, types, bs, xs, t.kids[k], st0, st1);
    if let Ok((u, st2)) = infer(bk, scheme::bind_all(env, bs), types, t.kids[k], st1) {
        let ps = ty::apply_all(tvs, st2.sub);
        let fs = field_types(ctr, m);
        assert forall|j: int| 0 <= j < ps.len() implies frame::within(
            #[trigger] ps[j],
            env,
            st0,
            st2.next,
        ) by {
            assert(frame::within(tvs[j], env, st0, st1.next));
            lemma_within_later(tvs[j], env, st0, st1.next, st2.next);
            frame::lemma_within_apply(env, st0, st2, tvs[j]);
        }
        assert forall|j: int| 0 <= j < fs.len() implies frame::within(
            #[trigger] fs[j],
            env,
            st0,
            st2.next,
        ) by {
            let ft = ctr.fields[j].typ;
            assert forall|v: Str| #[trigger] ty::fv(ft).contains(v) implies adt.vars.contains(
                v,
            ) by {
                assert(bk.adts[a].ctrs[c].fields[j].typ == ft);
                assert(bk.adts[a].vars.contains(v));
            }
            assert forall|w: Str| ty::fv(fs[j]).contains(w) implies frame::near(
                env,
                st0,
                st2.next,
            ).contains(w) by {
                lemma_fresh_type(ft, adt.vars, first, w);
                frame::lemma_made_split(st0.next, first, st2.next, w);
                frame::lemma_made_split(first, first + adt.vars.len(), st2.next, w);
            }
        }
        lemma_frame_pairs(env, st0, st2, ps, fs, t.kids[k]);
    }
}

pub proof fn lemma_frame_cases(
    bk: Bk,
    env: Map<Str, Sch>,
    types: Map<Str, Sch>,
    a: Str,
    h: MatHead,
    t: Tm,
    i: int,
    first: nat,
    st0: St,
    st: St,
)
    requires
        frame::clean(env, st0),
        frame::step(env, st0, st),
        types_closed(types),
        fields_closed(bk),
        bk.adts.contains_key(a),
        st0.next <= first,
        first + bk.adts[a].vars.len() <= st.next,
        0 <= i <= h.arms.len(),
        t.kids.len() == 1 + h.args + h.arms.len(),
        forall|j: int|
            0 <= j < h.arms.len() ==> bk.adts[a].ctrs.contains_key((#[trigger] h.arms[j]).0->0),
        forall|j: int|
            1 + h.args <= j < t.kids.len() ==> checkable(
                bk,
                with_names(known(env, types), h.arms[j - 1 - h.args].1),
                known(env, types),
                #[trigger] t.kids[j],
            ),
    ensures
        ({
            let r = infer_cases(
                bk,
                env,
                types,
                bk.adts[a],
                h,
                t,
                i,
                scheme::fresh_map(bk.adts[a].vars, first),
                st,
            );
            &&& framed(r, env, st0)
            &&& match r {
                Ok((u, st1)) => st.next <= st1.next,
                Err(_) => true,
            }
        }),
    decreases t, 0nat, h.arms.len() - i,
{
    let adt = bk.adts[a];
    let m = scheme::fresh_map(adt.vars, first);
    if i < h.arms.len() {
        let k = 1 + h.args + i;
        let xs = h.arms[i].1;
        let tvs = new_vars(xs.len(), st.next);
        let inner = scheme::bind_all(env, mono_binds(xs, tvs));
        let st1 = after(st, xs.len());
        assert(h.arms[k - 1 - h.args] == h.arms[i]);
        assert(checkable(
            bk,
            with_names(known(env, types), h.arms[k - 1 - h.args].1),
            known(env, types),
            t.kids[k],
        ));
        lemma_frame_arm(bk, env, types, a, h, t, i, first, st0, st);
        if let Ok((u, st2)) = infer(bk, inner, types, t.kids[k], st1) {
            let ps = ty::apply_all(tvs, st2.sub);
            let fs = field_types(adt.ctrs[h.arms[i].0->0], m);
            if let Ok(st3) = unify_pairs(st2, ps, fs, t.kids[k]) {
                lemma_frame_cases(bk, env, types, a, h, t, i + 1, first, st0, st3);
                if let Ok((rest, st4)) = infer_cases(bk, env, types, adt, h, t, i + 1, m, st3) {
                    lemma_within_later(u, env, st0, st2.next, st4.next);
                    frame::lemma_step_unify(env, st0, st4, u, rest, t.kids[k]);
                }
            }
        }
    } else {
        frame::lemma_step_fresh(env, st0, st, 1);
        assert(frame::within(ty::ty_var(name::base26(st.next)), env, st0, st.next + 1));
    }
}

pub proof fn lemma_frame_list(
    bk: Bk,
    env: Map<Str, Sch>,
    types: Map<Str, Sch>,
    t: Tm,
    i: int,
    st0: St,
    st: St,
    done: Seq<Ty>,
)
    requires
        frame::clean(env, st0),
        frame::step(env, st0, st),
        types_closed(types),
        fields_closed(bk),
        0 <= i <= t.kids.len(),
        forall|j: int| 0 <= j < t.kids.len() ==> checkable(bk, known(env, types), known(env, types), #[trigger] t.kids[j]),
        forall|j: int| 0 <= j < done.len() ==> frame::within(#[trigger] done[j], env, st0, st.next),
    ensures
        match infer_list(bk, env, types, t, i, st, done) {
            Ok((ts, st1)) => {
                &&& frame::step(env, st0, st1)
                &&& forall|j: int| 0 <= j < ts.len() ==> frame::within(#[trigger] ts[j], env, st0, st1.next)
            },
            Err(_) => true,
        },
    decreases t, 0nat, t.kids.len() - i,
{
    if i < t.kids.len() {
        assert(checkable(bk, known(env, types), known(env, types), t.kids[i]));
        lemma_frame_next(bk, env, types, t.kids[i], st0, st);
        if let Ok((u, st1)) = infer(bk, env, types, t.kids[i], st) {
            let d1 = done.push(u);
            assert forall|j: int| 0 <= j < d1.len() implies frame::within(#[trigger] d1[j], env, st0, st1.next) by {
                if j < done.len() {
                    assert(frame::within(done[j], env, st0, st.next));
                    lemma_within_later(done[j], env, st0, st.next, st1.next);
                }
            }
            lemma_frame_list(bk, env, types, t, i + 1, st0, st1, d1);
        }
    }
}

pub proof fn lemma_frame_numbers(
    bk: Bk,
    env: Map<Str, Sch>,
    types: Map<Str, Sch>,
    h: SwtHead,
    t: Tm,
    n: int,
    st0: St,
    st: St,
    done: Seq<Ty>,
)
    requires
        frame::clean(env, st0),
        frame::step(env, st0, st),
        types_closed(types),
        fields_closed(bk),
        h.args + n < t.kids.len() - 1,
        forall|j: int|
            1 + h.args <= j < t.kids.len() - 1 ==> checkable(
                bk,
                known(env, types),
                known(env, types),
                #[trigger] t.kids[j],
            ),
        forall|j: int| 0 <= j < done.len() ==> frame::within(#[trigger] done[j], env, st0, st.next),
    ensures
        match infer_numbers(bk, env, types, h, t, n, st, done) {
            Ok((ts, st1)) => {
                &&& frame::step(env, st0, st1)
                &&& st.next <= st1.next
                &&& forall|j: int| 0 <= j < ts.len() ==> frame::within(#[trigger] ts[j], env, st0, st1.next)
            },
            Err(_) => true,
        },
    decreases t, 0nat, n,
{
    if n > 0 {
        let k = h.args + n;
        assert(checkable(bk, known(env, types), known(env, types), t.kids[k]));
        lemma_frame_next(bk, env, types, t.kids[k], st0, st);
        if let Ok((u, st1)) = infer(bk, env, types, t.kids[k], st) {
            let d1 = done.push(u);
            assert forall|j: int| 0 <= j < d1.len() implies frame::within(#[trigger] d1[j], env, st0, st1.next) by {
                if j < done.len() {
                    assert(frame::within(done[j], env, st0, st.next));
                    lemma_within_later(done[j], env, st0, st.next, st1.next);
                }
            }
            lemma_frame_numbers(bk, env, types, h, t, n - 1, st0, st1, d1);
        }
    }
}

proof fn lemma_frame_switch(
    bk: Bk,
    env: Map<Str, Sch>,
    types: Map<Str, Sch>,
    h: SwtHead,
    t: Tm,
    st: St,
)
    requires
        frame::clean(env, st),
        types_closed(types),
        fields_closed(bk),
        t.head == Th::Swt(h),
        checkable(bk, known(env, types), known(env, types), t),
    ensures
        framed(infer_raw(bk, env, types, t, st), env, st),
    decreases t, 0nat, t.kids.len(),
{
    let u24 = ty::leaf(Head::U24);
    frame::lemma_step_refl(env, st);
    lemma_frame_next(bk, env, types, t.kids[0], st, st);
    if let Ok((u, st1)) = infer(bk, env, types, t.kids[0], st) {
        lemma_within_leaf(Head::U24, env, st, st1.next);
        frame::lemma_step_unify(env, st, st1, u, u24, t.kids[0]);
        if let Ok((_, st2)) = infer_state::unify_in(st1, u, u24, t.kids[0]) {
            let n = t.kids.len() - h.args - 2;
            lemma_frame_numbers(bk, env, types, h, t, n, st, st2, Seq::empty());
            if let Ok((ts, st3)) = infer_numbers(bk, env, types, h, t, n, st2, Seq::empty()) {
                let xs = seq![h.pred];
                let bs = mono_binds(xs, seq![u24]);
                lemma_within_leaf(Head::U24, env, st, st3.next);
                frame::lemma_mono_bindable(env, st, st3, u24);
                lemma_frame_inner(bk, env, types, bs, xs, t.kids.last(), st, st3);
                if let Ok((s, st4)) = infer(
                    bk,
                    scheme::bind_all(env, bs),
                    types,
                    t.kids.last(),
                    st3,
                ) {
                    assert forall|j: int| 0 <= j < ts.len() implies frame::within(
                        #[trigger] ts[j],
                        env,
                        st,
                        st4.next,
                    ) by {
                        assert(frame::within(ts[j], env, st, st3.next));
                        lemma_within_later(ts[j], env, st, st3.next, st4.next);
                    }
                    lemma_frame_each(env, st, st4, s, ts, t);
                }
            }
        }
    }
}

} // verus!
