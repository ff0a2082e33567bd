//! What it means for a term to have a type.

use crate::fun::book::{Am, Bk};
use crate::fun::check::inference;
use crate::fun::check::scheme;
use crate::fun::check::scheme::Sch;
use crate::fun::check::unify_laws;
use crate::fun::term;
use crate::fun::term::{FanKind, MatHead, Num, Op, Pat, PatHead, SwtHead, Th, Tm};
use crate::fun::ty;
use crate::fun::ty::{Head, Ty};
use crate::name::Str;
use vstd::prelude::*;

verus! {

/// The types that each name can have.
pub type Givens = Map<Str, Set<Ty>>;

/// The names with the types that they have.
pub open spec fn bound(g: Givens, xs: Seq<Option<Str>>, ts: Seq<Ty>) -> Givens
    decreases xs.len(),
{
    if xs.len() == 0 {
        g
    } else {
        bound_to(bound(g, xs.drop_last(), ts.drop_last()), xs.last(), set![ts.last()])
    }
}

/// The name, if there is one, with the types that it can have.
pub open spec fn bound_to(g: Givens, x: Option<Str>, us: Set<Ty>) -> Givens {
    match x {
        Some(n) => g.insert(n, us),
        None => g,
    }
}

/// Two types agree, and the third one agrees with both.
pub open spec fn joins(a: Ty, b: Ty, c: Ty) -> bool {
    &&& unify_laws::agree(a, b)
    &&& unify_laws::agree(c, a)
    &&& unify_laws::agree(c, b)
}

/// The type joined with each type of a list in turn is the last type.
pub open spec fn joins_all(t: Ty, ts: Seq<Ty>, u: Ty) -> bool
    decreases ts.len(),
{
    if ts.len() == 0 {
        u == t
    } else {
        exists|c: Ty| #[trigger] joins(t, ts[0], c) && joins_all(c, ts.drop_first(), u)
    }
}

/// The types agree pair by pair, as far as both lists go.
pub open spec fn pairs_agree(xs: Seq<Ty>, ys: Seq<Ty>) -> bool {
    forall|i: int| 0 <= i < xs.len() && i < ys.len() ==> unify_laws::agree(#[trigger] xs[i], ys[i])
}

/// A native operation on arguments of a type has a type.
pub open spec fn op_typed(op: Op, t: Ty, u: Ty) -> bool {
    match op {
        Op::ADD | Op::SUB | Op::MUL | Op::DIV => exists|n: Ty| #[trigger]
            joins(t, inference::number(n), u),
        Op::EQ | Op::NEQ | Op::LT | Op::GT | Op::GE | Op::LE => u == ty::leaf(Head::U24) && exists|
            n: Ty,
        | #[trigger] unify_laws::agree(t, inference::number(n)),
        Op::REM | Op::AND | Op::OR | Op::XOR | Op::SHL | Op::SHR => exists|n: Ty| #[trigger]
            joins(t, inference::integer(n), u),
        Op::POW => joins(t, ty::leaf(Head::F24), u),
    }
}

/// The type of a number.
pub open spec fn num_type(val: Num) -> Ty {
    ty::leaf(
        match val {
            Num::U24(_) => Head::U24,
            Num::I24(_) => Head::I24,
            Num::F24(_) => Head::F24,
        },
    )
}

/// The term has the type, given the types that names can have.
///
/// - A name has each of its types.
/// - A lambda has the type of functions from the type of its variable to that
///   of its body.
/// - A function is applied to what agrees with its argument.
/// - The variable of a `let` has all types that the value has. The variables of
///   a tuple pattern have the types of the elements, and those of a duplication
///   join with the type of the value.
/// - The argument of a match is of the datatype. The fields have their types,
///   and the types of the arms join.
/// - The arguments of a native operation join in a type of numbers.
/// - The argument of a switch is a native number, the predecessor is one too,
///   and the types of the arms join.
/// - The type of a tuple is the tuple of the types of its elements.
pub open spec fn typed(bk: Bk, g: Givens, t: Tm, u: Ty) -> bool
    decreases t, 1nat, 0nat,
{
    match t.head {
        Th::Var(x) => g.contains_key(x) && g[x].contains(u),
        Th::Ref(x) => g.contains_key(x) && g[x].contains(u),
        Th::Lam(_, pat) => {
            &&& t.kids.len() == 1
            &&& u.head is Arr
            &&& u.kids.len() == 2
            &&& typed(bk, bound(g, term::pat_binds(pat), seq![u.kids[0]]), t.kids[0], u.kids[1])
        },
        Th::App(_) => t.kids.len() == 2 && exists|f: Ty, a: Ty|
            {
                &&& typed(bk, g, t.kids[0], f)
                &&& typed(bk, g, t.kids[1], a)
                &&& #[trigger] unify_laws::agree(f, ty::ty_arr(a, u))
            },
        Th::Let(pat) => t.kids.len() == 2 && typed_let(bk, g, pat, t, u),
        Th::Mat(h) => t.kids.len() > 0 && {
            let adt = bk.adts[bk.ctrs[h.arms[0].0->0]];
            exists|s: Ty, m: Map<Str, Ty>|
                {
                    &&& typed(bk, g, t.kids[0], s)
                    &&& typed_cases(bk, g, adt, h, t, 0, m, u)
                    &&& #[trigger] unify_laws::agree(s, ty::apply(inference::adt_type(adt), m))
                }
        },
        Th::Num(val) => u == num_type(val),
        Th::Oper(op) => t.kids.len() == 2 && exists|a: Ty, b: Ty, c: Ty|
            {
                &&& typed(bk, g, t.kids[0], a)
                &&& typed(bk, g, t.kids[1], b)
                &&& #[trigger] joins(b, a, c)
                &&& op_typed(op, c, u)
            },
        Th::Swt(h) => t.kids.len() > h.args + 2 && typed_switch(bk, g, h, t, u) && exists|s: Ty|
            typed(bk, g, t.kids[0], s) && #[trigger] unify_laws::agree(s, ty::leaf(Head::U24)),
        Th::Fan(_, _) => {
            &&& u.head is Tup
            &&& u.kids.len() == t.kids.len()
            &&& forall|i: int| 0 <= i < t.kids.len() ==> typed(bk, g, #[trigger] t.kids[i], u.kids[i])
        },
        Th::Era => u == ty::leaf(Head::NoneType),
        _ => false,
    }
}

/// The rest of a `let` has the type.
pub open spec fn typed_let(bk: Bk, g: Givens, pat: Pat, t: Tm, u: Ty) -> bool
    decreases t, 0nat, 0nat,
{
    let xs = term::pat_binds(pat);
    if t.kids.len() != 2 {
        false
    } else if let PatHead::Var(x) = pat.head {
        exists|us: Set<Ty>|
            {
                &&& typed(bk, #[trigger] bound_to(g, x, us), t.kids[1], u)
                &&& us != Set::<Ty>::empty()
                &&& forall|w: Ty| #[trigger] us.contains(w) ==> typed(bk, g, t.kids[0], w)
            }
    } else if pat.head is Fan && pat.head->Fan_0 == FanKind::Tup {
        exists|v: Ty, ts: Seq<Ty>|
            {
                &&& typed(bk, g, t.kids[0], v)
                &&& typed(bk, bound(g, xs, ts), t.kids[1], u)
                &&& ts.len() == xs.len()
                &&& #[trigger] unify_laws::agree(v, Ty { head: Head::Tup, kids: ts })
            }
    } else {
        exists|v: Ty, ts: Seq<Ty>, w: Ty|
            {
                &&& typed(bk, g, t.kids[0], v)
                &&& typed(bk, bound(g, xs, ts), t.kids[1], u)
                &&& ts.len() == xs.len()
                &&& #[trigger] joins_all(v, ts, w)
            }
    }
}

/// The arms of a match from one on have types that join in this one, where the
/// variables of the datatype stand for the given types.
pub open spec fn typed_cases(
    bk: Bk,
    g: Givens,
    adt: Am,
    h: MatHead,
    t: Tm,
    i: int,
    m: Map<Str, Ty>,
    u: Ty,
) -> bool
    decreases t, 0nat, h.arms.len() - i,
{
    if 0 <= i < h.arms.len() {
        let k = 1 + h.args + i;
        let xs = h.arms[i].1;
        k < t.kids.len() && exists|ts: Seq<Ty>, b: Ty, rest: Ty|
            {
                &&& typed(bk, #[trigger] bound(g, xs, ts), t.kids[k], b)
                &&& typed_cases(bk, g, adt, h, t, i + 1, m, rest)
                &&& ts.len() == xs.len()
                &&& pairs_agree(ts, inference::field_types(adt.ctrs[h.arms[i].0->0], m))
                &&& #[trigger] joins(b, rest, u)
            }
    } else {
        true
    }
}

/// The arms of a switch have types that join in this one.
pub open spec fn typed_switch(bk: Bk, g: Givens, h: SwtHead, t: Tm, u: Ty) -> bool
    decreases t, 0nat, 0nat,
{
    let n = t.kids.len() - h.args - 2;
    t.kids.len() > h.args + 2 && exists|ts: Seq<Ty>, s: Ty|
        {
            &&& #[trigger] joins_all(s, ts, u)
            &&& typed(
                bk,
                bound(g, seq![h.pred], seq![ty::leaf(Head::U24)]),
                t.kids.last(),
                s,
            )
            &&& ts.len() == n
            &&& forall|j: int|
                0 <= j < n ==> typed(bk, g, t.kids[h.args + n - j], #[trigger] ts[j])
        }
}

/* What schemes give */

/// Every variable is replaced.
pub open spec fn is_total(r: Map<Str, Ty>) -> bool {
    forall|x: Str| #[trigger] r.contains_key(x)
}

/// The substitution replaces every variable, and does what the other one does.
pub open spec fn solves(r: Map<Str, Ty>, s: Map<Str, Ty>) -> bool {
    is_total(r) && ty::compose(s, r) == r
}

/// The substitution only differs in the variables that the scheme binds.
pub open spec fn instantiates(q: Map<Str, Ty>, sch: Sch, r: Map<Str, Ty>) -> bool {
    is_total(q) && forall|x: Str| !sch.vars.contains(x) ==> #[trigger] q[x] == r[x]
}

/// The types that a scheme stands for under a substitution.
pub open spec fn instances(sch: Sch, r: Map<Str, Ty>) -> Set<Ty> {
    Set::new(
        |u: Ty|
            exists|q: Map<Str, Ty>| #[trigger]
                instantiates(q, sch, r) && u == ty::apply(sch.typ, q),
    )
}

/// The types that names can have under a substitution.
pub open spec fn givens(env: Map<Str, Sch>, types: Map<Str, Sch>, r: Map<Str, Ty>) -> Givens {
    Map::new(
        |x: Str| env.contains_key(x) || types.contains_key(x),
        |x: Str|
            if env.contains_key(x) {
                instances(env[x], r)
            } else {
                instances(types[x], r)
            },
    )
}

pub proof fn lemma_mono_instances(t: Ty, r: Map<Str, Ty>)
    requires
        is_total(r),
    ensures
        instances(scheme::mono(t), r) == set![ty::apply(t, r)],
{
    let sch = scheme::mono(t);
    assert forall|u: Ty| instances(sch, r).contains(u) <==> u == ty::apply(t, r) by {
        if instances(sch, r).contains(u) {
            let q = choose|q: Map<Str, Ty>| #[trigger]
                instantiates(q, sch, r) && u == ty::apply(sch.typ, q);
            assert(q =~= r);
        }
        assert(instantiates(r, sch, r));
    }
    assert(instances(sch, r) =~= set![ty::apply(t, r)]);
}

/// Binding names to types.
pub proof fn lemma_givens_bound(
    env: Map<Str, Sch>,
    types: Map<Str, Sch>,
    r: Map<Str, Ty>,
    xs: Seq<Option<Str>>,
    ts: Seq<Ty>,
)
    requires
        is_total(r),
        xs.len() == ts.len(),
    ensures
        givens(scheme::bind_all(env, inference::mono_binds(xs, ts)), types, r) == bound(
            givens(env, types, r),
            xs,
            ty::apply_all(ts, r),
        ),
    decreases xs.len(),
{
    let bs = inference::mono_binds(xs, ts);
    if xs.len() > 0 {
        let (x0, t0) = (xs.drop_last(), ts.drop_last());
        assert(bs.drop_last() =~= inference::mono_binds(x0, t0));
        lemma_givens_bound(env, types, r, x0, t0);
        assert(ty::apply_all(ts, r).drop_last() =~= ty::apply_all(t0, r));
        let e = scheme::bind_all(env, bs.drop_last());
        lemma_givens_bound_to(e, types, r, xs.last(), scheme::mono(ts.last()));
        lemma_mono_instances(ts.last(), r);
        assert(scheme::bind_all(e, seq![bs.last()]) =~= scheme::bind_all(env, bs)) by {
            assert(seq![bs.last()].drop_last() =~= Seq::empty());
            assert(seq![bs.last()].last() == bs.last());
            reveal_with_fuel(scheme::bind_all, 2);
        }
        assert(bs.last() == (xs.last(), scheme::mono(ts.last())));
    }
}

/// Binding a name to a scheme.
pub proof fn lemma_givens_bound_to(
    env: Map<Str, Sch>,
    types: Map<Str, Sch>,
    r: Map<Str, Ty>,
    x: Option<Str>,
    sch: Sch,
)
    ensures
        givens(scheme::bind_all(env, seq![(x, sch)]), types, r) == bound_to(
            givens(env, types, r),
            x,
            instances(sch, r),
        ),
{
    let bs = seq![(x, sch)];
    assert(bs.drop_last() =~= Seq::empty());
    assert(bs.last() == (x, sch));
    reveal_with_fuel(scheme::bind_all, 2);
    assert(givens(scheme::bind_all(env, bs), types, r) =~= bound_to(
        givens(env, types, r),
        x,
        instances(sch, r),
    ));
}

/// Only the variables count that a scheme holds and does not bind.
pub proof fn lemma_same_instances(sch: Sch, p: Map<Str, Ty>, r: Map<Str, Ty>)
    requires
        is_total(p),
        is_total(r),
        forall|x: Str| #[trigger]
            ty::fv(sch.typ).contains(x) && !sch.vars.contains(x) ==> p[x] == r[x],
    ensures
        instances(sch, p) == instances(sch, r),
{
    assert forall|u: Ty| instances(sch, p).contains(u) implies instances(sch, r).contains(u) by {
        lemma_instance_moves(sch, p, r, u);
    }
    assert forall|u: Ty| instances(sch, r).contains(u) implies instances(sch, p).contains(u) by {
        lemma_instance_moves(sch, r, p, u);
    }
    assert(instances(sch, p) =~= instances(sch, r));
}

proof fn lemma_instance_moves(sch: Sch, p: Map<Str, Ty>, r: Map<Str, Ty>, u: Ty)
    requires
        is_total(p),
        is_total(r),
        forall|x: Str| #[trigger]
            ty::fv(sch.typ).contains(x) && !sch.vars.contains(x) ==> p[x] == r[x],
        instances(sch, p).contains(u),
    ensures
        instances(sch, r).contains(u),
{
    let q = choose|q: Map<Str, Ty>| #[trigger]
        instantiates(q, sch, p) && u == ty::apply(sch.typ, q);
    let q2 = Map::new(
        |x: Str| true,
        |x: Str|
            if sch.vars.contains(x) {
                q[x]
            } else {
                r[x]
            },
    );
    assert forall|x: Str| #[trigger] ty::fv(sch.typ).contains(x) implies q.contains_key(x)
        && q2.contains_key(x) && q[x] == q2[x] by {}
    ty::lemma_apply_agree(sch.typ, q, q2);
    assert(instantiates(q2, sch, r));
}

} // verus!
