//! What the contents of types, patterns and terms are, for each kind, and what
//! substitutions do to types.

use crate::fun::term::{MatchRule, Pattern, Term, Th};
use crate::fun::ty;
use crate::fun::ty::{Head, Ty, Type};
use crate::name;
use crate::name::Str;
use vstd::prelude::*;

verus! {

/* Types */

/// The content of each kind of type: its kind and the contents of the types below,
/// from left to right.
pub proof fn law_type_content(t: Type)
    ensures
        match t {
            Type::Any => t@.head is Any && t@.kids.len() == 0,
            Type::Hole => t@.head is Hole && t@.kids.len() == 0,
            Type::Var(x) => t@.head == Head::Var(x@) && t@.kids.len() == 0,
            Type::Ctr(x, ts) => t@.head == Head::Ctr(x@) && are_contents(ts@, t@.kids),
            Type::Arr(a, b) => t@.head is Arr && t@.kids == seq![(*a)@, (*b)@],
            Type::Tup(ts) => t@.head is Tup && are_contents(ts@, t@.kids),
            Type::U24 => t@.head is U24 && t@.kids.len() == 0,
            Type::F24 => t@.head is F24 && t@.kids.len() == 0,
            Type::I24 => t@.head is I24 && t@.kids.len() == 0,
            Type::NoneType => t@.head is NoneType && t@.kids.len() == 0,
            Type::Number(u) => t@.head is Number && t@.kids == seq![(*u)@],
            Type::Integer(u) => t@.head is Integer && t@.kids == seq![(*u)@],
        },
{
}

/// The second list holds the contents of the first one, in their order.
pub open spec fn are_contents(ts: Seq<Type>, us: Seq<Ty>) -> bool {
    us.len() == ts.len() && forall|i: int| 0 <= i < ts.len() ==> #[trigger] us[i] == ts[i]@
}

/// A substitution replaces the variables that it has a type for, everywhere in the
/// type, and nothing else.
pub proof fn law_apply(t: Ty, m: Map<Str, Ty>)
    ensures
        t.head matches Head::Var(x) ==> ty::apply(t, m) == if m.contains_key(x) {
            m[x]
        } else {
            t
        },
        !(t.head is Var) ==> {
            &&& ty::apply(t, m).head == t.head
            &&& ty::apply(t, m).kids.len() == t.kids.len()
            &&& forall|i: int|
                0 <= i < t.kids.len() ==> #[trigger] ty::apply(t, m).kids[i] == ty::apply(
                    t.kids[i],
                    m,
                )
        },
{
}

/// The variables of a type are itself, if it is one, or those of the types below.
pub proof fn law_variables(t: Ty, x: Str)
    ensures
        t.head is Var ==> (ty::fv(t).contains(x) <==> t.head == Head::Var(x)),
        !(t.head is Var) ==> (ty::fv(t).contains(x) <==> exists|i: int|
            0 <= i < t.kids.len() && ty::fv(#[trigger] t.kids[i]).contains(x)),
{
}

/// One substitution after the other does what their composition does.
pub proof fn law_compose(t: Ty, m: Map<Str, Ty>, n: Map<Str, Ty>)
    ensures
        ty::apply(t, ty::compose(m, n)) == ty::apply(ty::apply(t, m), n),
{
    ty::lemma_apply_compose(t, m, n);
}

/* Patterns */

/// The content of each kind of pattern.
pub proof fn law_pattern_content(p: Pattern)
    ensures
        match p {
            Pattern::Var(x) => p@.head is Var && p@.head->Var_0 == name::opt_name(x)
                && p@.kids.len() == 0,
            Pattern::Chn(x) => p@.head is Chn && p@.head->Chn_0 == x@ && p@.kids.len() == 0,
            Pattern::Ctr(x, ps) => p@.head is Ctr && p@.head->Ctr_0 == x@ && p@.kids.len()
                == ps@.len() && forall|i: int|
                0 <= i < ps@.len() ==> #[trigger] p@.kids[i] == ps@[i]@,
            Pattern::Num(n) => p@.head is Num && p@.head->Num_0 == n && p@.kids.len() == 0,
            Pattern::Fan(fan, tag, ps) => p@.head is Fan && p@.head->Fan_0 == fan && p@.head->Fan_1
                == tag@ && p@.kids.len() == ps@.len() && forall|i: int|
                0 <= i < ps@.len() ==> #[trigger] p@.kids[i] == ps@[i]@,
            Pattern::Lst(ps) => p@.head is Lst && p@.kids.len() == ps@.len() && forall|i: int|
                0 <= i < ps@.len() ==> #[trigger] p@.kids[i] == ps@[i]@,
            Pattern::Str(s) => p@.head is Str && p@.head->Str_0 == s@ && p@.kids.len() == 0,
        },
{
}

/* Terms */

/// The content of each kind of term with a fixed number of terms below: these come
/// from left to right.
pub proof fn law_term_content(t: Term)
    ensures
        match t {
            Term::Lam { tag, pat, bod } => t@.head == Th::Lam(tag@, (*pat)@) && t@.kids == seq![
                (*bod)@,
            ],
            Term::Var { nam } => t@.head == Th::Var(nam@) && t@.kids.len() == 0,
            Term::Link { nam } => t@.head == Th::Link(nam@) && t@.kids.len() == 0,
            Term::Let { pat, val, nxt } => t@.head == Th::Let((*pat)@) && t@.kids == seq![
                (*val)@,
                (*nxt)@,
            ],
            Term::With { typ, bod } => t@.head == Th::With(typ@) && t@.kids == seq![(*bod)@],
            Term::Ask { pat, val, nxt } => t@.head == Th::Ask((*pat)@) && t@.kids == seq![
                (*val)@,
                (*nxt)@,
            ],
            Term::Use { nam, val, nxt } => t@.head == Th::Use(name::opt_name(nam)) && t@.kids
                == seq![(*val)@, (*nxt)@],
            Term::App { tag, fun, arg } => t@.head == Th::App(tag@) && t@.kids == seq![
                (*fun)@,
                (*arg)@,
            ],
            Term::Num { val } => t@.head == Th::Num(val) && t@.kids.len() == 0,
            Term::Nat { val } => t@.head == Th::Nat(val) && t@.kids.len() == 0,
            Term::Str { val } => t@.head == Th::Str(val@) && t@.kids.len() == 0,
            Term::Oper { opr, fst, snd } => t@.head == Th::Oper(opr) && t@.kids == seq![
                (*fst)@,
                (*snd)@,
            ],
            Term::Open { typ, var, bod } => t@.head == Th::Open(typ@, var@) && t@.kids == seq![
                (*bod)@,
            ],
            Term::Ref { nam } => t@.head == Th::Ref(nam@) && t@.kids.len() == 0,
            Term::Era => t@.head is Era && t@.kids.len() == 0,
            Term::ErrTerm => t@.head is ErrTerm && t@.kids.len() == 0,
            _ => true,
        },
{
}

/// The content of fans and lists: their elements in their order.
pub proof fn law_elements_content(t: Term, i: int)
    ensures
        match t {
            Term::Fan { fan, tag, els } => {
                &&& t@.head == Th::Fan(fan, tag@)
                &&& t@.kids.len() == els@.len()
                &&& 0 <= i < els@.len() ==> t@.kids[i] == els@[i]@
            },
            Term::List { els } => {
                &&& t@.head is List
                &&& t@.kids.len() == els@.len()
                &&& 0 <= i < els@.len() ==> t@.kids[i] == els@[i]@
            },
            _ => true,
        },
{
}

/// The constructor and the variables of an arm.
pub open spec fn is_arm_head(arm: MatchRule, h: (Option<Str>, Seq<Option<Str>>)) -> bool {
    &&& h.0 == name::opt_name(arm.0)
    &&& h.1.len() == arm.1@.len()
    &&& forall|j: int| 0 <= j < h.1.len() ==> #[trigger] h.1[j] == name::opt_name(arm.1@[j])
}

/// The content of a match: the argument, the terms that are passed on, and the
/// bodies of the arms, each in their order.
pub proof fn law_match_content(t: Term, i: int)
    ensures
        t matches Term::Mat { bnd, arg, with_bnd, with_arg, arms } ==> {
            let h = t@.head->Mat_0;
            let n = with_arg@.len();
            &&& t@.head is Mat
            &&& h.bnd == name::opt_name(bnd)
            &&& h.args == n
            &&& h.with_bnd.len() == with_bnd@.len()
            &&& 0 <= i < with_bnd@.len() ==> h.with_bnd[i] == name::opt_name(with_bnd@[i])
            &&& h.arms.len() == arms@.len()
            &&& 0 <= i < arms@.len() ==> is_arm_head(arms@[i], h.arms[i])
            &&& t@.kids.len() == 1 + n + arms@.len()
            &&& t@.kids[0] == (*arg)@
            &&& 0 <= i < n ==> t@.kids[1 + i] == with_arg@[i]@
            &&& 0 <= i < arms@.len() ==> t@.kids[1 + n + i] == arms@[i].2@
        },
{
}

/// The content of a switch: the argument, the terms that are passed on, and the
/// arms, each in their order.
pub proof fn law_switch_content(t: Term, i: int)
    ensures
        t matches Term::Swt { bnd, arg, with_bnd, with_arg, pred, arms } ==> {
            let h = t@.head->Swt_0;
            let n = with_arg@.len();
            &&& t@.head is Swt
            &&& h.bnd == name::opt_name(bnd)
            &&& h.pred == name::opt_name(pred)
            &&& h.args == n
            &&& h.with_bnd.len() == with_bnd@.len()
            &&& 0 <= i < with_bnd@.len() ==> h.with_bnd[i] == name::opt_name(with_bnd@[i])
            &&& t@.kids.len() == 1 + n + arms@.len()
            &&& t@.kids[0] == (*arg)@
            &&& 0 <= i < n ==> t@.kids[1 + i] == with_arg@[i]@
            &&& 0 <= i < arms@.len() ==> t@.kids[1 + n + i] == arms@[i]@
        },
{
}

} // verus!
