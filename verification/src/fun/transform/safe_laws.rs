//! Which terms are safe, by what stands at their top and by the places in them.

use crate::fun::term;
use crate::fun::term::{Dm, Th, Tm};
use crate::fun::transform::float_combinators;
use crate::fun::transform::safety;
use crate::name::Str;
use vstd::prelude::*;

verus! {

/* Places */

/// There is such a place in the term: each number picks a term below.
pub open spec fn is_place(t: Tm, place: Seq<int>) -> bool
    decreases place.len(),
{
    place.len() > 0 ==> {
        &&& 0 <= place[0] < t.kids.len()
        &&& is_place(t.kids[place[0]], place.drop_first())
    }
}

/// What stands at a place of a term.
pub open spec fn part(t: Tm, place: Seq<int>) -> Tm
    decreases place.len(),
{
    if place.len() == 0 {
        t
    } else {
        part(t.kids[place[0]], place.drop_first())
    }
}

/// No term on the way to the place is a lambda, or a reference, which has nothing
/// below it.
pub open spec fn is_active_place(t: Tm, place: Seq<int>) -> bool
    decreases place.len(),
{
    place.len() > 0 ==> {
        &&& !(t.head is Lam) && !(t.head is Ref)
        &&& is_active_place(t.kids[place[0]], place.drop_first())
    }
}

/* Lambdas */

/// What stands below the lambdas at the top of a term.
pub open spec fn below_lambdas(t: Tm) -> Tm
    decreases t,
{
    if t.head is Lam && t.kids.len() == 1 {
        below_lambdas(t.kids[0])
    } else {
        t
    }
}

/// One of the lambdas at the top of a term binds the variable.
pub open spec fn binds_at_top(t: Tm, x: Str) -> bool
    decreases t,
{
    t.head is Lam && t.kids.len() == 1 && {
        ||| term::pat_binds(t.head->Lam_1).contains(Some(x))
        ||| binds_at_top(t.kids[0], x)
    }
}

/// Each of the lambdas at the top of a term has one body.
pub open spec fn has_bodies(t: Tm) -> bool
    decreases t,
{
    t.head is Lam ==> t.kids.len() == 1 && has_bodies(t.kids[0])
}

proof fn lemma_safe_body(t: Tm, scope: Seq<Option<Str>>, known: Set<Str>)
    ensures
        safety::is_safe_body(t, scope, known) <==> has_bodies(t) && match below_lambdas(t).head {
            Th::Ref(_) => true,
            Th::Var(x) => scope.contains(Some(x)) || binds_at_top(t, x),
            _ => safety::is_safe(below_lambdas(t), known),
        },
    decreases t,
{
    if let Th::Lam(_, p) = t.head {
        if t.kids.len() == 1 {
            let binds = term::pat_binds(p);
            lemma_safe_body(t.kids[0], scope + binds, known);
            assert forall|x: Str| #[trigger] (scope + binds).contains(Some(x)) == (scope.contains(
                Some(x),
            ) || binds.contains(Some(x))) by {
                if scope.contains(Some(x)) {
                    let i = choose|i: int| 0 <= i < scope.len() && scope[i] == Some(x);
                    assert((scope + binds)[i] == Some(x));
                }
                if binds.contains(Some(x)) {
                    let i = choose|i: int| 0 <= i < binds.len() && binds[i] == Some(x);
                    assert((scope + binds)[scope.len() + i] == Some(x));
                }
            }
        }
    }
}

/* Laws */

/// Whether a term is safe, for each kind of term.
///
/// Tuples and superpositions, applications, operations and switches are safe
/// if and only if all the terms below are. A reference is safe if and only if
/// its name is known to be. A lambda is safe if and only if what stands below
/// it, and below the lambdas right below it, is a reference, a variable that one
/// of them binds or a safe term. Numbers, erasers and errors are safe. All other
/// terms are not.
pub proof fn law_safe_by_kind(t: Tm, known: Set<Str>)
    ensures
        t.head is Fan || t.head is App || t.head is Oper || t.head is Swt ==> (safety::is_safe(
            t,
            known,
        ) <==> forall|i: int| 0 <= i < t.kids.len() ==> safety::is_safe(#[trigger] t.kids[i], known)),
        t.kids.len() == 0 && (t.head is Num || t.head is Era || t.head is ErrTerm)
            ==> safety::is_safe(t, known),
        forall|n: Str| t.head == Th::Ref(n) ==> (safety::is_safe(t, known) <==> known.contains(n)),
        t.head is Lam ==> (safety::is_safe(t, known) <==> has_bodies(t) && match below_lambdas(
            t,
        ).head {
            Th::Ref(_) => true,
            Th::Var(x) => binds_at_top(t, x),
            _ => safety::is_safe(below_lambdas(t), known),
        }),
        t.head is Var ==> !safety::is_safe(t, known),
        t.head is Link ==> !safety::is_safe(t, known),
        t.head is Let ==> !safety::is_safe(t, known),
        t.head is With ==> !safety::is_safe(t, known),
        t.head is Ask ==> !safety::is_safe(t, known),
        t.head is Use ==> !safety::is_safe(t, known),
        t.head is Nat ==> !safety::is_safe(t, known),
        t.head is Str ==> !safety::is_safe(t, known),
        t.head is List ==> !safety::is_safe(t, known),
        t.head is Mat ==> !safety::is_safe(t, known),
        t.head is Fold ==> !safety::is_safe(t, known),
        t.head is Bend ==> !safety::is_safe(t, known),
        t.head is Open ==> !safety::is_safe(t, known),
        t.head is Def ==> !safety::is_safe(t, known),
{
    if t.head is Lam {
        lemma_safe_body(t, Seq::empty(), known);
        if t.kids.len() == 1 {
            assert(Seq::empty() + term::pat_binds(t.head->Lam_1) =~= term::pat_binds(
                t.head->Lam_1,
            ));
        }
    }
}

/// A safe term holds only safe terms outside the bodies of its lambdas, so
/// neither a variable nor a reference to a name that is not known to be safe. So
/// a term that holds one there is not safe.
pub proof fn law_safe_parts(t: Tm, known: Set<Str>, place: Seq<int>)
    requires
        safety::is_safe(t, known),
        is_place(t, place),
        is_active_place(t, place),
    ensures
        safety::is_safe(part(t, place), known),
        !(part(t, place).head is Var),
        forall|n: Str| part(t, place).head == Th::Ref(n) ==> known.contains(n),
    decreases place.len(),
{
    if place.len() > 0 {
        law_safe_parts(t.kids[place[0]], known, place.drop_first());
    }
}

/// A term is safe where every other term that it holds outside the bodies of
/// its lambdas is, as long as it is made of tuples, superpositions,
/// applications, operations and switches down to them.
pub proof fn law_safe_from_parts(t: Tm, known: Set<Str>)
    requires
        forall|place: Seq<int>|
            is_place(t, place) && is_active_place(t, place) ==> {
                let u = #[trigger] part(t, place);
                ||| u.head is Fan || u.head is App || u.head is Oper || u.head is Swt
                ||| safety::is_safe(u, known)
            },
    ensures
        safety::is_safe(t, known),
    decreases t,
{
    let top = Seq::<int>::empty();
    assert(part(t, top) == t);
    assert(is_place(t, top) && is_active_place(t, top));
    if !safety::is_safe(t, known) {
        assert forall|i: int| 0 <= i < t.kids.len() implies safety::is_safe(
            #[trigger] t.kids[i],
            known,
        ) by {
            assert forall|place: Seq<int>|
                is_place(t.kids[i], place) && is_active_place(t.kids[i], place) implies {
                let u = #[trigger] part(t.kids[i], place);
                ||| u.head is Fan || u.head is App || u.head is Oper || u.head is Swt
                ||| safety::is_safe(u, known)
            } by {
                let whole = seq![i] + place;
                assert(whole.drop_first() =~= place);
                assert(part(t, whole) == part(t.kids[i], place));
            }
            law_safe_from_parts(t.kids[i], known);
        }
    }
}

/// The names that can be referred to safely while combinators are floated: those
/// of constructors, of definitions that are safe, and of extracted combinators
/// that are.
pub proof fn law_known(
    def_safety: Map<Str, bool>,
    constructors: Set<Str>,
    combinators: Map<Str, (bool, Dm)>,
    n: Str,
)
    ensures
        ({
            let known = float_combinators::known(def_safety, constructors, combinators);
            &&& constructors.contains(n) ==> known.contains(n)
            &&& !constructors.contains(n) && def_safety.contains_key(n) ==> known.contains(n)
                == def_safety[n]
            &&& !constructors.contains(n) && !def_safety.contains_key(n)
                && combinators.contains_key(n) ==> known.contains(n) == combinators[n].0
            &&& !constructors.contains(n) && !def_safety.contains_key(n)
                && !combinators.contains_key(n) ==> !known.contains(n)
        }),
{
}

} // verus!
