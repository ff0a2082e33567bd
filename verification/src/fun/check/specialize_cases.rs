//! How an inferred type is merged with its annotation, for each kind of type.

use crate::fun::check::scheme;
use crate::fun::check::scheme::Sch;
use crate::fun::check::specialize;
use crate::fun::check::specialize::{Unfit, Unmerged};
use crate::fun::check::specialize_laws;
use crate::fun::check::unify;
use crate::fun::ty;
use crate::fun::ty::Ty;
use crate::name;
use crate::name::Str;
use vstd::prelude::*;

verus! {

/// The first pairs of types merge, each with what is known by then.
pub open spec fn is_merge_run(xs: Seq<Ty>, ys: Seq<Ty>, n: int, ss: Seq<Map<Str, Ty>>) -> bool {
    &&& 0 <= n <= xs.len()
    &&& n <= ys.len()
    &&& ss.len() == n + 1
    &&& forall|i: int|
        #![trigger xs[i]]
        0 <= i < n ==> specialize::merge(xs[i], ys[i], ss[i]) == Ok::<_, Unmerged>(ss[i + 1])
}

/// All pairs of types merge from one map to another.
pub open spec fn merges_all(
    xs: Seq<Ty>,
    ys: Seq<Ty>,
    s: Map<Str, Ty>,
    s1: Map<Str, Ty>,
) -> bool {
    exists|ss: Seq<Map<Str, Ty>>|
        #![trigger is_merge_run(xs, ys, xs.len() as int, ss)]
        is_merge_run(xs, ys, xs.len() as int, ss) && ss[0] == s && ss.last() == s1
}

/// The first pair of types that does not merge is the error.
pub open spec fn merges_not_all(xs: Seq<Ty>, ys: Seq<Ty>, s: Map<Str, Ty>, e: Unmerged) -> bool {
    exists|n: int, ss: Seq<Map<Str, Ty>>|
        {
            &&& #[trigger] is_merge_run(xs, ys, n, ss)
            &&& ss[0] == s
            &&& n < xs.len()
            &&& n < ys.len()
            &&& specialize::merge(xs[n], ys[n], ss[n]) == Err::<Map<Str, Ty>, _>(e)
        }
}

proof fn lemma_merge_run(xs: Seq<Ty>, ys: Seq<Ty>, s: Map<Str, Ty>)
    requires
        xs.len() == ys.len(),
    ensures
        match specialize::merge_all(xs, ys, s) {
            Ok(s1) => merges_all(xs, ys, s, s1),
            Err(e) => merges_not_all(xs, ys, s, e),
        },
    decreases xs.len(),
{
    if xs.len() == 0 {
        let ss = seq![s];
        assert(is_merge_run(xs, ys, xs.len() as int, ss) && ss[0] == s && ss.last() == s);
        assert(merges_all(xs, ys, s, s));
    } else {
        let (xr, yr) = (xs.drop_first(), ys.drop_first());
        match specialize::merge(xs[0], ys[0], s) {
            Ok(s1) => {
                lemma_merge_run(xr, yr, s1);
                match specialize::merge_all(xr, yr, s1) {
                    Ok(s2) => {
                        let ss = choose|ss: Seq<Map<Str, Ty>>|
                            #![trigger is_merge_run(xr, yr, xr.len() as int, ss)]
                            is_merge_run(xr, yr, xr.len() as int, ss) && ss[0] == s1 && ss.last()
                                == s2;
                        let all = seq![s] + ss;
                        lemma_merge_more(xs, ys, xr.len() as int, s, ss);
                        assert(is_merge_run(xs, ys, xs.len() as int, all) && all[0] == s
                            && all.last() == s2);
                        assert(merges_all(xs, ys, s, s2));
                    },
                    Err(e) => {
                        let (n, ss) = choose|n: int, ss: Seq<Map<Str, Ty>>|
                            {
                                &&& #[trigger] is_merge_run(xr, yr, n, ss)
                                &&& ss[0] == s1
                                &&& n < xr.len()
                                &&& n < yr.len()
                                &&& specialize::merge(xr[n], yr[n], ss[n]) == Err::<Map<Str, Ty>, _>(e)
                            };
                        let all = seq![s] + ss;
                        lemma_merge_more(xs, ys, n, s, ss);
                        assert(xs[n + 1] == xr[n] && ys[n + 1] == yr[n] && all[n + 1] == ss[n]);
                        assert(is_merge_run(xs, ys, n + 1, all) && all[0] == s);
                        assert(merges_not_all(xs, ys, s, e));
                    },
                }
            },
            Err(e) => {
                let ss = seq![s];
                assert(is_merge_run(xs, ys, 0, ss) && ss[0] == s);
                assert(merges_not_all(xs, ys, s, e));
            },
        }
    }
}

proof fn lemma_merge_more(
    xs: Seq<Ty>,
    ys: Seq<Ty>,
    n: int,
    s: Map<Str, Ty>,
    ss: Seq<Map<Str, Ty>>,
)
    requires
        xs.len() > 0,
        ys.len() > 0,
        is_merge_run(xs.drop_first(), ys.drop_first(), n, ss),
        specialize::merge(xs[0], ys[0], s) == Ok::<_, Unmerged>(ss[0]),
    ensures
        is_merge_run(xs, ys, n + 1, seq![s] + ss),
{
    let all = seq![s] + ss;
    let (xr, yr) = (xs.drop_first(), ys.drop_first());
    assert forall|i: int| #![trigger xs[i]] 0 <= i < n + 1 implies specialize::merge(
        xs[i],
        ys[i],
        all[i],
    ) == Ok::<_, Unmerged>(all[i + 1]) by {
        if i > 0 {
            assert(xr[i - 1] == xs[i] && yr[i - 1] == ys[i]);
        }
    }
}

/// How types merge, for each kind of type.
///
/// A hole in the annotation goes with everything, and nothing else goes with a
/// hole in the inferred type. `Any` on either side goes with everything else. A
/// variable of the inferred type stands for what the annotation has there, each
/// time for the same. Types with the same top and as many types below merge if
/// and only if these do, from left to right, and other types do not.
pub proof fn law_merge(inf: Ty, exp: Ty, s: Map<Str, Ty>)
    ensures
        ({
            let r = specialize::merge(inf, exp, s);
            let no_hole = !(inf.head is Hole) && !(exp.head is Hole);
            let no_any = !(inf.head is Any) && !(exp.head is Any);
            &&& exp.head is Hole ==> r == Ok::<_, Unmerged>(s)
            &&& inf.head is Hole && !(exp.head is Hole) ==> r == Err::<Map<Str, Ty>, _>(
                Unmerged::Mismatch,
            )
            &&& no_hole && exp.head is Any ==> r == Ok::<_, Unmerged>(s)
            &&& no_hole && inf.head is Any ==> r == Ok::<_, Unmerged>(s)
            &&& no_hole && no_any && inf.head is Var ==> {
                let x = inf.head->Var_0;
                &&& !s.contains_key(x) ==> r == Ok::<_, Unmerged>(s.insert(x, exp))
                &&& s.contains_key(x) && s[x] == exp ==> r == Ok::<_, Unmerged>(s)
                &&& s.contains_key(x) && s[x] != exp ==> r == Err::<Map<Str, Ty>, _>(
                    Unmerged::Both(x, s[x], exp),
                )
            }
            &&& no_hole && no_any && !(inf.head is Var) && inf.head == exp.head && inf.kids.len()
                == exp.kids.len() ==> match r {
                Ok(s1) => merges_all(inf.kids, exp.kids, s, s1),
                Err(e) => merges_not_all(inf.kids, exp.kids, s, e),
            }
            &&& no_hole && no_any && !(inf.head is Var) && (inf.head != exp.head || inf.kids.len()
                != exp.kids.len()) ==> r == Err::<Map<Str, Ty>, _>(Unmerged::Mismatch)
        }),
{
    if inf.head == exp.head && inf.kids.len() == exp.kids.len() {
        lemma_merge_run(inf.kids, exp.kids, s);
    }
}

/// How the holes of an annotation are filled: with what the inferred type has at
/// their places, its variables replaced. The rest of the annotation stays.
pub proof fn law_filled(inf: Ty, exp: Ty, s: Map<Str, Ty>)
    ensures
        ({
            let r = specialize::filled(inf, exp, s);
            &&& exp.head is Hole ==> r == ty::apply(inf, s)
            &&& !(exp.head is Hole) ==> r.head == exp.head && r.kids.len() == exp.kids.len()
            &&& !(exp.head is Hole) && inf.head == exp.head && inf.kids.len() == exp.kids.len()
                ==> forall|i: int|
                0 <= i < exp.kids.len() ==> #[trigger] r.kids[i] == specialize::filled(
                    inf.kids[i],
                    exp.kids[i],
                    s,
                )
            &&& !(exp.head is Hole) && (inf.head != exp.head || inf.kids.len() != exp.kids.len())
                ==> r == exp
        }),
{
}

/// An inferred type fits its annotation if and only if the two unify, with their
/// variables renamed apart, and what comes of that merges with the annotation.
/// The holes are then filled with that type, whose variables are what they stand
/// for in the annotation, or else are renamed apart from it. Which of the two
/// steps fails tells the errors apart.
pub proof fn law_specialized(inf: Ty, ann: Ty)
    ensures
        ({
            let n = name::in_order(ty::fv(inf)).len();
            let a = scheme::instance(Sch { vars: name::in_order(ty::fv(inf)), typ: inf }, 0);
            let b = scheme::instance(Sch { vars: name::in_order(ty::fv(ann)), typ: ann }, n);
            let r = specialize::specialized(inf, ann);
            match unify::unify(Map::empty(), a, b) {
                Ok((t, _)) => match specialize::merge(t, ann, Map::empty()) {
                    Ok(m) => {
                        let s = Map::new(
                            |x: Str| m.contains_key(x) || ty::fv(ann).contains(x),
                            |x: Str|
                                if m.contains_key(x) {
                                    m[x]
                                } else {
                                    specialize::new_names(ann, inf)[x]
                                },
                        );
                        r == Ok::<_, Unfit>(specialize::filled(t, ann, s))
                    },
                    Err(e) => r == Err::<Ty, _>(Unfit::Subtype(ann, a, e)),
                },
                Err(c) => r == Err::<Ty, _>(Unfit::Expected(ann, inf, c)),
            }
        }),
{
    let n = name::in_order(ty::fv(inf)).len();
    let a = scheme::instance(Sch { vars: name::in_order(ty::fv(inf)), typ: inf }, 0);
    let b = scheme::instance(Sch { vars: name::in_order(ty::fv(ann)), typ: ann }, n);
    if let Ok((t, _)) = unify::unify(Map::empty(), a, b) {
        if let Ok(m) = specialize::merge(t, ann, Map::empty()) {
            let names = specialize::new_names(ann, inf);
            let s = Map::new(
                |x: Str| m.contains_key(x) || ty::fv(ann).contains(x),
                |x: Str|
                    if m.contains_key(x) {
                        m[x]
                    } else {
                        names[x]
                    },
            );
            assert forall|x: Str| names.contains_key(x) <==> ty::fv(ann).contains(x) by {
                specialize_laws::law_specialize_new_names(inf, ann, x);
            }
            assert(names.union_prefer_right(m) =~= s);
        }
    }
}

} // verus!
