//! The terms below a term that combinators are floated from.

use crate::fun::term;
use crate::fun::term::{MatchRule, Term, Th, Tm};
use crate::fun::transform::facts;
use vstd::prelude::*;

verus! {

/// The arguments of an application, the outermost first, and then the function.
pub open spec fn spine(t: Tm) -> Seq<Tm>
    decreases t,
{
    if t.head is App && t.kids.len() == 2 {
        seq![t.kids[1]] + spine(t.kids[0])
    } else {
        seq![t]
    }
}

/// The application of other terms of the same form.
pub open spec fn respine(t: Tm, ks: Seq<Tm>) -> Tm
    decreases t,
{
    if t.head is App && t.kids.len() == 2 {
        Tm { head: t.head, kids: seq![respine(t.kids[0], ks.drop_first()), ks[0]] }
    } else {
        ks[0]
    }
}

/// The terms below a term that combinators are floated from.
///
/// Those of a lambda are those of its body. Those of an application are the
/// arguments and the function.
pub open spec fn float_kids(t: Tm) -> Seq<Tm>
    decreases t,
{
    match t.head {
        Th::App(_) => if t.kids.len() == 2 {
            spine(t)
        } else {
            Seq::empty()
        },
        Th::Lam(_, _) => if t.kids.len() == 1 {
            float_kids(t.kids[0])
        } else {
            Seq::empty()
        },
        Th::Mat(_) => t.kids,
        Th::Swt(_) => t.kids,
        Th::Fan(_, _) => t.kids,
        Th::List => t.kids,
        Th::Let(_) => t.kids,
        Th::Use(_) => t.kids,
        Th::Oper(_) => t.kids,
        _ => Seq::empty(),
    }
}

/// The term with other terms in place of those that combinators are floated from.
pub open spec fn with_float_kids(t: Tm, ks: Seq<Tm>) -> Tm
    decreases t,
{
    match t.head {
        Th::App(_) => if t.kids.len() == 2 {
            respine(t, ks)
        } else {
            t
        },
        Th::Lam(_, _) => if t.kids.len() == 1 {
            Tm { head: t.head, kids: seq![with_float_kids(t.kids[0], ks)] }
        } else {
            t
        },
        Th::Mat(_) => Tm { head: t.head, kids: ks },
        Th::Swt(_) => Tm { head: t.head, kids: ks },
        Th::Fan(_, _) => Tm { head: t.head, kids: ks },
        Th::List => Tm { head: t.head, kids: ks },
        Th::Let(_) => Tm { head: t.head, kids: ks },
        Th::Use(_) => Tm { head: t.head, kids: ks },
        Th::Oper(_) => Tm { head: t.head, kids: ks },
        _ => t,
    }
}

/// The term, below its lambdas, is not one of those that are shorthand for
/// others and bind variables.
pub open spec fn has_float_kids(t: Tm) -> bool
    decreases t,
{
    match t.head {
        Th::Lam(_, _) => t.kids.len() == 1 && has_float_kids(t.kids[0]),
        Th::With(_) => false,
        Th::Ask(_) => false,
        Th::Bend(_) => false,
        Th::Fold(_) => false,
        Th::Open(_, _) => false,
        Th::Def(_) => false,
        _ => true,
    }
}

/* Sizes */

/// All of the terms have a size.
pub open spec fn are_sized(ts: Seq<Tm>) -> bool {
    forall|i: int| 0 <= i < ts.len() ==> facts::is_sized(#[trigger] ts[i])
}

proof fn lemma_sizes_first(ts: Seq<Tm>)
    requires
        ts.len() > 0,
    ensures
        facts::sizes(ts) == facts::size(ts[0]) + facts::sizes(ts.drop_first()),
    decreases ts.len(),
{
    if ts.len() == 1 {
        assert(ts.drop_last() =~= Seq::empty());
        assert(ts.drop_first() =~= Seq::empty());
        reveal_with_fuel(facts::sizes, 2);
    } else {
        lemma_sizes_first(ts.drop_last());
        assert(ts.drop_last().drop_first() =~= ts.drop_first().drop_last());
    }
}

proof fn lemma_sizes_two(ts: Seq<Tm>)
    requires
        ts.len() == 2,
    ensures
        facts::sizes(ts) == facts::size(ts[0]) + facts::size(ts[1]),
{
    lemma_sizes_first(ts);
    lemma_sizes_first(ts.drop_first());
    assert(ts.drop_first().drop_first() =~= Seq::empty());
}

proof fn lemma_sizes_one(ts: Seq<Tm>)
    requires
        ts.len() == 1,
    ensures
        facts::sizes(ts) == facts::size(ts[0]),
{
    lemma_sizes_first(ts);
    assert(ts.drop_first() =~= Seq::empty());
}

proof fn lemma_respine_size(t: Tm, ks: Seq<Tm>)
    requires
        ks.len() == spine(t).len(),
    ensures
        facts::size(respine(t, ks)) + facts::sizes(spine(t)) == facts::size(t) + facts::sizes(ks),
        facts::sizes(spine(t)) <= facts::size(t),
        facts::is_sized(t) ==> are_sized(spine(t)),
        facts::is_sized(t) && are_sized(ks) ==> facts::is_sized(respine(t, ks)),
    decreases t,
{
    let s = spine(t);
    if t.head is App && t.kids.len() == 2 {
        let rest = spine(t.kids[0]);
        assert(s.drop_first() =~= rest);
        lemma_sizes_first(s);
        lemma_sizes_first(ks);
        lemma_respine_size(t.kids[0], ks.drop_first());
        lemma_sizes_two(t.kids);
        lemma_sizes_two(respine(t, ks).kids);
        if facts::is_sized(t) {
            assert(facts::is_sized(t.kids[0]) && facts::is_sized(t.kids[1]));
            assert forall|i: int| 0 <= i < s.len() implies facts::is_sized(#[trigger] s[i]) by {
                if i > 0 {
                    assert(s[i] == rest[i - 1]);
                }
            }
            if are_sized(ks) {
                assert forall|i: int| 0 <= i < ks.drop_first().len() implies facts::is_sized(
                    #[trigger] ks.drop_first()[i],
                ) by {
                    assert(ks.drop_first()[i] == ks[i + 1]);
                }
                assert(facts::is_sized(ks[0]));
            }
        }
    } else {
        lemma_sizes_one(s);
        lemma_sizes_one(ks);
    }
}

/// How the size of a term follows the terms that combinators are floated from.
pub proof fn lemma_with_float_kids_size(t: Tm, ks: Seq<Tm>)
    requires
        ks.len() == float_kids(t).len(),
    ensures
        facts::size(with_float_kids(t, ks)) + facts::sizes(float_kids(t)) == facts::size(t)
            + facts::sizes(ks),
        facts::sizes(float_kids(t)) <= facts::size(t),
        facts::is_sized(t) ==> are_sized(float_kids(t)),
        facts::is_sized(t) && are_sized(ks) ==> facts::is_sized(with_float_kids(t, ks)),
        with_float_kids(t, ks).head == t.head,
        with_float_kids(t, ks).kids.len() == t.kids.len(),
    decreases t,
{
    match t.head {
        Th::App(_) => {
            if t.kids.len() == 2 {
                lemma_respine_size(t, ks);
            }
        },
        Th::Lam(_, _) => {
            if t.kids.len() == 1 {
                lemma_with_float_kids_size(t.kids[0], ks);
                lemma_sizes_one(t.kids);
                lemma_sizes_one(with_float_kids(t, ks).kids);
                if facts::is_sized(t) {
                    assert(facts::is_sized(t.kids[0]));
                }
            }
        },
        _ => {},
    }
}

/// The term of a term that has a size has the terms that combinators are
/// floated from.
pub proof fn lemma_sized_has_float_kids(t: Term)
    requires
        facts::is_sized(t@),
    ensures
        has_float_kids(t@),
    decreases t,
{
    match t {
        Term::Lam { tag, pat, bod } => {
            assert(facts::is_sized(t@.kids[0]));
            lemma_sized_has_float_kids(*bod);
        },
        _ => {},
    }
}

/* The terms themselves */

fn push_terms_mut<'a>(ts: &'a mut [Term], v: Vec<&'a mut Term>) -> (r: Vec<&'a mut Term>)
    ensures
        r@.len() == v@.len() + old(ts)@.len(),
        final(ts)@.len() == old(ts)@.len(),
        forall|j: int| 0 <= j < v@.len() ==> #[trigger] r@[j] == v@[j],
        forall|j: int| v@.len() <= j < r@.len() ==> *#[trigger] r@[j] == old(ts)@[j - v@.len()],
        forall|j: int|
            v@.len() <= j < r@.len() ==> *final(#[trigger] r@[j]) == final(ts)@[j - v@.len()],
    decreases old(ts)@.len(),
{
    if ts.len() == 0 {
        v
    } else {
        let mut w = v;
        let (a, b) = ts.split_at_mut(1);
        w.push(&mut a[0]);
        push_terms_mut(b, w)
    }
}

fn push_arms_mut<'a>(arms: &'a mut [MatchRule], v: Vec<&'a mut Term>) -> (r: Vec<&'a mut Term>)
    ensures
        r@.len() == v@.len() + old(arms)@.len(),
        final(arms)@.len() == old(arms)@.len(),
        forall|j: int| 0 <= j < v@.len() ==> #[trigger] r@[j] == v@[j],
        forall|j: int| v@.len() <= j < r@.len() ==> *#[trigger] r@[j] == old(arms)@[j - v@.len()].2,
        forall|j: int|
            v@.len() <= j < r@.len() ==> *final(#[trigger] r@[j]) == final(arms)@[j - v@.len()].2,
        forall|i: int|
            0 <= i < old(arms)@.len() ==> (#[trigger] final(arms)@[i]).0 == old(arms)@[i].0
                && final(arms)@[i].1 == old(arms)@[i].1,
        term::arm_heads(final(arms)@) == term::arm_heads(old(arms)@),
    decreases old(arms)@.len(),
{
    if arms.len() == 0 {
        v
    } else {
        let mut w = v;
        let (a, b) = arms.split_at_mut(1);
        w.push(&mut a[0].2);
        push_arms_mut(b, w)
    }
}

/// Adds the arguments of an application and the function.
fn push_spine_mut<'a>(t: &'a mut Term, v: Vec<&'a mut Term>) -> (r: Vec<&'a mut Term>)
    ensures
        r@.len() == v@.len() + spine(old(t)@).len(),
        forall|j: int| 0 <= j < v@.len() ==> #[trigger] r@[j] == v@[j],
        forall|j: int|
            v@.len() <= j < r@.len() ==> (*#[trigger] r@[j])@ == spine(old(t)@)[j - v@.len()],
        final(t)@ == respine(
            old(t)@,
            Seq::new(spine(old(t)@).len(), |i: int| (*final(r@[v@.len() + i]))@),
        ),
    decreases *old(t),
{
    let mut w = v;
    match t {
        Term::App { fun, arg, .. } => {
            let a: &'a mut Term = &mut **arg;
            w.push(a);
            let f: &'a mut Term = &mut **fun;
            let ghost (n, m) = (v@.len(), spine(f@).len());
            let r = push_spine_mut(f, w);
            proof {
                assert(Seq::new(1 + m, |i: int| (*final(r@[n + i]))@).drop_first() =~= Seq::new(
                    m,
                    |i: int| (*final(r@[n + 1 + i]))@,
                ));
            }
            r
        },
        t => {
            w.push(t);
            w
        },
    }
}

impl Term {
    /// The terms below this one that combinators are floated from.
    pub fn float_children_mut<'a>(&'a mut self) -> (r: Vec<&'a mut Term>)
        requires
            has_float_kids(old(self)@),
        ensures
            r@.len() == float_kids(old(self)@).len(),
            forall|j: int| 0 <= j < r@.len() ==> (*#[trigger] r@[j])@ == float_kids(old(self)@)[j],
            final(self)@ == with_float_kids(
                old(self)@,
                Seq::new(r@.len(), |i: int| (*final(r@[i]))@),
            ),
        decreases *old(self),
    {
        let ghost t0 = self@;
        let mut v: Vec<&'a mut Term> = Vec::new();
        match self {
            Term::Lam { bod, .. } => {
                let b: &'a mut Term = &mut **bod;
                b.float_children_mut()
            },
            Term::Let { val, nxt, .. } => {
                let a: &'a mut Term = &mut **val;
                v.push(a);
                let b: &'a mut Term = &mut **nxt;
                v.push(b);
                proof {
                    assert(seq![(*final(v@[0]))@, (*final(v@[1]))@] =~= Seq::new(
                        2,
                        |i: int| (*final(v@[i]))@,
                    ));
                }
                v
            },
            Term::Use { val, nxt, .. } => {
                let a: &'a mut Term = &mut **val;
                v.push(a);
                let b: &'a mut Term = &mut **nxt;
                v.push(b);
                proof {
                    assert(seq![(*final(v@[0]))@, (*final(v@[1]))@] =~= Seq::new(
                        2,
                        |i: int| (*final(v@[i]))@,
                    ));
                }
                v
            },
            Term::Oper { fst, snd, .. } => {
                let a: &'a mut Term = &mut **fst;
                v.push(a);
                let b: &'a mut Term = &mut **snd;
                v.push(b);
                proof {
                    assert(seq![(*final(v@[0]))@, (*final(v@[1]))@] =~= Seq::new(
                        2,
                        |i: int| (*final(v@[i]))@,
                    ));
                }
                v
            },
            t => {
                let kind: u8 = match &*t {
                    Term::App { .. } => 0,
                    Term::Fan { .. } | Term::List { .. } => 1,
                    Term::Mat { .. } => 2,
                    Term::Swt { .. } => 3,
                    _ => 4,
                };
                if kind == 0 {
                    t.float_children_app()
                } else if kind == 1 {
                    t.float_children_els()
                } else if kind == 2 {
                    t.float_children_mat()
                } else if kind == 3 {
                    t.float_children_swt()
                } else {
                    v
                }
            },
        }
    }

    fn float_children_app<'a>(&'a mut self) -> (r: Vec<&'a mut Term>)
        requires
            old(self)@.head is App,
        ensures
            r@.len() == float_kids(old(self)@).len(),
            forall|j: int| 0 <= j < r@.len() ==> (*#[trigger] r@[j])@ == float_kids(old(self)@)[j],
            final(self)@ == with_float_kids(
                old(self)@,
                Seq::new(r@.len(), |i: int| (*final(r@[i]))@),
            ),
    {
        let v: Vec<&'a mut Term> = Vec::new();
        let ghost (n, m) = (v@.len(), spine(self@).len());
        let r = push_spine_mut(self, v);
        proof {
            assert(Seq::new(m, |i: int| (*final(r@[n + i]))@) =~= Seq::new(
                r@.len(),
                |i: int| (*final(r@[i]))@,
            ));
        }
        r
    }

    fn float_children_els<'a>(&'a mut self) -> (r: Vec<&'a mut Term>)
        requires
            old(self)@.head is Fan || old(self)@.head is List,
        ensures
            r@.len() == float_kids(old(self)@).len(),
            forall|j: int| 0 <= j < r@.len() ==> (*#[trigger] r@[j])@ == float_kids(old(self)@)[j],
            final(self)@.head == old(self)@.head,
            final(self)@.kids == Seq::new(r@.len(), |i: int| (*final(r@[i]))@),
    {
        let mut v: Vec<&'a mut Term> = Vec::new();
        match self {
            Term::Fan { els, .. } => {
                let s: &'a mut [Term] = els.as_mut_slice();
                push_terms_mut(s, v)
            },
            Term::List { els } => {
                let s: &'a mut [Term] = els.as_mut_slice();
                push_terms_mut(s, v)
            },
            _ => v,
        }
    }

    fn float_children_mat<'a>(&'a mut self) -> (r: Vec<&'a mut Term>)
        requires
            old(self)@.head is Mat,
        ensures
            r@.len() == float_kids(old(self)@).len(),
            forall|j: int| 0 <= j < r@.len() ==> (*#[trigger] r@[j])@ == float_kids(old(self)@)[j],
            final(self)@.head == old(self)@.head,
            final(self)@.kids == Seq::new(r@.len(), |i: int| (*final(r@[i]))@),
    {
        let mut v: Vec<&'a mut Term> = Vec::new();
        match self {
            Term::Mat { arg, with_arg, arms, .. } => {
                let a: &'a mut Term = &mut **arg;
                v.push(a);
                let s: &'a mut [Term] = with_arg.as_mut_slice();
                let w = push_terms_mut(s, v);
                let s: &'a mut [MatchRule] = arms.as_mut_slice();
                push_arms_mut(s, w)
            },
            _ => v,
        }
    }

    fn float_children_swt<'a>(&'a mut self) -> (r: Vec<&'a mut Term>)
        requires
            old(self)@.head is Swt,
        ensures
            r@.len() == float_kids(old(self)@).len(),
            forall|j: int| 0 <= j < r@.len() ==> (*#[trigger] r@[j])@ == float_kids(old(self)@)[j],
            final(self)@.head == old(self)@.head,
            final(self)@.kids == Seq::new(r@.len(), |i: int| (*final(r@[i]))@),
    {
        let mut v: Vec<&'a mut Term> = Vec::new();
        match self {
            Term::Swt { arg, with_arg, arms, .. } => {
                let a: &'a mut Term = &mut **arg;
                v.push(a);
                let s: &'a mut [Term] = with_arg.as_mut_slice();
                let w = push_terms_mut(s, v);
                let s: &'a mut [Term] = arms.as_mut_slice();
                push_terms_mut(s, w)
            },
            _ => v,
        }
    }
}

} // verus!
