//! What is known of a term, by the places in it.

use crate::fun::book::Bk;
use crate::fun::term;
use crate::fun::term::{MatHead, Pat, PatHead, Th, Tm};
use crate::fun::transform::facts;
use crate::fun::transform::safe_laws;
use crate::fun::transform::safety;
use crate::name::Str;
use crate::name_graph;
use vstd::prelude::*;

verus! {

/* Patterns */

/// There is such a place in the pattern: each number picks a pattern below.
pub open spec fn is_pat_place(p: Pat, place: Seq<int>) -> bool
    decreases place.len(),
{
    place.len() > 0 ==> {
        &&& 0 <= place[0] < p.kids.len()
        &&& is_pat_place(p.kids[place[0]], place.drop_first())
    }
}

/// What stands at a place of a pattern.
pub open spec fn pat_part(p: Pat, place: Seq<int>) -> Pat
    decreases place.len(),
{
    if place.len() == 0 {
        p
    } else {
        pat_part(p.kids[place[0]], place.drop_first())
    }
}

/// A pattern declares the unscoped variables that stand somewhere in it, and no
/// others.
pub proof fn law_pattern_declares(p: Pat, x: Str)
    ensures
        facts::pat_declared(p).contains(x) <==> exists|place: Seq<int>|
            is_pat_place(p, place) && #[trigger] pat_part(p, place).head == PatHead::Chn(x),
    decreases p,
{
    if facts::pat_declared(p).contains(x) {
        if p.head == PatHead::Chn(x) {
            let top = Seq::<int>::empty();
            assert(pat_part(p, top) == p && is_pat_place(p, top));
        } else {
            let i = choose|i: int|
                0 <= i < p.kids.len() && facts::pat_declared(#[trigger] p.kids[i]).contains(x);
            law_pattern_declares(p.kids[i], x);
            let place = choose|place: Seq<int>|
                is_pat_place(p.kids[i], place) && #[trigger] pat_part(p.kids[i], place).head
                    == PatHead::Chn(x);
            let whole = seq![i] + place;
            assert(whole.drop_first() =~= place);
            assert(is_pat_place(p, whole) && pat_part(p, whole).head == PatHead::Chn(x));
        }
    }
    if exists|place: Seq<int>|
        is_pat_place(p, place) && #[trigger] pat_part(p, place).head == PatHead::Chn(x) {
        let place = choose|place: Seq<int>|
            is_pat_place(p, place) && #[trigger] pat_part(p, place).head == PatHead::Chn(x);
        if place.len() > 0 {
            let (i, rest) = (place[0], place.drop_first());
            assert(is_pat_place(p.kids[i], rest) && pat_part(p.kids[i], rest).head == PatHead::Chn(
                x,
            ));
            law_pattern_declares(p.kids[i], x);
            assert(facts::pat_declared(p.kids[i]).contains(x));
        }
    }
}

/// A pattern binds the variables that stand somewhere in it, and no others.
pub proof fn law_pattern_binds(p: Pat, x: Option<Str>)
    requires
        is_plain_pattern(p),
    ensures
        term::pat_binds(p).contains(x) <==> exists|place: Seq<int>|
            is_pat_place(p, place) && #[trigger] pat_part(p, place).head == PatHead::Var(x),
    decreases p,
{
    lemma_pats_bind(p.kids, x);
    if term::pat_binds(p).contains(x) {
        if let PatHead::Var(y) = p.head {
            let top = Seq::<int>::empty();
            assert(pat_part(p, top) == p && is_pat_place(p, top));
        } else {
            let i = choose|i: int|
                0 <= i < p.kids.len() && term::pat_binds(#[trigger] p.kids[i]).contains(x);
            law_pattern_binds(p.kids[i], x);
            let place = choose|place: Seq<int>|
                is_pat_place(p.kids[i], place) && #[trigger] pat_part(p.kids[i], place).head
                    == PatHead::Var(x);
            let whole = seq![i] + place;
            assert(whole.drop_first() =~= place);
            assert(is_pat_place(p, whole) && pat_part(p, whole).head == PatHead::Var(x));
        }
    }
    if exists|place: Seq<int>|
        is_pat_place(p, place) && #[trigger] pat_part(p, place).head == PatHead::Var(x) {
        let place = choose|place: Seq<int>|
            is_pat_place(p, place) && #[trigger] pat_part(p, place).head == PatHead::Var(x);
        if place.len() > 0 {
            let (i, rest) = (place[0], place.drop_first());
            assert(is_pat_place(p.kids[i], rest) && pat_part(p.kids[i], rest).head == PatHead::Var(
                x,
            ));
            law_pattern_binds(p.kids[i], x);
            assert(term::pat_binds(p.kids[i]).contains(x));
        } else {
            assert(term::pat_binds(p)[0] == x);
        }
    }
}

/// Nothing stands below the variables of the pattern.
pub open spec fn is_plain_pattern(p: Pat) -> bool
    decreases p,
{
    &&& p.head is Var ==> p.kids.len() == 0
    &&& forall|i: int| 0 <= i < p.kids.len() ==> is_plain_pattern(#[trigger] p.kids[i])
}

proof fn lemma_pats_bind(ps: Seq<Pat>, x: Option<Str>)
    ensures
        term::pats_binds(ps).contains(x) <==> exists|i: int|
            0 <= i < ps.len() && term::pat_binds(#[trigger] ps[i]).contains(x),
    decreases ps.len(),
{
    if ps.len() > 0 {
        let (a, b) = (term::pat_binds(ps[0]), term::pats_binds(ps.drop_first()));
        lemma_pats_bind(ps.drop_first(), x);
        if (a + b).contains(x) {
            let k = choose|k: int| 0 <= k < (a + b).len() && (a + b)[k] == x;
            if k < a.len() {
                assert(a[k] == x);
                assert(term::pat_binds(ps[0]).contains(x));
            } else {
                assert(b[k - a.len()] == x);
                let i = choose|i: int|
                    0 <= i < ps.drop_first().len() && term::pat_binds(
                        #[trigger] ps.drop_first()[i],
                    ).contains(x);
                assert(ps[i + 1] == ps.drop_first()[i]);
            }
        }
        if exists|i: int| 0 <= i < ps.len() && term::pat_binds(#[trigger] ps[i]).contains(x) {
            let i = choose|i: int| 0 <= i < ps.len() && term::pat_binds(#[trigger] ps[i]).contains(x);
            if i == 0 {
                let k = choose|k: int| 0 <= k < a.len() && a[k] == x;
                assert((a + b)[k] == x);
            } else {
                assert(ps.drop_first()[i - 1] == ps[i]);
                let k = choose|k: int| 0 <= k < b.len() && b[k] == x;
                assert((a + b)[a.len() + k] == x);
            }
        }
    }
}

/* Variables and references */

/// What each kind of term binds in the terms below it.
///
/// A lambda binds the variables of its pattern in its body; a `let` and an `ask`
/// bind those of theirs in what follows, and not in the value; a `use` binds its
/// name in what follows. The arms of a match and of a fold bind their own
/// variables, and the last arm of a switch binds the predecessor; all of them bind
/// the name of the argument and the names that are passed on. The other terms
/// bind nothing.
pub proof fn law_kid_binds(t: Tm, i: int, x: Option<Str>)
    requires
        0 <= i < t.kids.len(),
    ensures
        ({
            let b = term::kid_binds(t, i).contains(x);
            &&& t.head matches Th::Lam(_, p) ==> b == term::pat_binds(p).contains(x)
            &&& t.head matches Th::Let(p) ==> b == (i == 1 && term::pat_binds(p).contains(x))
            &&& t.head matches Th::Ask(p) ==> b == (i == 1 && term::pat_binds(p).contains(x))
            &&& t.head matches Th::Use(y) ==> b == (i == 1 && x == y)
            &&& t.head matches Th::Mat(h) ==> b == (i > h.args && (x == h.bnd
                    || h.arms[i - 1 - h.args].1.contains(x) || h.with_bnd.contains(x)))
            &&& t.head matches Th::Fold(h) ==> b == (i > h.args && (x == h.bnd
                    || h.arms[i - 1 - h.args].1.contains(x) || h.with_bnd.contains(x)))
            &&& t.head matches Th::Swt(h) ==> b == (i > h.args && (x == h.bnd
                    || h.with_bnd.contains(x) || (i == t.kids.len() - 1 && x == h.pred)))
            &&& t.head matches Th::Bend(xs) ==> b == (i >= t.kids.len() - 3 && xs.contains(x))
            &&& t.head is App || t.head is Fan || t.head is Oper || t.head is List || t.head is With
                || t.head is Open || t.head is Def || t.head is Var || t.head is Link || t.head is Num
                || t.head is Nat || t.head is Str || t.head is Ref || t.head is Era
                || t.head is ErrTerm ==> !b
        }),
{
    match t.head {
        Th::Mat(h) => {
            lemma_mat_binds(h, i, x);
        },
        Th::Fold(h) => {
            lemma_mat_binds(h, i, x);
        },
        Th::Swt(h) => {
            let one = seq![h.bnd];
            let two = seq![h.bnd, h.pred];
            lemma_contains_add(one, h.with_bnd, x);
            lemma_contains_add(two, h.with_bnd, x);
            lemma_contains_one(h.bnd, x);
            lemma_contains_two(h.bnd, h.pred, x);
        },
        Th::Use(y) => {
            lemma_contains_one(y, x);
        },
        _ => {},
    }
}

proof fn lemma_mat_binds(h: MatHead, i: int, x: Option<Str>)
    ensures
        term::mat_binds(h, i).contains(x) == (i > h.args && (x == h.bnd
            || h.arms[i - 1 - h.args].1.contains(x) || h.with_bnd.contains(x))),
{
    let own = h.arms[i - 1 - h.args].1;
    lemma_contains_add(seq![h.bnd], own, x);
    lemma_contains_add(seq![h.bnd] + own, h.with_bnd, x);
    lemma_contains_one(h.bnd, x);
}

proof fn lemma_contains_one(y: Option<Str>, x: Option<Str>)
    ensures
        seq![y].contains(x) <==> x == y,
{
    if x == y {
        assert(seq![y][0] == x);
    }
}

proof fn lemma_contains_two(y: Option<Str>, z: Option<Str>, x: Option<Str>)
    ensures
        seq![y, z].contains(x) <==> x == y || x == z,
{
    if x == y {
        assert(seq![y, z][0] == x);
    }
    if x == z {
        assert(seq![y, z][1] == x);
    }
}

proof fn lemma_contains_add(a: Seq<Option<Str>>, b: Seq<Option<Str>>, x: Option<Str>)
    ensures
        (a + b).contains(x) <==> a.contains(x) || b.contains(x),
{
    if a.contains(x) {
        let i = choose|i: int| 0 <= i < a.len() && a[i] == x;
        assert((a + b)[i] == x);
    }
    if b.contains(x) {
        let i = choose|i: int| 0 <= i < b.len() && b[i] == x;
        assert((a + b)[a.len() + i] == x);
    }
}

/// One of the terms on the way to a place binds the variable there.
pub open spec fn is_bound_on_way(t: Tm, place: Seq<int>, x: Str) -> bool
    decreases place.len(),
{
    place.len() > 0 && {
        ||| term::kid_binds(t, place[0]).contains(Some(x))
        ||| is_bound_on_way(t.kids[place[0]], place.drop_first(), x)
    }
}

/// The variable stands at the place, and nothing on the way to it binds it.
pub open spec fn is_free_at(t: Tm, place: Seq<int>, x: Str) -> bool {
    &&& safe_laws::is_place(t, place)
    &&& safe_laws::part(t, place).head == Th::Var(x)
    &&& !is_bound_on_way(t, place, x)
}

/// The free variables of a term are those that stand somewhere in it without
/// being bound on the way there.
pub proof fn law_free(t: Tm, x: Str)
    ensures
        facts::free(t).contains(x) <==> exists|place: Seq<int>| #[trigger] is_free_at(t, place, x),
    decreases t,
{
    if facts::free(t).contains(x) {
        if t.head == Th::Var(x) {
            let top = Seq::<int>::empty();
            assert(is_free_at(t, top, x));
        } else {
            let i = choose|i: int|
                0 <= i < t.kids.len() && facts::free(#[trigger] t.kids[i]).contains(x)
                    && !term::kid_binds(t, i).contains(Some(x));
            law_free(t.kids[i], x);
            let place = choose|place: Seq<int>| #[trigger] is_free_at(t.kids[i], place, x);
            let whole = seq![i] + place;
            assert(whole.drop_first() =~= place);
            assert(is_free_at(t, whole, x));
        }
    }
    if exists|place: Seq<int>| #[trigger] is_free_at(t, place, x) {
        let place = choose|place: Seq<int>| #[trigger] is_free_at(t, place, x);
        if place.len() > 0 {
            let (i, rest) = (place[0], place.drop_first());
            assert(is_free_at(t.kids[i], rest, x));
            law_free(t.kids[i], x);
            assert(facts::free(t.kids[i]).contains(x));
        }
    }
}

/// The pattern of a lambda, a `let` or an `ask` at the place declares the
/// unscoped variable.
pub open spec fn is_declared_at(t: Tm, place: Seq<int>, x: Str) -> bool {
    &&& safe_laws::is_place(t, place)
    &&& match safe_laws::part(t, place).head {
        Th::Lam(_, p) => facts::pat_declared(p).contains(x),
        Th::Let(p) => facts::pat_declared(p).contains(x),
        Th::Ask(p) => facts::pat_declared(p).contains(x),
        _ => false,
    }
}

/// A term declares the unscoped variables of the patterns that stand somewhere
/// in it.
pub proof fn law_declared(t: Tm, x: Str)
    ensures
        facts::declared(t).contains(x) <==> exists|place: Seq<int>| #[trigger]
            is_declared_at(t, place, x),
    decreases t,
{
    let top = Seq::<int>::empty();
    assert(safe_laws::part(t, top) == t && safe_laws::is_place(t, top));
    if facts::declared(t).contains(x) {
        if term::tm_pattern(t) is Some && facts::pat_declared(term::tm_pattern(t)->0).contains(x) {
            assert(is_declared_at(t, top, x));
        } else {
            let i = choose|i: int|
                0 <= i < t.kids.len() && facts::declared(#[trigger] t.kids[i]).contains(x);
            law_declared(t.kids[i], x);
            let place = choose|place: Seq<int>| #[trigger] is_declared_at(t.kids[i], place, x);
            let whole = seq![i] + place;
            assert(whole.drop_first() =~= place);
            assert(is_declared_at(t, whole, x));
        }
    }
    if exists|place: Seq<int>| #[trigger] is_declared_at(t, place, x) {
        let place = choose|place: Seq<int>| #[trigger] is_declared_at(t, place, x);
        if place.len() > 0 {
            let (i, rest) = (place[0], place.drop_first());
            assert(is_declared_at(t.kids[i], rest, x));
            law_declared(t.kids[i], x);
            assert(facts::declared(t.kids[i]).contains(x));
        }
    }
}

/// The head stands at the place.
pub open spec fn stands_at(t: Tm, place: Seq<int>, h: Th) -> bool {
    safe_laws::is_place(t, place) && safe_laws::part(t, place).head == h
}

/// A term uses the unscoped variables that stand somewhere in it.
pub proof fn law_used(t: Tm, x: Str)
    ensures
        facts::used(t).contains(x) <==> exists|place: Seq<int>| #[trigger]
            stands_at(t, place, Th::Link(x)),
    decreases t,
{
    if facts::used(t).contains(x) {
        if t.head == Th::Link(x) {
            assert(stands_at(t, Seq::empty(), Th::Link(x)));
        } else {
            let i = choose|i: int|
                0 <= i < t.kids.len() && facts::used(#[trigger] t.kids[i]).contains(x);
            law_used(t.kids[i], x);
            let place = choose|place: Seq<int>| #[trigger] stands_at(t.kids[i], place, Th::Link(x));
            lemma_stands_below(t, i, place, Th::Link(x));
        }
    }
    if exists|place: Seq<int>| #[trigger] stands_at(t, place, Th::Link(x)) {
        let place = choose|place: Seq<int>| #[trigger] stands_at(t, place, Th::Link(x));
        if place.len() > 0 {
            let (i, rest) = (place[0], place.drop_first());
            assert(stands_at(t.kids[i], rest, Th::Link(x)));
            law_used(t.kids[i], x);
            assert(facts::used(t.kids[i]).contains(x));
        }
    }
}

proof fn lemma_stands_below(t: Tm, i: int, place: Seq<int>, h: Th)
    requires
        0 <= i < t.kids.len(),
        stands_at(t.kids[i], place, h),
    ensures
        stands_at(t, seq![i] + place, h),
{
    assert((seq![i] + place).drop_first() =~= place);
}

/// A term refers to the names whose references stand somewhere in it.
pub proof fn law_refs(t: Tm, x: Str)
    ensures
        term::all_refs(t).contains(x) <==> exists|place: Seq<int>| #[trigger]
            stands_at(t, place, Th::Ref(x)),
    decreases t,
{
    if term::all_refs(t).contains(x) {
        if t.head == Th::Ref(x) {
            assert(stands_at(t, Seq::empty(), Th::Ref(x)));
        } else {
            let i = choose|i: int|
                0 <= i < t.kids.len() && term::all_refs(#[trigger] t.kids[i]).contains(x);
            law_refs(t.kids[i], x);
            let place = choose|place: Seq<int>| #[trigger] stands_at(t.kids[i], place, Th::Ref(x));
            lemma_stands_below(t, i, place, Th::Ref(x));
        }
    }
    if exists|place: Seq<int>| #[trigger] stands_at(t, place, Th::Ref(x)) {
        let place = choose|place: Seq<int>| #[trigger] stands_at(t, place, Th::Ref(x));
        if place.len() > 0 {
            let (i, rest) = (place[0], place.drop_first());
            assert(stands_at(t.kids[i], rest, Th::Ref(x)));
            law_refs(t.kids[i], x);
            assert(term::all_refs(t.kids[i]).contains(x));
        }
    }
}

/// A combinator holds no variable that is not bound on the way there, declares
/// the unscoped variables that it uses and no others, and is not a reference.
pub proof fn law_combinator(t: Tm)
    ensures
        facts::is_combinator(t) <==> {
            &&& forall|place: Seq<int>, x: Str| !#[trigger] is_free_at(t, place, x)
            &&& forall|x: Str| #[trigger]
                facts::declared(t).contains(x) <==> facts::used(t).contains(x)
            &&& !(t.head is Ref)
        },
{
    if facts::is_combinator(t) {
        assert forall|place: Seq<int>, x: Str| !#[trigger] is_free_at(t, place, x) by {
            law_free(t, x);
        }
    }
    if forall|place: Seq<int>, x: Str| !#[trigger] is_free_at(t, place, x) {
        assert forall|x: Str| !facts::free(t).contains(x) by {
            law_free(t, x);
        }
        assert(facts::free(t) =~= Set::empty());
    }
    if forall|x: Str| #[trigger] facts::declared(t).contains(x) <==> facts::used(t).contains(x) {
        assert(facts::declared(t) =~= facts::used(t));
    }
}

/* Sizes */

/// The size of a term is what its top counts and the sizes of the terms below.
///
/// A lambda, an application and an operation count one, a fan one less than it
/// has elements, a match as many as it has arms, a switch two for each arm but
/// the last, and a `let` the size of its pattern. All other terms count nothing.
pub proof fn law_size(t: Tm)
    requires
        facts::is_sized_head(t),
    ensures
        t.head is Lam || t.head is App || t.head is Oper ==> facts::size(t) == 1 + facts::sizes(
            t.kids,
        ),
        t.head is Fan ==> facts::size(t) == t.kids.len() - 1 + facts::sizes(t.kids),
        t.head matches Th::Mat(h) ==> facts::size(t) == h.arms.len() + facts::sizes(t.kids),
        t.head matches Th::Swt(h) ==> facts::size(t) == 2 * (t.kids.len() - h.args - 2)
                + facts::sizes(t.kids),
        t.head matches Th::Let(p) ==> facts::size(t) == facts::pat_size(p) + facts::sizes(
                t.kids,
            ),
        t.head is Var || t.head is Link || t.head is Use || t.head is Num || t.head is Ref
            || t.head is Era ==> facts::size(t) == facts::sizes(t.kids),
{
}

/// The sizes of terms add up.
pub proof fn law_sizes(ts: Seq<Tm>, t: Tm)
    ensures
        facts::sizes(Seq::empty()) == 0,
        facts::sizes(ts.push(t)) == facts::sizes(ts) + facts::size(t),
{
    assert(ts.push(t).drop_last() =~= ts);
    assert(ts.push(t).last() == t);
}

/// A variable counts nothing in a pattern, and a fan one less than it has
/// patterns below, and the sizes of these.
pub proof fn law_pattern_size(p: Pat, ps: Seq<Pat>, q: Pat)
    requires
        facts::is_sized_pattern(p),
    ensures
        p.head is Var || p.head is Chn ==> facts::pat_size(p) == 0,
        p.head is Fan ==> facts::pat_size(p) == p.kids.len() - 1 + facts::pats_size(p.kids),
        facts::pats_size(Seq::empty()) == 0,
        facts::pats_size(ps.push(q)) == facts::pats_size(ps) + facts::pat_size(q),
{
    assert(ps.push(q).drop_last() =~= ps);
    assert(ps.push(q).last() == q);
}

/* Recursion */

/// The body of each definition refers somewhere to the next name, which is not
/// that of a constructor.
pub open spec fn is_ref_walk(bk: Bk, p: Seq<Str>) -> bool {
    forall|i: int|
        0 <= i < p.len() - 1 ==> {
            &&& bk.defs.contains_key(#[trigger] p[i])
            &&& !bk.ctrs.contains_key(p[i + 1])
            &&& exists|place: Seq<int>| #[trigger]
                stands_at(term::body_of(bk.defs[p[i]]), place, Th::Ref(p[i + 1]))
        }
}

proof fn lemma_ref_walk(bk: Bk, p: Seq<Str>)
    ensures
        is_ref_walk(bk, p) <==> name_graph::is_chain(safety::refs_of(bk), p),
{
    let d = safety::refs_of(bk);
    assert forall|i: int| 0 <= i < p.len() - 1 implies (name_graph::dep(d, #[trigger] p[i], p[i + 1])
        <==> {
        &&& bk.defs.contains_key(p[i])
        &&& !bk.ctrs.contains_key(p[i + 1])
        &&& exists|place: Seq<int>| #[trigger]
            stands_at(term::body_of(bk.defs[p[i]]), place, Th::Ref(p[i + 1]))
    }) by {
        law_refs(term::body_of(bk.defs[p[i]]), p[i + 1]);
    }
}

/// A definition is recursive if and only if a walk from reference to reference,
/// from any place of a body, leads from its name back to it.
pub proof fn law_recursive(bk: Bk, n: Str)
    ensures
        safety::is_recursive(bk, n) <==> exists|p: Seq<Str>| #[trigger]
            is_ref_walk(bk, p) && p.len() > 1 && p[0] == n && p.last() == n,
{
    let d = safety::refs_of(bk);
    if safety::is_recursive(bk, n) {
        let y = choose|y: Str| #[trigger] name_graph::dep(d, n, y) && name_graph::needs(d, y, n);
        let q = choose|q: Seq<Str>| #[trigger]
            name_graph::is_chain(d, q) && q.len() > 0 && q[0] == y && q.last() == n;
        let p = seq![n] + q;
        assert forall|i: int| 0 <= i < p.len() - 1 implies name_graph::dep(
            d,
            #[trigger] p[i],
            p[i + 1],
        ) by {
            if i > 0 {
                assert(p[i] == q[i - 1] && p[i + 1] == q[i]);
            }
        }
        lemma_ref_walk(bk, p);
        assert(is_ref_walk(bk, p) && p.len() > 1 && p[0] == n && p.last() == n);
    }
    if exists|p: Seq<Str>| #[trigger]
        is_ref_walk(bk, p) && p.len() > 1 && p[0] == n && p.last() == n {
        let p = choose|p: Seq<Str>| #[trigger]
            is_ref_walk(bk, p) && p.len() > 1 && p[0] == n && p.last() == n;
        lemma_ref_walk(bk, p);
        let q = p.drop_first();
        assert(name_graph::dep(d, p[0], p[1]));
        assert forall|i: int| 0 <= i < q.len() - 1 implies name_graph::dep(
            d,
            #[trigger] q[i],
            q[i + 1],
        ) by {
            assert(q[i] == p[i + 1] && q[i + 1] == p[i + 2]);
        }
        assert(name_graph::is_chain(d, q) && q[0] == p[1] && q.last() == n);
        assert(name_graph::needs(d, p[1], n));
    }
}

} // verus!
