//! Which terms can be expanded where they stand without the risk of an endless
//! expansion.

use crate::fun::book::{Bk, Book};
use crate::fun::term;
use crate::fun::term::{Term, Th, Tm};
use crate::name;
use crate::name::{Name, Str};
use crate::name_graph;
use crate::name_graph::Deps;
use crate::name_map::{NameMap, NameSet};
use vstd::prelude::*;

verus! {

/// What is known of the safety of a definition while the definitions are
/// visited.
#[derive(Clone, Copy, PartialEq, Eq, Structural)]
pub enum SafetyState {
    Visiting,
    Safe,
    Unsafe,
}

impl View for SafetyState {
    type V = SafetyState;

    open spec fn view(&self) -> SafetyState {
        *self
    }
}

pub type Memo = Map<Str, SafetyState>;

/* Safe terms */

/// A term that is safe if all the terms below are.
pub open spec fn is_safe_former(h: Th) -> bool {
    match h {
        Th::Num(_) => true,
        Th::Era => true,
        Th::ErrTerm => true,
        Th::Fan(_, _) => true,
        Th::App(_) => true,
        Th::Oper(_) => true,
        Th::Swt(_) => true,
        _ => false,
    }
}

/// The term is safe, where the names of `known` are those that can be referred
/// to safely.
pub open spec fn is_safe(t: Tm, known: Set<Str>) -> bool
    decreases t, 0nat,
{
    match t.head {
        Th::Lam(_, p) => t.kids.len() == 1 && is_safe_body(t.kids[0], term::pat_binds(p), known),
        Th::Ref(n) => known.contains(n),
        h => is_safe_former(h) && forall|i: int|
            0 <= i < t.kids.len() ==> is_safe(#[trigger] t.kids[i], known),
    }
}

/// The body of a lambda is safe: one of the variables that are bound around
/// it, a reference, or a safe term.
pub open spec fn is_safe_body(t: Tm, scope: Seq<Option<Str>>, known: Set<Str>) -> bool
    decreases t, 1nat,
{
    match t.head {
        Th::Lam(_, p) => t.kids.len() == 1 && is_safe_body(
            t.kids[0],
            scope + term::pat_binds(p),
            known,
        ),
        Th::Var(x) => scope.contains(Some(x)),
        Th::Ref(_) => true,
        _ => is_safe(t, known),
    }
}

/// Whether an optional name is in a list.
pub(crate) fn has_bind(scope: &Vec<Option<Name>>, x: &Name) -> (r: bool)
    ensures
        r == term::opt_names(scope@).contains(Some(x@)),
{
    let ghost s = term::opt_names(scope@);
    let n: usize = scope.len();
    let mut i: usize = 0;
    while i < n
        invariant
            i <= n,
            n == scope@.len(),
            s == term::opt_names(scope@),
            forall|j: int| 0 <= j < i ==> #[trigger] s[j] != Some(x@),
        decreases n - i,
    {
        assert(s[i as int] == name::opt_name(scope@[i as int]));
        if let Some(y) = &scope[i] {
            if y.same(x) {
                return true;
            }
        }
        i += 1;
    }
    false
}

/* Recursive definitions */

/// What a term refers to that is not a constructor.
pub open spec fn refs_in(t: Tm, ctrs: Set<Str>) -> Set<Str> {
    term::all_refs(t).difference(ctrs)
}

/// What each definition refers to that is not a constructor.
pub open spec fn refs_of(bk: Bk) -> Deps {
    Map::new(
        |n: Str| bk.defs.contains_key(n),
        |n: Str| refs_in(term::body_of(bk.defs[n]), bk.ctrs.dom()),
    )
}

/// The definition refers to itself, directly or through others.
pub open spec fn is_recursive(bk: Bk, n: Str) -> bool {
    name_graph::is_recursive(refs_of(bk), n)
}

/// The memo before any definition is visited: a recursive definition is not
/// safe, however it refers to itself.
pub open spec fn first_memo(bk: Bk) -> Memo {
    Map::new(|n: Str| is_recursive(bk, n), |n: Str| SafetyState::Unsafe)
}

/// Adds what a term refers to that is not a constructor.
fn collect_refs(term: &Term, ctrs: &NameMap<Name>, refs: &mut NameSet)
    ensures
        final(refs)@ == old(refs)@.union(refs_in(term@, ctrs@.dom())),
    decreases term,
{
    let ghost t = term@;
    let ghost cs = ctrs@.dom();
    if let Term::Ref { nam } = term {
        if !ctrs.contains_key(nam) {
            refs.insert(nam.clone());
        }
    }
    let ghost mid = refs@;
    let kids = term.children();
    let n: usize = kids.len();
    let mut i: usize = 0;
    while i < n
        invariant
            i <= n,
            n == kids@.len(),
            t == term@,
            cs == ctrs@.dom(),
            n == t.kids.len(),
            forall|j: int| 0 <= j < n ==> (#[trigger] kids@[j])@ == t.kids[j],
            forall|j: int| 0 <= j < n ==> decreases_to!(term => #[trigger] kids@[j]),
            forall|x: Str| #[trigger]
                refs@.contains(x) <==> mid.contains(x) || exists|j: int|
                    0 <= j < i && refs_in(#[trigger] t.kids[j], cs).contains(x),
        decreases n - i,
    {
        let ghost before = refs@;
        assert(kids@[i as int]@ == t.kids[i as int]);
        collect_refs(kids[i], ctrs, refs);
        proof {
            assert forall|x: Str| #[trigger] refs@.contains(x) <==> mid.contains(x) || exists|j: int|
                0 <= j < i + 1 && refs_in(#[trigger] t.kids[j], cs).contains(x) by {
                if before.contains(x) && !mid.contains(x) {
                    let j = choose|j: int| 0 <= j < i && refs_in(#[trigger] t.kids[j], cs).contains(x);
                    assert(refs_in(t.kids[j], cs).contains(x));
                }
                if refs_in(t.kids[i as int], cs).contains(x) {
                    assert(refs_in(t.kids[i as int], cs).contains(x));
                }
            }
        }
        i += 1;
    }
    proof {
        assert forall|x: Str| refs@.contains(x) <==> old(refs)@.union(refs_in(t, cs)).contains(x) by {
            if refs@.contains(x) && !mid.contains(x) {
                let j = choose|j: int| 0 <= j < n && refs_in(#[trigger] t.kids[j], cs).contains(x);
                assert(term::all_refs(t).contains(x));
            }
            if refs_in(t, cs).contains(x) && t.head != Th::Ref(x) {
                let j = choose|j: int|
                    0 <= j < t.kids.len() && term::all_refs(#[trigger] t.kids[j]).contains(x);
                assert(refs_in(t.kids[j], cs).contains(x));
            }
        }
        assert(refs@ =~= old(refs)@.union(refs_in(t, cs)));
    }
}

/// What each definition refers to that is not a constructor.
fn collect_all_refs(book: &Book) -> (r: NameMap<NameSet>)
    requires
        has_bodies(book@),
    ensures
        r@ == refs_of(book@),
{
    let ghost bk = book@;
    let mut r: NameMap<NameSet> = NameMap::new();
    let n: usize = book.defs.len();
    let ghost names = book.defs.names();
    let mut i: usize = 0;
    while i < n
        invariant
            i <= n,
            bk == book@,
            names == book.defs.names(),
            n == names.len(),
            names.to_set() == bk.defs.dom(),
            has_bodies(bk),
            forall|x: Str| #[trigger] r@.contains_key(x) <==> names.take(i as int).contains(x),
            forall|x: Str| #[trigger] r@.contains_key(x) ==> r@[x] == refs_of(bk)[x],
        decreases n - i,
    {
        let nam = book.defs.name_at(i);
        let def = book.defs.value_at(i);
        let mut refs = NameSet::new();
        proof {
            assert(names.to_set().contains(names[i as int]));
            assert(bk.defs.contains_key(nam@));
        }
        collect_refs(&def.rule().body, &book.ctrs, &mut refs);
        assert(refs@ =~= refs_of(bk)[nam@]);
        let ghost before = r@;
        r.insert(nam.clone(), refs);
        proof {
            let (a, b) = (names.take(i as int), names.take(i + 1));
            assert forall|x: Str| #[trigger] r@.contains_key(x) <==> b.contains(x) by {
                assert(before.contains_key(x) <==> a.contains(x));
                assert(b[i as int] == nam@);
                if a.contains(x) {
                    let j = choose|j: int| 0 <= j < a.len() && a[j] == x;
                    assert(b[j] == x);
                }
                if b.contains(x) && x != nam@ {
                    let j = choose|j: int| 0 <= j < b.len() && b[j] == x;
                    assert(a[j] == x);
                }
            }
        }
        i += 1;
    }
    proof {
        assert(names.take(n as int) =~= names);
        assert forall|x: Str| #[trigger] r@.contains_key(x) <==> bk.defs.contains_key(x) by {
            assert(names.to_set().contains(x) <==> bk.defs.dom().contains(x));
        }
        assert(r@ =~= refs_of(bk));
    }
    r
}

/// Whether a group of definitions that refer to each other is recursive.
fn is_recursive_group(refs: &NameMap<NameSet>, group: &Vec<Name>) -> (r: bool)
    requires
        group@.len() > 0,
    ensures
        r <==> group@.len() > 1 || name_graph::dep(refs@, group@[0]@, group@[0]@),
{
    if group.len() > 1 {
        return true;
    }
    match refs.get(&group[0]) {
        Some(rs) => rs.contains(&group[0]),
        None => false,
    }
}

/// Marks the definitions of a group as unsafe.
fn mark_unsafe(memo: &mut NameMap<SafetyState>, group: &Vec<Name>)
    ensures
        forall|x: Str| #[trigger]
            final(memo)@.contains_key(x) <==> old(memo)@.contains_key(x) || name::texts(
                group@,
            ).contains(x),
        forall|x: Str| #[trigger]
            final(memo)@.contains_key(x) ==> final(memo)@[x] == if name::texts(group@).contains(x) {
                SafetyState::Unsafe
            } else {
                old(memo)@[x]
            },
{
    let ghost g = name::texts(group@);
    let n: usize = group.len();
    let mut i: usize = 0;
    assert(g.take(0) =~= Seq::empty());
    while i < n
        invariant
            i <= n,
            n == group@.len(),
            g == name::texts(group@),
            forall|x: Str| #[trigger]
                memo@.contains_key(x) <==> old(memo)@.contains_key(x) || g.take(i as int).contains(x),
            forall|x: Str| #[trigger]
                memo@.contains_key(x) ==> memo@[x] == if g.take(i as int).contains(x) {
                    SafetyState::Unsafe
                } else {
                    old(memo)@[x]
                },
        decreases n - i,
    {
        let ghost before = memo@;
        memo.insert(group[i].clone(), SafetyState::Unsafe);
        proof {
            let (a, b) = (g.take(i as int), g.take(i + 1));
            assert(b =~= a.push(group@[i as int]@));
            assert forall|x: Str| b.contains(x) <==> a.contains(x) || x == group@[i as int]@ by {
                if a.contains(x) {
                    let j = choose|j: int| 0 <= j < a.len() && a[j] == x;
                    assert(b[j] == x);
                }
                assert(b[i as int] == group@[i as int]@);
            }
            assert forall|x: Str| #[trigger] memo@.contains_key(x) <==> old(memo)@.contains_key(x)
                || b.contains(x) by {
                assert(before.contains_key(x) <==> old(memo)@.contains_key(x) || a.contains(x));
            }
        }
        i += 1;
    }
    assert(g.take(n as int) =~= g);
}

/// The memo before any definition is visited.
fn mark_recursive(book: &Book) -> (r: NameMap<SafetyState>)
    requires
        has_bodies(book@),
    ensures
        r@ == first_memo(book@),
{
    let refs = collect_all_refs(book);
    let groups = name_graph::groups(&refs);
    let ghost (d, gs) = (refs@, name_graph::lists(groups@));
    let mut memo: NameMap<SafetyState> = NameMap::new();
    let n: usize = groups.len();
    let mut i: usize = 0;
    while i < n
        invariant
            i <= n,
            n == groups@.len(),
            d == refs@,
            gs == name_graph::lists(groups@),
            gs.len() == n,
            name_graph::is_groups(d, gs),
            forall|x: Str| #[trigger]
                memo@.contains_key(x) <==> name_graph::is_recursive(d, x) && in_groups(gs, i as int, x),
            forall|x: Str| #[trigger] memo@.contains_key(x) ==> memo@[x] == SafetyState::Unsafe,
        decreases n - i,
    {
        let ghost before = memo@;
        let ghost g = gs[i as int];
        proof {
            assert(g == name::texts(groups@[i as int]@));
            assert(g.contains(g[0]));
            assert forall|x: Str| g.contains(x) implies (name_graph::is_recursive(d, x) <==> g.len() > 1
                || name_graph::dep(d, g[0], g[0])) by {
                name_graph::lemma_recursive_group(d, gs, i as int, x);
                if g.len() == 1 {
                    assert(x == g[0]);
                }
            }
        }
        let recursive = is_recursive_group(&refs, &groups[i]);
        if recursive {
            mark_unsafe(&mut memo, &groups[i]);
        }
        proof {
            assert forall|x: Str| #[trigger] memo@.contains_key(x) <==> name_graph::is_recursive(d, x)
                && in_groups(gs, i + 1, x) by {
                assert(before.contains_key(x) <==> name_graph::is_recursive(d, x) && in_groups(
                    gs,
                    i as int,
                    x,
                ));
                if in_groups(gs, i as int, x) {
                    let k = choose|k: int| 0 <= k < i && #[trigger] gs[k].contains(x);
                    assert(gs[k].contains(x));
                }
                if in_groups(gs, i + 1, x) && !in_groups(gs, i as int, x) {
                    let k = choose|k: int| 0 <= k < i + 1 && #[trigger] gs[k].contains(x);
                    assert(k == i);
                }
                if g.contains(x) {
                    assert(gs[i as int].contains(x));
                }
            }
        }
        i += 1;
    }
    proof {
        assert forall|x: Str| #[trigger] memo@.contains_key(x) <==> is_recursive(book@, x) by {
            if name_graph::is_recursive(d, x) {
                let y = choose|y: Str| #[trigger] name_graph::dep(d, x, y) && name_graph::needs(d, y, x);
                assert(name_graph::nodes(d).contains(x));
                let k = choose|k: int| 0 <= k < gs.len() && #[trigger] gs[k].contains(x);
                assert(gs[k].contains(x));
            }
        }
        assert(memo@ =~= first_memo(book@));
    }
    memo
}

/// The name is in one of the first groups.
spec fn in_groups(gs: Seq<Seq<Str>>, n: int, x: Str) -> bool {
    exists|k: int| 0 <= k < n && #[trigger] gs[k].contains(x)
}

/* Safe definitions */

/// Visits a definition: its safety and the memo afterwards.
///
/// A definition that is being visited counts as unsafe. The fuel bounds the
/// depth of the visit.
pub open spec fn visit_def(bk: Bk, fuel: nat, memo: Memo, n: Str) -> (Memo, bool)
    decreases fuel, 0nat, n, 0nat,
{
    if memo.contains_key(n) {
        (memo, memo[n] == SafetyState::Safe)
    } else {
        let m = memo.insert(n, SafetyState::Visiting);
        let r = if bk.defs.contains_key(n) && fuel > 0 {
            visit_term(bk, (fuel - 1) as nat, m, term::body_of(bk.defs[n]))
        } else {
            (m, false)
        };
        (
            r.0.insert(
                n,
                if r.1 {
                    SafetyState::Safe
                } else {
                    SafetyState::Unsafe
                },
            ),
            r.1,
        )
    }
}

/// Visits the definitions that the safety of a term rests on.
pub open spec fn visit_term(bk: Bk, fuel: nat, memo: Memo, t: Tm) -> (Memo, bool)
    decreases fuel, 1nat, t, 0nat,
{
    match t.head {
        Th::Lam(_, p) => if t.kids.len() == 1 {
            visit_body(bk, fuel, memo, t.kids[0], term::pat_binds(p))
        } else {
            (memo, false)
        },
        Th::Ref(n) => if bk.ctrs.contains_key(n) {
            (memo, true)
        } else {
            visit_def(bk, fuel, memo, n)
        },
        h => if is_safe_former(h) {
            visit_terms(bk, fuel, memo, t.kids)
        } else {
            (memo, false)
        },
    }
}

/// Visits terms up to the first that is not safe.
pub open spec fn visit_terms(bk: Bk, fuel: nat, memo: Memo, ts: Seq<Tm>) -> (Memo, bool)
    decreases fuel, 1nat, ts, ts.len(),
{
    if ts.len() == 0 {
        (memo, true)
    } else {
        let r = visit_term(bk, fuel, memo, ts[0]);
        if r.1 {
            visit_terms(bk, fuel, r.0, ts.drop_first())
        } else {
            r
        }
    }
}

/// Visits the body of a lambda.
pub open spec fn visit_body(
    bk: Bk,
    fuel: nat,
    memo: Memo,
    t: Tm,
    scope: Seq<Option<Str>>,
) -> (Memo, bool)
    decreases fuel, 1nat, t, 1nat,
{
    match t.head {
        Th::Lam(_, p) => if t.kids.len() == 1 {
            visit_body(bk, fuel, memo, t.kids[0], scope + term::pat_binds(p))
        } else {
            (memo, false)
        },
        Th::Var(x) => (memo, scope.contains(Some(x))),
        Th::Ref(_) => (memo, true),
        _ => visit_term(bk, fuel, memo, t),
    }
}

/// Visits definitions one after the other.
pub open spec fn visit_defs(bk: Bk, fuel: nat, memo: Memo, names: Seq<Str>) -> Memo
    decreases names.len(),
{
    if names.len() == 0 {
        memo
    } else {
        visit_def(bk, fuel, visit_defs(bk, fuel, memo, names.drop_last()), names.last()).0
    }
}

/// The number of definitions that are not in the memo.
pub open spec fn unvisited(bk: Bk, memo: Memo) -> nat {
    bk.defs.dom().difference(memo.dom()).len()
}

/// Every definition has one rule, which matches nothing.
pub open spec fn has_bodies(bk: Bk) -> bool {
    forall|n: Str| #[trigger] bk.defs.contains_key(n) ==> term::has_one_rule(bk.defs[n])
}

pub proof fn lemma_unvisited_less(bk: Bk, memo: Memo, more: Memo)
    requires
        bk.defs.dom().finite(),
        memo.dom().subset_of(more.dom()),
    ensures
        unvisited(bk, more) <= unvisited(bk, memo),
{
    vstd::set_lib::lemma_len_subset(
        bk.defs.dom().difference(more.dom()),
        bk.defs.dom().difference(memo.dom()),
    );
}

pub proof fn lemma_unvisited_insert(bk: Bk, memo: Memo, n: Str, s: SafetyState)
    requires
        bk.defs.dom().finite(),
        bk.defs.contains_key(n),
        !memo.contains_key(n),
    ensures
        unvisited(bk, memo.insert(n, s)) == unvisited(bk, memo) - 1,
{
    let a = bk.defs.dom().difference(memo.dom());
    assert(bk.defs.dom().difference(memo.insert(n, s).dom()) =~= a.remove(n));
}

/// Whether a definition is safe.
fn original_def_is_safe(
    name: &Name,
    book: &Book,
    memo: &mut NameMap<SafetyState>,
    Ghost(fuel): Ghost<nat>,
) -> (r: bool)
    requires
        has_bodies(book@),
        book@.defs.dom().finite(),
        unvisited(book@, old(memo)@) <= fuel,
    ensures
        (final(memo)@, r) == visit_def(book@, fuel, old(memo)@, name@),
        old(memo)@.dom().subset_of(final(memo)@.dom()),
    decreases fuel, 0nat, book, 0nat,
{
    if let Some(state) = memo.get(name) {
        return *state == SafetyState::Safe;
    }
    memo.insert(name.clone(), SafetyState::Visiting);
    let safe = match book.defs.get(name) {
        Some(def) => {
            proof {
                lemma_unvisited_insert(book@, old(memo)@, name@, SafetyState::Visiting);
            }
            original_term_is_safe(&def.rule().body, book, memo, Ghost((fuel - 1) as nat))
        },
        None => false,
    };
    let state = if safe {
        SafetyState::Safe
    } else {
        SafetyState::Unsafe
    };
    memo.insert(name.clone(), state);
    safe
}

/// Whether a term of a definition is safe.
fn original_term_is_safe(
    term: &Term,
    book: &Book,
    memo: &mut NameMap<SafetyState>,
    Ghost(fuel): Ghost<nat>,
) -> (r: bool)
    requires
        has_bodies(book@),
        book@.defs.dom().finite(),
        unvisited(book@, old(memo)@) <= fuel,
    ensures
        (final(memo)@, r) == visit_term(book@, fuel, old(memo)@, term@),
        old(memo)@.dom().subset_of(final(memo)@.dom()),
    decreases fuel, 1nat, term, 0nat,
{
    match term {
        Term::Num { .. }
        | Term::Era
        | Term::ErrTerm
        | Term::Fan { .. }
        | Term::App { .. }
        | Term::Oper { .. }
        | Term::Swt { .. } => {
            let kids = term.children();
            let ghost (bk, ts) = (book@, term@.kids);
            let n: usize = kids.len();
            let mut i: usize = 0;
            assert(ts.skip(0) =~= ts);
            while i < n
                invariant
                    i <= n,
                    n == kids@.len(),
                    n == ts.len(),
                    bk == book@,
                    has_bodies(bk),
                    bk.defs.dom().finite(),
                    unvisited(bk, memo@) <= fuel,
                    forall|j: int| 0 <= j < n ==> (#[trigger] kids@[j])@ == ts[j],
                    forall|j: int| 0 <= j < n ==> decreases_to!(term => #[trigger] kids@[j]),
                    old(memo)@.dom().subset_of(memo@.dom()),
                    visit_term(bk, fuel, old(memo)@, term@) == visit_terms(
                        bk,
                        fuel,
                        memo@,
                        ts.skip(i as int),
                    ),
                decreases n - i,
            {
                assert(kids@[i as int]@ == ts[i as int]);
                let ghost before = memo@;
                let safe = original_term_is_safe(kids[i], book, memo, Ghost(fuel));
                proof {
                    lemma_unvisited_less(bk, before, memo@);
                    assert(ts.skip(i as int)[0] == ts[i as int]);
                    assert(ts.skip(i as int).drop_first() =~= ts.skip(i + 1));
                }
                if !safe {
                    return false;
                }
                i += 1;
            }
            true
        },
        Term::Lam { pat, bod, .. } => original_body_is_safe(
            &**bod,
            pat.binds(),
            book,
            memo,
            Ghost(fuel),
        ),
        Term::Ref { nam } => book.ctrs.contains_key(nam) || original_def_is_safe(
            nam,
            book,
            memo,
            Ghost(fuel),
        ),
        _ => false,
    }
}

/// Whether the body of a lambda of a definition is safe.
fn original_body_is_safe(
    term: &Term,
    scope: Vec<Option<Name>>,
    book: &Book,
    memo: &mut NameMap<SafetyState>,
    Ghost(fuel): Ghost<nat>,
) -> (r: bool)
    requires
        has_bodies(book@),
        book@.defs.dom().finite(),
        unvisited(book@, old(memo)@) <= fuel,
    ensures
        (final(memo)@, r) == visit_body(
            book@,
            fuel,
            old(memo)@,
            term@,
            term::opt_names(scope@),
        ),
        old(memo)@.dom().subset_of(final(memo)@.dom()),
    decreases fuel, 1nat, term, 1nat,
{
    match term {
        Term::Lam { pat, bod, .. } => {
            let mut scope2 = scope;
            let binds = pat.binds();
            term::push_opt_names(&mut scope2, &binds);
            original_body_is_safe(&**bod, scope2, book, memo, Ghost(fuel))
        },
        Term::Var { nam } => has_bind(&scope, nam),
        Term::Ref { .. } => true,
        _ => original_term_is_safe(term, book, memo, Ghost(fuel)),
    }
}

/// The safety of the definitions that a memo speaks of.
pub open spec fn verdicts(memo: Memo) -> Map<Str, bool> {
    Map::new(|n: Str| memo.contains_key(n), |n: Str| memo[n] == SafetyState::Safe)
}

/// The memo after all definitions were visited in the order of their names.
pub open spec fn full_memo(bk: Bk) -> Memo {
    visit_defs(bk, bk.defs.dom().len(), first_memo(bk), name::in_order(bk.defs.dom()))
}

/// The safety of every definition, and of what is referred to on the way and
/// is not defined.
pub open spec fn def_safety(bk: Bk) -> Map<Str, bool> {
    verdicts(full_memo(bk))
}

fn to_verdicts(memo: &NameMap<SafetyState>) -> (r: NameMap<bool>)
    ensures
        r@ == verdicts(memo@),
{
    let n: usize = memo.len();
    let mut r: NameMap<bool> = NameMap::new();
    let mut i: usize = 0;
    while i < n
        invariant
            i <= n,
            n == memo.names().len(),
            crate::name_map::names_of(memo.names(), memo@),
            forall|x: Str| #[trigger] r@.contains_key(x) <==> memo.names().take(i as int).contains(x),
            forall|x: Str| #[trigger] r@.contains_key(x) ==> r@[x] == (memo@[x] == SafetyState::Safe),
        decreases n - i,
    {
        let ghost before = r@;
        let safe = *memo.value_at(i) == SafetyState::Safe;
        r.insert(memo.name_at(i).clone(), safe);
        proof {
            let (a, b) = (memo.names().take(i as int), memo.names().take(i + 1));
            assert(b =~= a.push(memo.names()[i as int]));
            assert forall|x: Str| #[trigger] r@.contains_key(x) <==> b.contains(x) by {
                assert(before.contains_key(x) <==> a.contains(x));
                if a.contains(x) {
                    let j = choose|j: int| 0 <= j < a.len() && a[j] == x;
                    assert(b[j] == x);
                }
                assert(b[i as int] == memo.names()[i as int]);
            }
        }
        i += 1;
    }
    proof {
        assert(memo.names().take(n as int) =~= memo.names());
        assert forall|x: Str| #[trigger] r@.contains_key(x) <==> memo@.contains_key(x) by {
            assert(memo.names().to_set().contains(x) <==> memo@.dom().contains(x));
        }
        assert(r@ =~= verdicts(memo@));
    }
    r
}

/// The safety of every definition.
pub fn precompute_def_safety(book: &Book) -> (r: NameMap<bool>)
    requires
        has_bodies(book@),
    ensures
        r@ == def_safety(book@),
{
    let names = book.defs.keys();
    let ghost (bk, ns, fuel) = (book@, name::texts(names@), book@.defs.dom().len());
    // A reference to a recursive definition is not safe.
    let mut memo = mark_recursive(book);
    proof {
        vstd::seq_lib::seq_to_set_is_finite(ns);
        let none = Map::<Str, SafetyState>::empty();
        assert(bk.defs.dom().difference(none.dom()) =~= bk.defs.dom());
        lemma_unvisited_less(bk, none, memo@);
        assert(ns.take(0) =~= Seq::empty());
    }
    let n: usize = names.len();
    let mut i: usize = 0;
    while i < n
        invariant
            i <= n,
            n == names@.len(),
            bk == book@,
            ns == name::texts(names@),
            has_bodies(bk),
            bk.defs.dom().finite(),
            unvisited(bk, memo@) <= fuel,
            memo@ == visit_defs(bk, fuel, first_memo(bk), ns.take(i as int)),
        decreases n - i,
    {
        let ghost before = memo@;
        original_def_is_safe(&names[i], book, &mut memo, Ghost(fuel));
        proof {
            lemma_unvisited_less(bk, before, memo@);
            assert(ns.take(i + 1).drop_last() =~= ns.take(i as int));
            assert(ns.take(i + 1).last() == names@[i as int]@);
        }
        i += 1;
    }
    assert(ns.take(n as int) =~= ns);
    to_verdicts(&memo)
}

} // verus!
