//! The size of a term, its free variables and its unscoped variables.

use crate::fun::term;
use crate::fun::term::{Pat, PatHead, Pattern, Term, Th, Tm};
use crate::indexed;
use crate::name;
use crate::name::{Name, Str};
use indexmap::{IndexMap, IndexSet};
use vstd::prelude::*;

verus! {

/* Sizes */

/// The number of nodes that a pattern compiles to.
pub open spec fn pat_size(p: Pat) -> nat
    decreases p, 0nat,
{
    match p.head {
        PatHead::Fan(_, _) => (p.kids.len() - 1 + pats_size(p.kids)) as nat,
        _ => 0,
    }
}

pub open spec fn pats_size(ps: Seq<Pat>) -> nat
    decreases ps, ps.len(),
{
    if ps.len() == 0 {
        0
    } else {
        pats_size(ps.drop_last()) + pat_size(ps.last())
    }
}

/// A pattern whose size is known: a variable, or a fan of such patterns that
/// is not empty.
pub open spec fn is_sized_pattern(p: Pat) -> bool
    decreases p,
{
    match p.head {
        PatHead::Var(_) => true,
        PatHead::Chn(_) => true,
        PatHead::Fan(_, _) => p.kids.len() > 0 && forall|i: int|
            0 <= i < p.kids.len() ==> is_sized_pattern(#[trigger] p.kids[i]),
        _ => false,
    }
}

/// The number of nodes that the top of a term compiles to.
pub open spec fn base_size(t: Tm) -> nat {
    match t.head {
        Th::Let(pat) => pat_size(pat),
        Th::Fan(_, _) => (t.kids.len() - 1) as nat,
        Th::Mat(h) => h.arms.len(),
        Th::Swt(h) => (2 * (t.kids.len() - h.args - 2)) as nat,
        Th::Lam(_, _) => 1,
        Th::App(_) => 1,
        Th::Oper(_) => 1,
        _ => 0,
    }
}

/// The top of the term has a size: it is not shorthand, and a fan, a switch
/// and the pattern of a `let` are not empty.
pub open spec fn is_sized_head(t: Tm) -> bool {
    match t.head {
        Th::Let(pat) => is_sized_pattern(pat),
        Th::Fan(_, _) => t.kids.len() > 0,
        Th::Swt(h) => t.kids.len() > h.args + 1,
        Th::Mat(_) => true,
        Th::Lam(_, _) => true,
        Th::App(_) => true,
        Th::Oper(_) => true,
        Th::Var(_) => true,
        Th::Link(_) => true,
        Th::Use(_) => true,
        Th::Num(_) => true,
        Th::Ref(_) => true,
        Th::Era => true,
        _ => false,
    }
}

/// A term whose size is known.
pub open spec fn is_sized(t: Tm) -> bool
    decreases t,
{
    is_sized_head(t) && forall|i: int| 0 <= i < t.kids.len() ==> is_sized(#[trigger] t.kids[i])
}

/// The number of nodes that a term compiles to.
pub open spec fn size(t: Tm) -> nat
    decreases t, 0nat,
{
    base_size(t) + sizes(t.kids)
}

pub open spec fn sizes(ts: Seq<Tm>) -> nat
    decreases ts, ts.len(),
{
    if ts.len() == 0 {
        0
    } else {
        sizes(ts.drop_last()) + size(ts.last())
    }
}

pub proof fn lemma_sizes_kid(ts: Seq<Tm>, i: int)
    requires
        0 <= i < ts.len(),
    ensures
        size(ts[i]) <= sizes(ts),
    decreases ts.len(),
{
    if i < ts.len() - 1 {
        lemma_sizes_kid(ts.drop_last(), i);
        assert(ts.drop_last()[i] == ts[i]);
    }
}

pub proof fn lemma_sizes_take(ts: Seq<Tm>, n: int)
    requires
        0 <= n <= ts.len(),
    ensures
        sizes(ts.take(n)) <= sizes(ts),
        n < ts.len() ==> sizes(ts.take(n + 1)) == sizes(ts.take(n)) + size(ts[n]),
    decreases ts.len() - n,
{
    if n < ts.len() {
        let b = ts.take(n + 1);
        assert(b.drop_last() =~= ts.take(n));
        assert(b.last() == ts[n]);
        lemma_sizes_take(ts, n + 1);
    } else {
        assert(ts.take(n) =~= ts);
    }
}

proof fn lemma_pats_size_take(ps: Seq<Pat>, n: int)
    requires
        0 <= n <= ps.len(),
    ensures
        pats_size(ps.take(n)) <= pats_size(ps),
        n < ps.len() ==> pats_size(ps.take(n + 1)) == pats_size(ps.take(n)) + pat_size(ps[n]),
    decreases ps.len() - n,
{
    if n < ps.len() {
        let b = ps.take(n + 1);
        assert(b.drop_last() =~= ps.take(n));
        assert(b.last() == ps[n]);
        lemma_pats_size_take(ps, n + 1);
    } else {
        assert(ps.take(n) =~= ps);
    }
}

impl Pattern {
    /// The number of nodes that the pattern compiles to.
    pub fn size(&self) -> (r: usize)
        requires
            is_sized_pattern(self@),
            pat_size(self@) <= usize::MAX,
        ensures
            r == pat_size(self@),
        decreases self,
    {
        match self {
            Pattern::Fan(_, _, _) => {
                let pats = self.children();
                let ghost ps = self@.kids;
                let n: usize = pats.len();
                let mut total: usize = n - 1;
                let mut i: usize = 0;
                assert(ps.take(0) =~= Seq::empty());
                while i < n
                    invariant
                        i <= n,
                        n == pats@.len(),
                        ps == self@.kids,
                        n == ps.len(),
                        n > 0,
                        forall|j: int| 0 <= j < n ==> (#[trigger] pats@[j])@ == ps[j],
                        forall|j: int| 0 <= j < n ==> decreases_to!(self => #[trigger] pats@[j]),
                        forall|j: int| 0 <= j < n ==> is_sized_pattern(#[trigger] ps[j]),
                        n - 1 + pats_size(ps) <= usize::MAX,
                        total == n - 1 + pats_size(ps.take(i as int)),
                    decreases n - i,
                {
                    proof {
                        lemma_pats_size_take(ps, i as int);
                        lemma_pats_size_take(ps, i + 1);
                        assert(pats@[i as int]@ == ps[i as int]);
                    }
                    total = total + pats[i].size();
                    i += 1;
                }
                assert(ps.take(n as int) =~= ps);
                total
            },
            _ => 0,
        }
    }
}

impl Term {
    /// The number of nodes that the top of the term compiles to.
    pub fn base_size(&self) -> (r: usize)
        requires
            is_sized_head(self@),
            base_size(self@) <= usize::MAX,
        ensures
            r == base_size(self@),
    {
        match self {
            Term::Let { pat, .. } => pat.size(),
            Term::Fan { els, .. } => els.len() - 1,
            Term::Mat { arms, .. } => arms.len(),
            Term::Swt { arms, .. } => 2 * (arms.len() - 1),
            Term::Lam { .. } => 1,
            Term::App { .. } => 1,
            Term::Oper { .. } => 1,
            _ => 0,
        }
    }
}

/* Variables */

/// The variables of a term that it does not bind.
pub open spec fn free(t: Tm) -> Set<Str>
    decreases t,
{
    Set::new(
        |x: Str|
            t.head == Th::Var(x) || exists|i: int|
                0 <= i < t.kids.len() && free(#[trigger] t.kids[i]).contains(x)
                    && !term::kid_binds(t, i).contains(Some(x)),
    )
}

/// The unscoped variables that a pattern declares.
pub open spec fn pat_declared(p: Pat) -> Set<Str>
    decreases p,
{
    Set::new(
        |x: Str|
            p.head == PatHead::Chn(x) || exists|i: int|
                0 <= i < p.kids.len() && pat_declared(#[trigger] p.kids[i]).contains(x),
    )
}

/// The unscoped variables that a term declares.
pub open spec fn declared(t: Tm) -> Set<Str>
    decreases t,
{
    Set::new(
        |x: Str|
            {
                ||| match term::tm_pattern(t) {
                    Some(p) => pat_declared(p).contains(x),
                    None => false,
                }
                ||| exists|i: int|
                    0 <= i < t.kids.len() && declared(#[trigger] t.kids[i]).contains(x)
            },
    )
}

/// The unscoped variables that a term uses.
pub open spec fn used(t: Tm) -> Set<Str>
    decreases t,
{
    Set::new(
        |x: Str|
            t.head == Th::Link(x) || exists|i: int|
                0 <= i < t.kids.len() && used(#[trigger] t.kids[i]).contains(x),
    )
}

/// The term declares an unscoped variable that it does not use, or the other
/// way round.
pub open spec fn unscoped_differ(t: Tm) -> bool {
    declared(t) != used(t)
}

/// A term without free variables and unmatched unscoped variables that is not
/// a reference.
pub open spec fn is_combinator(t: Tm) -> bool {
    free(t) == Set::<Str>::empty() && !unscoped_differ(t) && !(t.head is Ref)
}

/// What is known of a term.
pub struct TermFacts {
    pub size: usize,
    pub free_vars: IndexMap<String, u64>,
    pub unscoped_declared: IndexSet<String>,
    pub unscoped_used: IndexSet<String>,
}

/// The set holds these items.
pub open spec fn holds(s: IndexSet<String>, xs: Set<Str>) -> bool {
    forall|x: Str| #[trigger] indexed::items(s).contains(x) <==> xs.contains(x)
}

/// The map has an entry for each of these names, which is one.
pub open spec fn counts_once(m: IndexMap<String, u64>, xs: Set<Str>) -> bool {
    &&& indexed::counts(m).dom() == xs
    &&& forall|x: Str| #[trigger] indexed::counts(m).contains_key(x) ==> indexed::counts(m)[x] == 1
}

impl TermFacts {
    /// These are the facts of the term.
    pub open spec fn are_of(self, t: Tm) -> bool {
        &&& self.size == size(t)
        &&& counts_once(self.free_vars, free(t))
        &&& holds(self.unscoped_declared, declared(t))
        &&& holds(self.unscoped_used, used(t))
    }

    /// Whether the term of these facts is a combinator.
    pub fn is_combinator(&self, term: &Term) -> (r: bool)
        requires
            self.are_of(term@),
        ensures
            r == is_combinator(term@),
    {
        let is_ref = match term {
            Term::Ref { .. } => true,
            _ => false,
        };
        let no_free = indexed::counts_is_empty(&self.free_vars);
        let has_diff = differ(&self.unscoped_declared, &self.unscoped_used);
        proof {
            if indexed::counts(self.free_vars).dom() == Set::<Str>::empty() {
                assert(indexed::counts(self.free_vars) =~= indexed::no_counts());
            }
            if no_free {
                assert(indexed::no_counts().dom() =~= Set::<Str>::empty());
            }
            lemma_differ(self.unscoped_declared, self.unscoped_used, term@);
        }
        no_free && !has_diff && !is_ref
    }
}

proof fn lemma_differ(a: IndexSet<String>, b: IndexSet<String>, t: Tm)
    requires
        holds(a, declared(t)),
        holds(b, used(t)),
    ensures
        unscoped_differ(t) <==> exists|x: Str| #[trigger]
            indexed::items(a).contains(x) != indexed::items(b).contains(x),
{
    if forall|x: Str| #[trigger] indexed::items(a).contains(x) == indexed::items(b).contains(x) {
        assert(declared(t) =~= used(t)) by {
            assert forall|x: Str| declared(t).contains(x) <==> used(t).contains(x) by {
                assert(indexed::items(a).contains(x) == indexed::items(b).contains(x));
            }
        }
    }
}

/// Whether two sets hold different items.
fn differ(a: &IndexSet<String>, b: &IndexSet<String>) -> (r: bool)
    ensures
        r <==> exists|x: Str| #[trigger]
            indexed::items(*a).contains(x) != indexed::items(*b).contains(x),
{
    let ab = indexed::set_first_missing(a, b);
    let ba = indexed::set_first_missing(b, a);
    proof {
        if let Some(x) = ab {
            assert(indexed::items(*a).contains(x@) && !indexed::items(*b).contains(x@));
        }
        if let Some(x) = ba {
            assert(indexed::items(*b).contains(x@) && !indexed::items(*a).contains(x@));
        }
    }
    ab.is_some() || ba.is_some()
}

/// Adds the unscoped variables that a pattern declares.
fn declare_pattern(pat: &Pattern, names: &mut IndexSet<String>)
    ensures
        forall|x: Str| #[trigger]
            indexed::items(*final(names)).contains(x) <==> indexed::items(*old(names)).contains(x)
                || pat_declared(pat@).contains(x),
    decreases pat,
{
    let ghost p = pat@;
    if let Pattern::Chn(nam) = pat {
        let ghost before = indexed::items(*names);
        indexed::set_insert(names, nam.0.clone());
        proof {
            lemma_pushed(before, nam@);
        }
    }
    let ghost mid = indexed::items(*names);
    let kids = pat.children();
    let n: usize = kids.len();
    let mut i: usize = 0;
    while i < n
        invariant
            i <= n,
            n == kids@.len(),
            p == pat@,
            n == p.kids.len(),
            forall|j: int| 0 <= j < n ==> (#[trigger] kids@[j])@ == p.kids[j],
            forall|j: int| 0 <= j < n ==> decreases_to!(pat => #[trigger] kids@[j]),
            forall|x: Str| #[trigger]
                indexed::items(*names).contains(x) <==> mid.contains(x) || exists|j: int|
                    0 <= j < i && pat_declared(#[trigger] p.kids[j]).contains(x),
        decreases n - i,
    {
        let ghost before = indexed::items(*names);
        assert(kids@[i as int]@ == p.kids[i as int]);
        declare_pattern(kids[i], names);
        proof {
            assert forall|x: Str| #[trigger] indexed::items(*names).contains(x) <==> mid.contains(x)
                || exists|j: int| 0 <= j < i + 1 && pat_declared(#[trigger] p.kids[j]).contains(x) by {
                if before.contains(x) && !mid.contains(x) {
                    let j = choose|j: int| 0 <= j < i && pat_declared(#[trigger] p.kids[j]).contains(x);
                    assert(pat_declared(p.kids[j]).contains(x));
                }
                if pat_declared(p.kids[i as int]).contains(x) {
                    assert(pat_declared(p.kids[i as int]).contains(x));
                }
            }
        }
        i += 1;
    }
}

/// What is in a list with one more item.
proof fn lemma_pushed(s: Seq<Str>, y: Str)
    ensures
        forall|x: Str| #[trigger] s.push(y).contains(x) <==> s.contains(x) || x == y,
{
    assert forall|x: Str| #[trigger] s.push(y).contains(x) <==> s.contains(x) || x == y by {
        if s.contains(x) {
            let i = choose|i: int| 0 <= i < s.len() && s[i] == x;
            assert(s.push(y)[i] == x);
        }
        assert(s.push(y)[s.len() as int] == y);
    }
}

/// Removes the names that are there.
fn remove_binds(m: &mut IndexMap<String, u64>, binds: &Vec<Option<Name>>)
    ensures
        forall|x: Str| #[trigger]
            indexed::counts(*final(m)).contains_key(x) <==> indexed::counts(*old(m)).contains_key(x)
                && !term::opt_names(binds@).contains(Some(x)),
        forall|x: Str| #[trigger]
            indexed::counts(*final(m)).contains_key(x) ==> indexed::counts(*final(m))[x] == indexed::counts(
                *old(m),
            )[x],
{
    let ghost xs = term::opt_names(binds@);
    let n: usize = binds.len();
    let mut i: usize = 0;
    while i < n
        invariant
            i <= n,
            n == binds@.len(),
            xs == term::opt_names(binds@),
            forall|x: Str| #[trigger]
                indexed::counts(*m).contains_key(x) <==> indexed::counts(*old(m)).contains_key(x)
                    && !xs.take(i as int).contains(Some(x)),
            forall|x: Str| #[trigger]
                indexed::counts(*m).contains_key(x) ==> indexed::counts(*m)[x] == indexed::counts(
                    *old(m),
                )[x],
        decreases n - i,
    {
        let ghost before = indexed::counts(*m);
        if let Some(nam) = &binds[i] {
            indexed::counts_shift_remove(m, &nam.0);
        }
        proof {
            let (a, b) = (xs.take(i as int), xs.take(i + 1));
            assert(xs[i as int] == name::opt_name(binds@[i as int]));
            assert forall|x: Str| #[trigger] indexed::counts(*m).contains_key(x) <==> indexed::counts(
                *old(m),
            ).contains_key(x) && !b.contains(Some(x)) by {
                if a.contains(Some(x)) {
                    let j = choose|j: int| 0 <= j < a.len() && a[j] == Some(x);
                    assert(b[j] == Some(x));
                }
                if b.contains(Some(x)) && xs[i as int] != Some(x) {
                    let j = choose|j: int| 0 <= j < b.len() && b[j] == Some(x);
                    assert(a[j] == Some(x));
                }
                assert(b[i as int] == xs[i as int]);
                assert(before.contains_key(x) || !before.contains_key(x));
            }
        }
        i += 1;
    }
    assert(xs.take(n as int) =~= xs);
}

/// The variable is free in the top of a term or in one of the first terms below.
spec fn free_upto(t: Tm, n: int, x: Str) -> bool {
    t.head == Th::Var(x) || exists|i: int|
        0 <= i < n && free(#[trigger] t.kids[i]).contains(x) && !term::kid_binds(t, i).contains(Some(x))
}

spec fn declared_upto(t: Tm, n: int, x: Str) -> bool {
    ||| match term::tm_pattern(t) {
        Some(p) => pat_declared(p).contains(x),
        None => false,
    }
    ||| exists|i: int| 0 <= i < n && declared(#[trigger] t.kids[i]).contains(x)
}

spec fn used_upto(t: Tm, n: int, x: Str) -> bool {
    t.head == Th::Link(x) || exists|i: int| 0 <= i < n && used(#[trigger] t.kids[i]).contains(x)
}

proof fn lemma_free_upto(t: Tm, n: int, x: Str)
    requires
        0 <= n,
    ensures
        free_upto(t, n + 1, x) <==> free_upto(t, n, x) || free(t.kids[n]).contains(x) && !term::kid_binds(
            t,
            n,
        ).contains(Some(x)),
{
    if free_upto(t, n, x) && t.head != Th::Var(x) {
        let i = choose|i: int|
            0 <= i < n && free(#[trigger] t.kids[i]).contains(x) && !term::kid_binds(t, i).contains(Some(x));
        assert(0 <= i < n + 1 && free(t.kids[i]).contains(x));
    }
    if free(t.kids[n]).contains(x) && !term::kid_binds(t, n).contains(Some(x)) {
        assert(0 <= n < n + 1 && free(t.kids[n]).contains(x));
    }
}

proof fn lemma_declared_upto(t: Tm, n: int, x: Str)
    requires
        0 <= n,
    ensures
        declared_upto(t, n + 1, x) <==> declared_upto(t, n, x) || declared(t.kids[n]).contains(x),
{
    if exists|i: int| 0 <= i < n && declared(#[trigger] t.kids[i]).contains(x) {
        let i = choose|i: int| 0 <= i < n && declared(#[trigger] t.kids[i]).contains(x);
        assert(0 <= i < n + 1 && declared(t.kids[i]).contains(x));
    }
    if declared(t.kids[n]).contains(x) {
        assert(0 <= n < n + 1 && declared(t.kids[n]).contains(x));
    }
}

proof fn lemma_used_upto(t: Tm, n: int, x: Str)
    requires
        0 <= n,
    ensures
        used_upto(t, n + 1, x) <==> used_upto(t, n, x) || used(t.kids[n]).contains(x),
{
    if exists|i: int| 0 <= i < n && used(#[trigger] t.kids[i]).contains(x) {
        let i = choose|i: int| 0 <= i < n && used(#[trigger] t.kids[i]).contains(x);
        assert(0 <= i < n + 1 && used(t.kids[i]).contains(x));
    }
    if used(t.kids[n]).contains(x) {
        assert(0 <= n < n + 1 && used(t.kids[n]).contains(x));
    }
}

/// What is known of the top of a term and the first terms below.
spec fn facts_upto(f: TermFacts, t: Tm, n: int) -> bool {
    &&& f.size == base_size(t) + sizes(t.kids.take(n))
    &&& forall|x: Str| #[trigger] indexed::counts(f.free_vars).contains_key(x) <==> free_upto(t, n, x)
    &&& forall|x: Str| #[trigger]
        indexed::counts(f.free_vars).contains_key(x) ==> indexed::counts(f.free_vars)[x] == 1
    &&& forall|x: Str| #[trigger]
        indexed::items(f.unscoped_declared).contains(x) <==> declared_upto(t, n, x)
    &&& forall|x: Str| #[trigger] indexed::items(f.unscoped_used).contains(x) <==> used_upto(t, n, x)
}

impl Term {
    /// The facts of the top of the term.
    fn top_facts(&self) -> (r: TermFacts)
        requires
            is_sized_head(self@),
            base_size(self@) <= usize::MAX,
        ensures
            facts_upto(r, self@, 0),
    {
        let ghost t = self@;
        let mut facts = TermFacts {
            size: self.base_size(),
            free_vars: indexed::counts_new(),
            unscoped_declared: indexed::set_new(),
            unscoped_used: indexed::set_new(),
        };
        if let Term::Var { nam } = self {
            let count = indexed::counts_entry(&mut facts.free_vars, nam.0.clone());
            *count = *count + 1;
        }
        if let Term::Link { nam } = self {
            indexed::set_insert(&mut facts.unscoped_used, nam.0.clone());
            proof {
                lemma_pushed(Seq::empty(), nam@);
            }
        }
        if let Some(pat) = self.pattern() {
            declare_pattern(pat, &mut facts.unscoped_declared);
        }
        assert(t.kids.take(0) =~= Seq::empty());
        facts
    }

    /// The size, the free variables and the unscoped variables of the term.
    pub fn float_facts(&self) -> (r: TermFacts)
        requires
            is_sized(self@),
            size(self@) <= usize::MAX,
        ensures
            r.are_of(self@),
        decreases self,
    {
        let ghost t = self@;
        let mut facts = self.top_facts();
        let kids = self.children();
        let n: usize = kids.len();
        let mut i: usize = 0;
        while i < n
            invariant
                i <= n,
                n == kids@.len(),
                t == self@,
                n == t.kids.len(),
                is_sized(t),
                size(t) <= usize::MAX,
                forall|j: int| 0 <= j < n ==> (#[trigger] kids@[j])@ == t.kids[j],
                forall|j: int| 0 <= j < n ==> decreases_to!(self => #[trigger] kids@[j]),
                facts_upto(facts, t, i as int),
            decreases n - i,
        {
            proof {
                lemma_sizes_kid(t.kids, i as int);
                lemma_sizes_take(t.kids, i as int);
                lemma_sizes_take(t.kids, i + 1);
                assert(kids@[i as int]@ == t.kids[i as int]);
            }
            let binds = self.child_binds(i);
            let mut child_facts = kids[i].float_facts();
            let ghost before = facts;
            let ghost child = child_facts;
            facts.size = facts.size + child_facts.size;
            remove_binds(&mut child_facts.free_vars, &binds);
            let ghost kept = child_facts.free_vars;
            indexed::counts_extend(&mut facts.free_vars, child_facts.free_vars);
            indexed::set_extend(&mut facts.unscoped_declared, child_facts.unscoped_declared);
            indexed::set_extend(&mut facts.unscoped_used, child_facts.unscoped_used);
            proof {
                lemma_facts_step(before, child, kept, facts, t, i as int);
            }
            i += 1;
        }
        proof {
            assert(t.kids.take(n as int) =~= t.kids);
            assert(indexed::counts(facts.free_vars).dom() =~= free(t)) by {
                assert forall|x: Str| indexed::counts(facts.free_vars).dom().contains(x) <==> free(t).contains(x) by {
                    assert(indexed::counts(facts.free_vars).contains_key(x) <==> free_upto(t, n as int, x));
                }
            }
        }
        facts
    }
}

proof fn lemma_facts_step(
    before: TermFacts,
    child: TermFacts,
    kept: IndexMap<String, u64>,
    facts: TermFacts,
    t: Tm,
    i: int,
)
    requires
        0 <= i < t.kids.len(),
        facts_upto(before, t, i),
        child.are_of(t.kids[i]),
        facts.size == before.size + child.size,
        forall|x: Str| #[trigger]
            indexed::counts(kept).contains_key(x) <==> indexed::counts(child.free_vars).contains_key(x)
                && !term::kid_binds(t, i).contains(Some(x)),
        forall|x: Str| #[trigger]
            indexed::counts(kept).contains_key(x) ==> indexed::counts(kept)[x] == indexed::counts(
                child.free_vars,
            )[x],
        indexed::counts(facts.free_vars) == indexed::counts(before.free_vars).union_prefer_right(
            indexed::counts(kept),
        ),
        indexed::items(facts.unscoped_declared) == indexed::items(before.unscoped_declared)
            + indexed::items(child.unscoped_declared).filter(
            |x: Str| !indexed::items(before.unscoped_declared).contains(x),
        ),
        indexed::items(facts.unscoped_used) == indexed::items(before.unscoped_used) + indexed::items(
            child.unscoped_used,
        ).filter(|x: Str| !indexed::items(before.unscoped_used).contains(x)),
    ensures
        facts_upto(facts, t, i + 1),
{
    lemma_sizes_take(t.kids, i);
    assert forall|x: Str| #[trigger] indexed::counts(facts.free_vars).contains_key(x) <==> free_upto(
        t,
        i + 1,
        x,
    ) by {
        lemma_free_upto(t, i, x);
        assert(indexed::counts(before.free_vars).contains_key(x) <==> free_upto(t, i, x));
        assert(indexed::counts(child.free_vars).dom().contains(x) <==> free(t.kids[i]).contains(x));
        assert(indexed::counts(kept).contains_key(x) || !indexed::counts(kept).contains_key(x));
    }
    assert forall|x: Str| #[trigger] indexed::counts(facts.free_vars).contains_key(x) implies indexed::counts(
        facts.free_vars,
    )[x] == 1 by {
        assert(indexed::counts(before.free_vars).contains_key(x) || indexed::counts(kept).contains_key(x));
        if indexed::counts(kept).contains_key(x) {
            assert(indexed::counts(child.free_vars).contains_key(x));
        }
    }
    assert forall|x: Str| #[trigger] indexed::items(facts.unscoped_declared).contains(x) <==> declared_upto(
        t,
        i + 1,
        x,
    ) by {
        indexed::lemma_extended(
            indexed::items(before.unscoped_declared),
            indexed::items(child.unscoped_declared),
            x,
        );
        lemma_declared_upto(t, i, x);
        assert(indexed::items(before.unscoped_declared).contains(x) <==> declared_upto(t, i, x));
    }
    assert forall|x: Str| #[trigger] indexed::items(facts.unscoped_used).contains(x) <==> used_upto(
        t,
        i + 1,
        x,
    ) by {
        indexed::lemma_extended(
            indexed::items(before.unscoped_used),
            indexed::items(child.unscoped_used),
            x,
        );
        lemma_used_upto(t, i, x);
        assert(indexed::items(before.unscoped_used).contains(x) <==> used_upto(t, i, x));
    }
}

/// Adds the unscoped variables that a term declares and uses.
fn collect_unscoped(term: &Term, decls: &mut IndexSet<String>, uses: &mut IndexSet<String>)
    ensures
        forall|x: Str| #[trigger]
            indexed::items(*final(decls)).contains(x) <==> indexed::items(*old(decls)).contains(x)
                || declared(term@).contains(x),
        forall|x: Str| #[trigger]
            indexed::items(*final(uses)).contains(x) <==> indexed::items(*old(uses)).contains(x)
                || used(term@).contains(x),
    decreases term,
{
    let ghost t = term@;
    let ghost (d0, u0) = (indexed::items(*decls), indexed::items(*uses));
    if let Term::Link { nam } = term {
        indexed::set_insert(uses, nam.0.clone());
        proof {
            lemma_pushed(u0, nam@);
        }
    }
    if let Some(pat) = term.pattern() {
        declare_pattern(pat, decls);
    }
    let kids = term.children();
    let n: usize = kids.len();
    let mut i: usize = 0;
    while i < n
        invariant
            i <= n,
            n == kids@.len(),
            t == term@,
            n == t.kids.len(),
            forall|j: int| 0 <= j < n ==> (#[trigger] kids@[j])@ == t.kids[j],
            forall|j: int| 0 <= j < n ==> decreases_to!(term => #[trigger] kids@[j]),
            forall|x: Str| #[trigger]
                indexed::items(*decls).contains(x) <==> d0.contains(x) || declared_upto(t, i as int, x),
            forall|x: Str| #[trigger]
                indexed::items(*uses).contains(x) <==> u0.contains(x) || used_upto(t, i as int, x),
        decreases n - i,
    {
        let ghost (d1, u1) = (indexed::items(*decls), indexed::items(*uses));
        assert(kids@[i as int]@ == t.kids[i as int]);
        collect_unscoped(kids[i], decls, uses);
        proof {
            assert forall|x: Str| #[trigger] indexed::items(*decls).contains(x) <==> d0.contains(x)
                || declared_upto(t, i + 1, x) by {
                lemma_declared_upto(t, i as int, x);
                assert(d1.contains(x) <==> d0.contains(x) || declared_upto(t, i as int, x));
            }
            assert forall|x: Str| #[trigger] indexed::items(*uses).contains(x) <==> u0.contains(x)
                || used_upto(t, i + 1, x) by {
                lemma_used_upto(t, i as int, x);
                assert(u1.contains(x) <==> u0.contains(x) || used_upto(t, i as int, x));
            }
        }
        i += 1;
    }
}

impl Term {
    /// The unscoped variables that the term declares and those that it uses.
    pub fn unscoped_vars(&self) -> (r: (IndexSet<String>, IndexSet<String>))
        ensures
            holds(r.0, declared(self@)),
            holds(r.1, used(self@)),
    {
        let mut decls = indexed::set_new();
        let mut uses = indexed::set_new();
        collect_unscoped(self, &mut decls, &mut uses);
        (decls, uses)
    }

    /// Whether the term declares an unscoped variable that it does not use, or
    /// the other way round.
    pub fn has_unscoped_diff(&self) -> (r: bool)
        ensures
            r == unscoped_differ(self@),
    {
        let (decls, uses) = self.unscoped_vars();
        proof {
            lemma_differ(decls, uses, self@);
        }
        differ(&decls, &uses)
    }
}

} // verus!
