//! The extraction of combinators into definitions of their own.

use crate::fun::book::{Bk, Book};
use crate::fun::term;
use crate::fun::term::{Definition, Dm, Rm, Rule, Source, Src, Term, Th, Tm};
use crate::fun::transform::facts;
use crate::fun::transform::float_children;
use crate::fun::transform::safety;
use crate::fun::ty::{Head, Ty};
use crate::name;
use crate::name::{Name, Str};
use crate::name_map::{NameMap, NameSet};
use vstd::prelude::*;

verus! {

/// What stands between the name of a definition and the number of a
/// combinator that was extracted from it.
pub const NAME_SEP: &'static str = "__C";

/* The model */

/// The number of terms in a term.
pub open spec fn nodes(t: Tm) -> nat
    decreases t, 0nat,
{
    1 + nodes_all(t.kids)
}

pub open spec fn nodes_all(ts: Seq<Tm>) -> nat
    decreases ts, ts.len(),
{
    if ts.len() == 0 {
        0
    } else {
        nodes_all(ts.drop_last()) + nodes(ts.last())
    }
}

proof fn lemma_nodes_all_add(a: Seq<Tm>, b: Seq<Tm>)
    ensures
        nodes_all(a + b) == nodes_all(a) + nodes_all(b),
    decreases b.len(),
{
    if b.len() == 0 {
        assert(a + b =~= a);
    } else {
        assert((a + b).drop_last() =~= a + b.drop_last());
        assert((a + b).last() == b.last());
        lemma_nodes_all_add(a, b.drop_last());
    }
}

pub proof fn lemma_nodes_take(ts: Seq<Tm>, i: int)
    requires
        0 <= i < ts.len(),
    ensures
        nodes(ts[i]) <= nodes_all(ts),
{
    assert(ts =~= ts.take(i) + (seq![ts[i]] + ts.skip(i + 1)));
    lemma_nodes_all_add(ts.take(i), seq![ts[i]] + ts.skip(i + 1));
    lemma_nodes_all_add(seq![ts[i]], ts.skip(i + 1));
    lemma_nodes_one(ts[i]);
}

proof fn lemma_nodes_one(t: Tm)
    ensures
        nodes_all(seq![t]) == nodes(t),
{
    assert(seq![t].drop_last() =~= Seq::empty());
    assert(seq![t].last() == t);
    reveal_with_fuel(nodes_all, 2);
}

proof fn lemma_nodes_spine(t: Tm)
    ensures
        nodes_all(float_children::spine(t)) <= nodes(t),
        t.head is App && t.kids.len() == 2 ==> nodes_all(float_children::spine(t)) < nodes(t),
    decreases t,
{
    if t.head is App && t.kids.len() == 2 {
        lemma_nodes_spine(t.kids[0]);
        lemma_nodes_all_add(seq![t.kids[1]], float_children::spine(t.kids[0]));
        lemma_nodes_one(t.kids[1]);
        assert(t.kids =~= seq![t.kids[0]] + seq![t.kids[1]]);
        lemma_nodes_all_add(seq![t.kids[0]], seq![t.kids[1]]);
        lemma_nodes_one(t.kids[0]);
    } else {
        lemma_nodes_one(t);
    }
}

/// The terms that combinators are floated from are smaller than the term.
pub proof fn lemma_nodes_float_kids(t: Tm)
    ensures
        nodes_all(float_children::float_kids(t)) < nodes(t),
    decreases t,
{
    match t.head {
        Th::App(_) => {
            lemma_nodes_spine(t);
        },
        Th::Lam(_, _) => {
            if t.kids.len() == 1 {
                let k = t.kids[0];
                assert(t.kids =~= seq![k]);
                lemma_nodes_one(k);
                lemma_nodes_float_kids(k);
            }
        },
        _ => {},
    }
}

/// What a definition is floated with.
pub struct Env {
    /// The safety of the definitions of the program.
    pub def_safety: Map<Str, bool>,
    /// The constructors.
    pub constructors: Set<Str>,
    /// The size up to which safe combinators stay where they are.
    pub max_size: nat,
    /// The definition that is floated.
    pub name: Str,
    pub source: Src,
    pub check: bool,
}

/// What has come of floating so far.
pub struct Float {
    /// The combinators that were extracted, and whether they are safe.
    pub combinators: Map<Str, (bool, Dm)>,
    /// The number of the next combinator.
    pub name_gen: nat,
    /// The size of the definition without what was extracted. No more
    /// combinators than that can follow.
    pub def_size: int,
}

/// The names that can be referred to safely.
pub open spec fn known(
    def_safety: Map<Str, bool>,
    constructors: Set<Str>,
    combinators: Map<Str, (bool, Dm)>,
) -> Set<Str> {
    Set::new(
        |n: Str|
            constructors.contains(n) || if def_safety.contains_key(n) {
                def_safety[n]
            } else {
                combinators.contains_key(n) && combinators[n].0
            },
    )
}

/// The name of a combinator that is extracted from a definition.
pub open spec fn combinator_name(def_name: Str, n: nat) -> Str {
    def_name + NAME_SEP@ + name::decimal(n)
}

/// The definition of a combinator.
pub open spec fn combinator_def(env: Env, nam: Str, body: Tm) -> Dm {
    Dm {
        name: nam,
        typ: Ty { head: Head::Hole, kids: Seq::empty() },
        check: env.check,
        rules: seq![Rm { pats: Seq::empty(), body }],
        source: term::generated_source(env.source),
    }
}

/// The child of a term is extracted: it is a combinator that is not empty, and
/// it only stays if it is safe and the term is a combinator that is not too large.
pub open spec fn is_extracted(env: Env, in_combinator: bool, size: int, f: Float, child: Tm) -> bool {
    &&& facts::is_combinator(child)
    &&& facts::size(child) > 0
    &&& {
        ||| !safety::is_safe(child, known(env.def_safety, env.constructors, f.combinators))
        ||| !in_combinator
        ||| size > env.max_size
    }
}

/// A term becomes a definition of its own.
pub open spec fn extracted(env: Env, f: Float, child: Tm) -> (Tm, Float) {
    let nam = combinator_name(env.name, f.name_gen);
    let safe = safety::is_safe(child, known(env.def_safety, env.constructors, f.combinators));
    (
        term::tm_leaf(Th::Ref(nam)),
        Float {
            combinators: f.combinators.insert(nam, (safe, combinator_def(env, nam, child))),
            name_gen: f.name_gen + 1,
            def_size: f.def_size - facts::size(child),
        },
    )
}

/// The children of a term after extraction, the size of the term and what has
/// come of floating.
pub open spec fn extracted_all(
    env: Env,
    in_combinator: bool,
    size: int,
    f: Float,
    kids: Seq<Tm>,
) -> (Seq<Tm>, int, Float)
    decreases kids.len(),
{
    if kids.len() == 0 {
        (Seq::empty(), size, f)
    } else {
        let (ks, s, g) = extracted_all(env, in_combinator, size, f, kids.drop_last());
        let child = kids.last();
        if is_extracted(env, in_combinator, s, g, child) {
            let (k, h) = extracted(env, g, child);
            (ks.push(k), s - facts::size(child), h)
        } else {
            (ks.push(child), s, g)
        }
    }
}

/// The term after its combinators were floated.
///
/// They are floated out of the terms below first. Then the terms below are
/// extracted where they have to be.
pub open spec fn floated(env: Env, f: Float, t: Tm) -> (Tm, Float)
    decreases nodes(t), 0nat,
{
    proof {
        lemma_nodes_float_kids(t);
    }
    let (ks, g) = floated_all(env, f, float_children::float_kids(t));
    let u = float_children::with_float_kids(t, ks);
    let (rs, _, h) = extracted_all(
        env,
        facts::is_combinator(u),
        facts::size(u) as int,
        g,
        float_children::float_kids(u),
    );
    (float_children::with_float_kids(u, rs), h)
}

/// The terms after their combinators were floated, from left to right.
pub open spec fn floated_all(env: Env, f: Float, ts: Seq<Tm>) -> (Seq<Tm>, Float)
    decreases nodes_all(ts), ts.len() + 1,
{
    if ts.len() == 0 {
        (Seq::empty(), f)
    } else {
        let (ks, g) = floated_all(env, f, ts.drop_last());
        let (k, h) = floated(env, g, ts.last());
        (ks.push(k), h)
    }
}

/* Sizes */

/// What extraction does to sizes and numbers, when terms with the sizes of
/// `ts` become `us`.
pub open spec fn is_balanced(f: Float, ts: Seq<Tm>, g: Float, us: Seq<Tm>) -> bool {
    &&& us.len() == ts.len()
    &&& float_children::are_sized(ts) ==> float_children::are_sized(us)
    &&& g.def_size - facts::sizes(us) == f.def_size - facts::sizes(ts)
    &&& g.def_size <= f.def_size
    &&& f.name_gen <= g.name_gen
    &&& g.name_gen + g.def_size <= f.name_gen + f.def_size
}

proof fn lemma_are_sized_push(ts: Seq<Tm>, us: Seq<Tm>, u: Tm)
    requires
        ts.len() > 0,
        float_children::are_sized(ts.drop_last()) ==> float_children::are_sized(us),
        facts::is_sized(ts.last()) ==> facts::is_sized(u),
    ensures
        float_children::are_sized(ts) ==> float_children::are_sized(us.push(u)),
{
    if float_children::are_sized(ts) {
        assert forall|i: int| 0 <= i < ts.drop_last().len() implies facts::is_sized(
            #[trigger] ts.drop_last()[i],
        ) by {
            assert(ts.drop_last()[i] == ts[i]);
        }
        assert(facts::is_sized(ts[ts.len() - 1]));
        assert forall|i: int| 0 <= i < us.push(u).len() implies facts::is_sized(
            #[trigger] us.push(u)[i],
        ) by {
            if i < us.len() {
                assert(us.push(u)[i] == us[i]);
            }
        }
    }
}

proof fn lemma_sizes_push(us: Seq<Tm>, u: Tm)
    ensures
        facts::sizes(us.push(u)) == facts::sizes(us) + facts::size(u),
{
    assert(us.push(u).drop_last() =~= us);
    assert(us.push(u).last() == u);
}

pub proof fn lemma_extracted_sizes(
    env: Env,
    in_combinator: bool,
    size: int,
    f: Float,
    kids: Seq<Tm>,
)
    ensures
        ({
            let (rs, s, g) = extracted_all(env, in_combinator, size, f, kids);
            is_balanced(f, kids, g, rs) && s - size == g.def_size - f.def_size
        }),
    decreases kids.len(),
{
    if kids.len() > 0 {
        let init = kids.drop_last();
        let child = kids.last();
        let (ks, s, g) = extracted_all(env, in_combinator, size, f, init);
        lemma_extracted_sizes(env, in_combinator, size, f, init);
        let (k, h) = extracted(env, g, child);
        assert(facts::size(k) == 0);
        lemma_sizes_push(ks, k);
        lemma_sizes_push(ks, child);
        lemma_are_sized_push(kids, ks, k);
        lemma_are_sized_push(kids, ks, child);
    } else {
        assert(kids =~= Seq::empty());
    }
}

pub proof fn lemma_floated_sizes(env: Env, f: Float, t: Tm)
    ensures
        ({
            let (u, g) = floated(env, f, t);
            &&& facts::is_sized(t) ==> facts::is_sized(u)
            &&& g.def_size - facts::size(u) == f.def_size - facts::size(t)
            &&& g.def_size <= f.def_size
            &&& f.name_gen <= g.name_gen
            &&& g.name_gen + g.def_size <= f.name_gen + f.def_size
        }),
    decreases nodes(t), 0nat,
{
    lemma_nodes_float_kids(t);
    let qs = float_children::float_kids(t);
    let (ks, g) = floated_all(env, f, qs);
    lemma_floated_all_sizes(env, f, qs);
    let u = float_children::with_float_kids(t, ks);
    float_children::lemma_with_float_kids_size(t, ks);
    let us = float_children::float_kids(u);
    let (rs, s, h) = extracted_all(env, facts::is_combinator(u), facts::size(u) as int, g, us);
    lemma_extracted_sizes(env, facts::is_combinator(u), facts::size(u) as int, g, us);
    float_children::lemma_with_float_kids_size(u, us);
    float_children::lemma_with_float_kids_size(u, rs);
}

pub proof fn lemma_floated_all_sizes(env: Env, f: Float, ts: Seq<Tm>)
    ensures
        ({
            let (us, g) = floated_all(env, f, ts);
            is_balanced(f, ts, g, us)
        }),
    decreases nodes_all(ts), ts.len() + 1,
{
    if ts.len() > 0 {
        let (ks, g) = floated_all(env, f, ts.drop_last());
        lemma_floated_all_sizes(env, f, ts.drop_last());
        let (k, h) = floated(env, g, ts.last());
        lemma_floated_sizes(env, g, ts.last());
        lemma_sizes_push(ks, k);
        lemma_are_sized_push(ts, ks, k);
    } else {
        assert(ts =~= Seq::empty());
    }
}

/* Floating */

/// The state of floating.
pub struct FloatCombinatorsCtx {
    pub combinators: NameMap<(bool, Definition)>,
    pub name_gen: usize,
    pub def_safety: NameMap<bool>,
    pub constructors: NameSet,
    pub max_size: usize,
    pub def_size: usize,
}

impl FloatCombinatorsCtx {
    /// What a definition is floated with.
    pub open spec fn env(self, def_name: Str, source: Src, check: bool) -> Env {
        Env {
            def_safety: self.def_safety@,
            constructors: self.constructors@,
            max_size: self.max_size as nat,
            name: def_name,
            source,
            check,
        }
    }

    /// What has come of floating so far.
    pub open spec fn progress(self) -> Float {
        Float {
            combinators: self.combinators@,
            name_gen: self.name_gen as nat,
            def_size: self.def_size as int,
        }
    }

    /// The names that can be referred to safely.
    pub open spec fn known(self) -> Set<Str> {
        known(self.def_safety@, self.constructors@, self.combinators@)
    }

    /// The program is the same.
    pub open spec fn same_program(self, other: Self) -> bool {
        &&& self.def_safety@ == other.def_safety@
        &&& self.constructors@ == other.constructors@
        &&& self.max_size == other.max_size
    }

    /// There are numbers left for all that can still be extracted.
    pub open spec fn has_numbers(self) -> bool {
        self.name_gen + self.def_size <= usize::MAX
    }

    /// The state before the first definition.
    pub fn new(def_safety: NameMap<bool>, constructors: NameSet, max_size: usize) -> (r: Self)
        ensures
            r.def_safety@ == def_safety@,
            r.constructors@ == constructors@,
            r.max_size == max_size,
            r.progress() == (Float { combinators: Map::empty(), name_gen: 0, def_size: 0 }),
    {
        FloatCombinatorsCtx {
            combinators: NameMap::new(),
            name_gen: 0,
            def_safety,
            constructors,
            max_size,
            def_size: 0,
        }
    }

    /// Begins a definition.
    pub fn reset(&mut self)
        ensures
            final(self).progress() == (Float {
                combinators: old(self).combinators@,
                name_gen: 0,
                def_size: 0,
            }),
            final(self).same_program(*old(self)),
    {
        self.def_size = 0;
        self.name_gen = 0;
    }
}

/// The name of a combinator that is extracted from a definition.
fn new_combinator_name(def_name: &Name, n: usize) -> (r: Name)
    ensures
        r@ == combinator_name(def_name@, n as nat),
{
    let mut text = def_name.0.clone();
    text.append(NAME_SEP);
    let number = name::to_decimal(n);
    text.append(number.as_str());
    Name::new(text)
}

impl Term {
    /// Whether the term is safe, given what is known of the definitions and of
    /// the combinators that were extracted.
    ///
    /// Safe are numbers, erasers, tuples, superpositions, applications,
    /// operations and switches of safe terms, constructors, references to safe
    /// definitions, and lambdas whose body is safe, a reference or a variable
    /// that they bind.
    ///
    /// A reference to a recursive or mutually recursive definition is not safe.
    pub fn is_safe(&self, ctx: &FloatCombinatorsCtx) -> (r: bool)
        ensures
            r == safety::is_safe(self@, ctx.known()),
        decreases self, 0nat,
    {
        match self {
            Term::Num { .. }
            | Term::Era
            | Term::ErrTerm
            | Term::Fan { .. }
            | Term::App { .. }
            | Term::Oper { .. }
            | Term::Swt { .. } => {
                let kids = self.children();
                let ghost ts = self@.kids;
                let n: usize = kids.len();
                let mut i: usize = 0;
                while i < n
                    invariant
                        i <= n,
                        n == kids@.len(),
                        n == ts.len(),
                        ts == self@.kids,
                        safety::is_safe_former(self@.head),
                        forall|j: int| 0 <= j < n ==> (#[trigger] kids@[j])@ == ts[j],
                        forall|j: int| 0 <= j < n ==> decreases_to!(self => #[trigger] kids@[j]),
                        forall|j: int|
                            0 <= j < i ==> safety::is_safe(#[trigger] ts[j], ctx.known()),
                    decreases n - i,
                {
                    assert(kids@[i as int]@ == ts[i as int]);
                    if !kids[i].is_safe(ctx) {
                        return false;
                    }
                    i += 1;
                }
                true
            },
            Term::Lam { pat, bod, .. } => (&**bod).is_safe_lambda(pat.binds(), ctx),
            Term::Ref { nam } => {
                if ctx.constructors.contains(nam) {
                    return true;
                }
                if let Some(safe) = ctx.def_safety.get(nam) {
                    *safe
                } else if let Some(entry) = ctx.combinators.get(nam) {
                    entry.0
                } else {
                    false
                }
            },
            _ => false,
        }
    }

    /// Whether the term is safe as the body of lambdas that bind these names.
    pub fn is_safe_lambda(&self, scope: Vec<Option<Name>>, ctx: &FloatCombinatorsCtx) -> (r: bool)
        ensures
            r == safety::is_safe_body(self@, term::opt_names(scope@), ctx.known()),
        decreases self, 1nat,
    {
        match self {
            Term::Lam { pat, bod, .. } => {
                let mut scope2 = scope;
                let binds = pat.binds();
                term::push_opt_names(&mut scope2, &binds);
                (&**bod).is_safe_lambda(scope2, ctx)
            },
            Term::Var { nam } => safety::has_bind(&scope, nam),
            Term::Ref { .. } => true,
            _ => self.is_safe(ctx),
        }
    }
}

/// The contents of terms.
pub open spec fn mut_models(ts: Seq<&mut Term>) -> Seq<Tm> {
    Seq::new(ts.len(), |i: int| (*ts[i])@)
}

impl Term {
    /// Makes the term a definition of its own and refers to it instead.
    fn float(
        &mut self,
        ctx: &mut FloatCombinatorsCtx,
        def_name: &Name,
        source: &Source,
        check: bool,
        is_safe: bool,
    )
        requires
            old(ctx).name_gen < usize::MAX,
        ensures
            ({
                let env = old(ctx).env(def_name@, source@, check);
                let nam = combinator_name(def_name@, old(ctx).name_gen as nat);
                &&& final(self)@ == term::tm_leaf(Th::Ref(nam))
                &&& final(ctx).combinators@ == old(ctx).combinators@.insert(
                    nam,
                    (is_safe, combinator_def(env, nam, old(self)@)),
                )
                &&& final(ctx).name_gen == old(ctx).name_gen + 1
            }),
            final(ctx).def_size == old(ctx).def_size,
            final(ctx).same_program(*old(ctx)),
    {
        let nam = new_combinator_name(def_name, ctx.name_gen);
        ctx.name_gen = ctx.name_gen + 1;
        let mut body = Term::Ref { nam: nam.clone() };
        std::mem::swap(self, &mut body);
        let mut rules: Vec<Rule> = Vec::new();
        rules.push(Rule { pats: Vec::new(), body });
        let def = Definition::new_gen(nam.clone(), rules, source.clone(), check);
        proof {
            let env = old(ctx).env(def_name@, source@, check);
            assert(rules@[0]@.pats =~= Seq::empty());
            assert(def@.rules =~= seq![Rm { pats: Seq::empty(), body: old(self)@ }]);
            assert(def@ == combinator_def(env, nam@, old(self)@));
        }
        ctx.combinators.insert(nam, (is_safe, def));
    }
}

/// Floats the combinators out of terms, from left to right.
fn float_terms<'a>(
    kids: Vec<&'a mut Term>,
    ctx: &mut FloatCombinatorsCtx,
    def_name: &Name,
    source: &Source,
    check: bool,
)
    requires
        float_children::are_sized(mut_models(kids@)),
        facts::sizes(mut_models(kids@)) <= old(ctx).def_size,
        old(ctx).has_numbers(),
    ensures
        ({
            let env = old(ctx).env(def_name@, source@, check);
            let (us, g) = floated_all(env, old(ctx).progress(), mut_models(kids@));
            &&& us == Seq::new(kids@.len(), |i: int| (*final(kids@[i]))@)
            &&& final(ctx).progress() == g
        }),
        final(ctx).same_program(*old(ctx)),
    decreases nodes_all(mut_models(kids@)), kids@.len() + 1,
{
    let ghost env = ctx.env(def_name@, source@, check);
    let ghost (f, ts) = (ctx.progress(), mut_models(kids@));
    let n: usize = kids.len();
    let mut v = kids;
    let mut i: usize = 0;
    proof {
        assert(ts.take(0) =~= Seq::empty());
    }
    while i < n
        invariant
            i <= n,
            n == kids@.len(),
            v@.len() == n,
            ts == mut_models(kids@),
            ts.len() == n,
            env == old(ctx).env(def_name@, source@, check),
            f == old(ctx).progress(),
            float_children::are_sized(ts),
            facts::sizes(ts) <= f.def_size,
            ctx.same_program(*old(ctx)),
            old(ctx).has_numbers(),
            ctx.progress() == floated_all(env, f, ts.take(i as int)).1,
            floated_all(env, f, ts.take(i as int)).0.len() == i,
            forall|j: int| 0 <= j < n ==> *final(#[trigger] v@[j]) == *final(kids@[j]),
            forall|j: int| i <= j < n ==> #[trigger] v@[j] == kids@[j],
            forall|j: int|
                0 <= j < i ==> (*#[trigger] v@[j])@ == floated_all(env, f, ts.take(i as int)).0[j],
        decreases n - i,
    {
        let ghost before = v@;
        proof {
            let a = ts.take(i as int);
            assert(ts.take(i + 1).drop_last() =~= a);
            assert(ts.take(i + 1).last() == ts[i as int]);
            assert(v@[i as int] == kids@[i as int]);
            assert(facts::is_sized(ts[i as int]));
            lemma_floated_all_sizes(env, f, a);
            facts::lemma_sizes_take(ts, i as int);
            facts::lemma_sizes_take(ts, i + 1);
            lemma_nodes_take(ts, i as int);
        }
        let k: &mut Term = &mut *v[i];
        k.float_combinators(ctx, def_name, source, check);
        i += 1;
    }
    proof {
        assert(ts.take(n as int) =~= ts);
        assert forall|j: int| 0 <= j < n implies (*final(kids@[j]))@ == #[trigger] floated_all(
            env,
            f,
            ts,
        ).0[j] by {
            assert(has_resolved(v@[j]));
            assert(*final(v@[j]) == *v@[j]);
        }
    }
}

impl Term {
    /// Extracts the combinators of the term into definitions.
    pub fn float_combinators(
        &mut self,
        ctx: &mut FloatCombinatorsCtx,
        def_name: &Name,
        source: &Source,
        check: bool,
    )
        requires
            facts::is_sized(old(self)@),
            facts::size(old(self)@) <= old(ctx).def_size,
            old(ctx).has_numbers(),
        ensures
            ({
                let env = old(ctx).env(def_name@, source@, check);
                (final(self)@, final(ctx).progress()) == floated(
                    env,
                    old(ctx).progress(),
                    old(self)@,
                )
            }),
            final(ctx).same_program(*old(ctx)),
        decreases nodes(old(self)@), 0nat,
    {
        let ghost (f, t) = (ctx.progress(), self@);
        let ghost env = ctx.env(def_name@, source@, check);
        let ghost qs = float_children::float_kids(t);
        proof {
            lemma_nodes_float_kids(t);
            float_children::lemma_sized_has_float_kids(*self);
            float_children::lemma_with_float_kids_size(t, qs);
        }
        let kids = self.float_children_mut();
        assert(mut_models(kids@) =~= qs);
        float_terms(kids, ctx, def_name, source, check);
        let ghost (ks, g) = floated_all(env, f, qs);
        let ghost u = float_children::with_float_kids(t, ks);
        assert(self@ == u);
        proof {
            lemma_floated_all_sizes(env, f, qs);
            float_children::lemma_with_float_kids_size(t, ks);
            float_children::lemma_with_float_kids_size(u, float_children::float_kids(u));
            float_children::lemma_sized_has_float_kids(*self);
        }
        let facts = self.float_facts();
        let is_combinator = facts.is_combinator(self);
        let size: usize = facts.size;
        let kids = self.float_children_mut();
        assert(mut_models(kids@) =~= float_children::float_kids(u));
        extract_terms(kids, is_combinator, size, ctx, def_name, source, check);
    }
}

/// Extracts those of the children of a term that have to be.
fn extract_terms<'a>(
    kids: Vec<&'a mut Term>,
    in_combinator: bool,
    size: usize,
    ctx: &mut FloatCombinatorsCtx,
    def_name: &Name,
    source: &Source,
    check: bool,
)
    requires
        float_children::are_sized(mut_models(kids@)),
        facts::sizes(mut_models(kids@)) <= size <= old(ctx).def_size,
        old(ctx).has_numbers(),
    ensures
        ({
            let env = old(ctx).env(def_name@, source@, check);
            let (us, _, g) = extracted_all(
                env,
                in_combinator,
                size as int,
                old(ctx).progress(),
                mut_models(kids@),
            );
            &&& us == Seq::new(kids@.len(), |i: int| (*final(kids@[i]))@)
            &&& final(ctx).progress() == g
        }),
        final(ctx).same_program(*old(ctx)),
{
    let ghost env = ctx.env(def_name@, source@, check);
    let ghost (f, ts) = (ctx.progress(), mut_models(kids@));
    let n: usize = kids.len();
    let mut v = kids;
    let mut left: usize = size;
    let mut i: usize = 0;
    proof {
        assert(ts.take(0) =~= Seq::empty());
    }
    while i < n
        invariant
            i <= n,
            n == kids@.len(),
            v@.len() == n,
            ts == mut_models(kids@),
            ts.len() == n,
            env == old(ctx).env(def_name@, source@, check),
            f == old(ctx).progress(),
            float_children::are_sized(ts),
            facts::sizes(ts) <= size <= f.def_size,
            ctx.same_program(*old(ctx)),
            old(ctx).has_numbers(),
            ({
                let (us, s, g) = extracted_all(
                    env,
                    in_combinator,
                    size as int,
                    f,
                    ts.take(i as int),
                );
                &&& ctx.progress() == g
                &&& left == s
                &&& us.len() == i
                &&& forall|j: int| 0 <= j < i ==> (*#[trigger] v@[j])@ == us[j]
            }),
            forall|j: int| 0 <= j < n ==> *final(#[trigger] v@[j]) == *final(kids@[j]),
            forall|j: int| i <= j < n ==> #[trigger] v@[j] == kids@[j],
        decreases n - i,
    {
        proof {
            let a = ts.take(i as int);
            assert(ts.take(i + 1).drop_last() =~= a);
            assert(ts.take(i + 1).last() == ts[i as int]);
            assert(v@[i as int] == kids@[i as int]);
            assert(facts::is_sized(ts[i as int]));
            lemma_extracted_sizes(env, in_combinator, size as int, f, a);
            facts::lemma_sizes_take(ts, i as int);
            facts::lemma_sizes_take(ts, i + 1);
        }
        let child: &mut Term = &mut *v[i];
        let child_facts = child.float_facts();
        let child_is_safe = child.is_safe(ctx);
        let child_size: usize = child_facts.size;
        let may_stay = child_is_safe && in_combinator && left <= ctx.max_size;
        if child_facts.is_combinator(child) && child_size > 0 && !may_stay {
            child.float(ctx, def_name, source, check, child_is_safe);
            ctx.def_size = ctx.def_size - child_size;
            left = left - child_size;
        }
        i += 1;
    }
    proof {
        assert(ts.take(n as int) =~= ts);
        let us = extracted_all(env, in_combinator, size as int, f, ts).0;
        assert forall|j: int| 0 <= j < n implies (*final(kids@[j]))@ == #[trigger] us[j] by {
            assert(has_resolved(v@[j]));
            assert(*final(v@[j]) == *v@[j]);
        }
    }
}

/* Programs */

/// What a definition of a program is floated with.
pub open spec fn program_env(bk: Bk, max_size: nat, n: Str) -> Env {
    Env {
        def_safety: safety::def_safety(bk),
        constructors: bk.ctrs.dom(),
        max_size,
        name: n,
        source: bk.defs[n].source,
        check: bk.defs[n].check,
    }
}

/// The definition with another body.
pub open spec fn with_body(d: Dm, body: Tm) -> Dm {
    Dm { rules: seq![Rm { pats: d.rules[0].pats, body }], ..d }
}

/// A definition after its combinators were floated, and the combinators.
pub open spec fn floated_def(
    bk: Bk,
    max_size: nat,
    combinators: Map<Str, (bool, Dm)>,
    n: Str,
) -> (Dm, Map<Str, (bool, Dm)>) {
    let body = term::body_of(bk.defs[n]);
    let f = Float { combinators, name_gen: 0, def_size: facts::size(body) as int };
    let (u, g) = floated(program_env(bk, max_size, n), f, body);
    (with_body(bk.defs[n], u), g.combinators)
}

/// The definitions after the combinators of those with these names were
/// floated, and the combinators. The entrypoint stays as it is.
pub open spec fn floated_defs(bk: Bk, max_size: nat, names: Seq<Str>) -> (
    Map<Str, Dm>,
    Map<Str, (bool, Dm)>,
)
    decreases names.len(),
{
    if names.len() == 0 {
        (bk.defs, Map::empty())
    } else {
        let (defs, combinators) = floated_defs(bk, max_size, names.drop_last());
        let n = names.last();
        if bk.entrypoint == Some(n) {
            (defs, combinators)
        } else {
            let (d, cs) = floated_def(bk, max_size, combinators, n);
            (defs.insert(n, d), cs)
        }
    }
}

/// The definitions of combinators.
pub open spec fn combinator_defs(combinators: Map<Str, (bool, Dm)>) -> Map<Str, Dm> {
    Map::new(|n: Str| combinators.contains_key(n), |n: Str| combinators[n].1)
}

/// The program after its combinators were floated.
pub open spec fn floated_book(bk: Bk, max_size: nat) -> Bk {
    let (defs, combinators) = floated_defs(bk, max_size, name::in_order(bk.defs.dom()));
    Bk { defs: defs.union_prefer_right(combinator_defs(combinators)), ..bk }
}

/// The combinators of the program can be floated: definitions have one rule,
/// and the terms of those that are floated have a size.
pub open spec fn is_floatable(bk: Bk) -> bool {
    &&& safety::has_bodies(bk)
    &&& forall|n: Str| #[trigger]
        bk.defs.contains_key(n) && bk.entrypoint != Some(n) ==> {
            &&& facts::is_sized(term::body_of(bk.defs[n]))
            &&& facts::size(term::body_of(bk.defs[n])) <= usize::MAX
        }
}

/// Floats the combinators of a definition.
fn float_def(def: &mut Definition, ctx: &mut FloatCombinatorsCtx, def_name: &Name)
    requires
        term::has_one_rule(old(def)@),
        facts::is_sized(term::body_of(old(def)@)),
        facts::size(term::body_of(old(def)@)) <= usize::MAX,
    ensures
        ({
            let body = term::body_of(old(def)@);
            let env = old(ctx).env(def_name@, old(def)@.source, old(def)@.check);
            let f = Float {
                combinators: old(ctx).combinators@,
                name_gen: 0,
                def_size: facts::size(body) as int,
            };
            let (u, g) = floated(env, f, body);
            &&& final(def)@ == with_body(old(def)@, u)
            &&& final(ctx).progress() == g
        }),
        final(ctx).same_program(*old(ctx)),
{
    let source = def.source.clone();
    let check = def.check;
    assert(def@.rules[0] == def.rules@[0]@);
    ctx.reset();
    let facts = def.rules[0].body.float_facts();
    ctx.def_size = facts.size;
    let rule: &mut Rule = &mut def.rules[0];
    rule.body.float_combinators(ctx, def_name, &source, check);
    assert(def@ == with_body(old(def)@, def.rules@[0].body@)) by {
        assert(def@.rules =~= with_body(old(def)@, def.rules@[0].body@).rules);
    }
}

/// Gives the names of one map their values in another.
fn extend_defs(defs: &mut NameMap<Definition>, combinators: NameMap<(bool, Definition)>)
    ensures
        final(defs)@ == old(defs)@.union_prefer_right(combinator_defs(combinators@)),
{
    let names = combinators.keys();
    let ghost (cs, ns, defs0) = (combinators@, name::texts(names@), defs@);
    let n: usize = names.len();
    let mut rest = combinators;
    let mut i: usize = 0;
    proof {
        name::lemma_sorted_no_duplicates(ns);
        assert(ns.take(0) =~= Seq::empty());
    }
    while i < n
        invariant
            i <= n,
            n == names@.len(),
            ns == name::texts(names@),
            ns.no_duplicates(),
            ns.to_set() == cs.dom(),
            forall|x: Str| #[trigger]
                rest@.contains_key(x) <==> cs.contains_key(x) && !ns.take(i as int).contains(x),
            forall|x: Str| #[trigger] rest@.contains_key(x) ==> rest@[x] == cs[x],
            forall|x: Str| #[trigger]
                defs@.contains_key(x) <==> defs0.contains_key(x) || ns.take(i as int).contains(x),
            forall|x: Str| #[trigger]
                defs@.contains_key(x) ==> defs@[x] == if ns.take(i as int).contains(x) {
                    cs[x].1
                } else {
                    defs0[x]
                },
        decreases n - i,
    {
        let ghost (r0, d0) = (rest@, defs@);
        let ghost (a, b, x0) = (ns.take(i as int), ns.take(i + 1), ns[i as int]);
        proof {
            assert(x0 == names@[i as int]@);
            assert(b =~= a.push(x0));
            assert(ns.to_set().contains(x0));
            assert(!a.contains(x0));
            assert(rest@.contains_key(x0));
            assert forall|x: Str| b.contains(x) <==> a.contains(x) || x == x0 by {
                if a.contains(x) {
                    let j = choose|j: int| 0 <= j < a.len() && a[j] == x;
                    assert(b[j] == x);
                }
                assert(b[i as int] == x0);
            }
        }
        if let Some(entry) = rest.remove(&names[i]) {
            defs.insert(names[i].clone(), entry.1);
        }
        proof {
            assert forall|x: Str| #[trigger] rest@.contains_key(x) <==> cs.contains_key(x)
                && !b.contains(x) by {
                assert(r0.contains_key(x) <==> cs.contains_key(x) && !a.contains(x));
            }
            assert forall|x: Str| #[trigger] rest@.contains_key(x) implies rest@[x] == cs[x] by {
                assert(r0.contains_key(x));
            }
            assert forall|x: Str| #[trigger] defs@.contains_key(x) <==> defs0.contains_key(x)
                || b.contains(x) by {
                assert(d0.contains_key(x) <==> defs0.contains_key(x) || a.contains(x));
            }
            assert forall|x: Str| #[trigger] defs@.contains_key(x) implies defs@[x] == (
            if b.contains(x) {
                cs[x].1
            } else {
                defs0[x]
            }) by {
                assert(x == x0 || d0.contains_key(x));
            }
        }
        i += 1;
    }
    proof {
        assert(ns.take(n as int) =~= ns);
        assert forall|x: Str| #[trigger] cs.contains_key(x) <==> ns.contains(x) by {
            assert(ns.to_set().contains(x) <==> cs.dom().contains(x));
        }
        assert(defs@ =~= defs0.union_prefer_right(combinator_defs(cs)));
    }
}

impl Book {
    /// Extracts combinators into new definitions.
    ///
    /// The names of variables have to be unique. For each child of a term:
    /// - First the combinators of the child are floated.
    /// - If the child is a combinator that is not empty:
    ///   * If the child is not safe, it is extracted.
    ///   * If the child is safe and the term is a combinator, the child is
    ///     extracted if the term is currently larger than `max_size`.
    ///   * Otherwise the child is always extracted.
    /// - If the child is not a combinator, it stays where it is.
    ///
    /// A combinator is a term that has no free variables and no unmatched
    /// unscoped variables, and is not a reference. The entrypoint is left as it
    /// is, so that a program does not turn into a mere reference.
    pub fn float_combinators(&mut self, max_size: usize)
        requires
            is_floatable(old(self)@),
        ensures
            final(self)@ == floated_book(old(self)@, max_size as nat),
    {
        let ghost bk = self@;
        let def_safety = safety::precompute_def_safety(self);
        let ctr_names = self.ctrs.keys();
        let constructors = NameSet::from_vec(&ctr_names);
        let names = self.defs.keys();
        let ghost ns = name::texts(names@);
        proof {
            assert(constructors@ =~= bk.ctrs.dom());
            assert(ns.take(0) =~= Seq::empty());
            name::lemma_sorted_no_duplicates(ns);
        }
        let mut ctx = FloatCombinatorsCtx::new(def_safety, constructors, max_size);
        let n: usize = names.len();
        let mut i: usize = 0;
        while i < n
            invariant
                i <= n,
                n == names@.len(),
                ns == name::texts(names@),
                ns.no_duplicates(),
                ns.to_set() == bk.defs.dom(),
                is_floatable(bk),
                self@.ctrs == bk.ctrs,
                self@.adts == bk.adts,
                self@.hvm_defs == bk.hvm_defs,
                self@.entrypoint == bk.entrypoint,
                (self@.defs, ctx.combinators@) == floated_defs(
                    bk,
                    max_size as nat,
                    ns.take(i as int),
                ),
                forall|j: int| i <= j < n ==> self@.defs.contains_key(#[trigger] ns[j])
                    && self@.defs[ns[j]] == bk.defs[ns[j]],
                ctx.def_safety@ == safety::def_safety(bk),
                ctx.constructors@ == bk.ctrs.dom(),
                ctx.max_size == max_size,
            decreases n - i,
        {
            let ghost x = ns[i as int];
            proof {
                assert(x == names@[i as int]@);
                assert(ns.take(i + 1).drop_last() =~= ns.take(i as int));
                assert(ns.take(i + 1).last() == x);
                assert(ns.to_set().contains(x));
                assert(bk.defs.contains_key(x));
            }
            let is_main = match &self.entrypoint {
                Some(main) => names[i].same(main),
                None => false,
            };
            if !is_main {
                let ghost defs0 = self@.defs;
                if let Some(d) = self.defs.remove(&names[i]) {
                    let mut def = d;
                    float_def(&mut def, &mut ctx, &names[i]);
                    self.defs.insert(names[i].clone(), def);
                    assert(self@.defs =~= defs0.insert(x, def@));
                }
            }
            i += 1;
        }
        assert(ns.take(n as int) =~= ns);
        extend_defs(&mut self.defs, ctx.combinators);
    }
}

} // verus!
