//! Type schemes, type environments and fresh type variables.

use crate::fun::ty;
use crate::fun::ty::{Subst, Ty, Type};
use crate::name;
use crate::name::{Name, Str};
use crate::name_map::{NameMap, NameSet};
use vstd::prelude::*;

verus! {

/// A type scheme, aka a polymorphic type.
pub struct Scheme(pub Vec<Name>, pub Type);

/// The mathematical content of a type scheme.
pub struct Sch {
    pub vars: Seq<Str>,
    pub typ: Ty,
}

impl View for Scheme {
    type V = Sch;

    open spec fn view(&self) -> Sch {
        Sch { vars: name::texts(self.0@), typ: self.1@ }
    }
}

/// A type that binds no variable.
pub open spec fn mono(t: Ty) -> Sch {
    Sch { vars: Seq::empty(), typ: t }
}

/// A type that binds all its variables, in their order.
pub open spec fn closed_scheme(t: Ty) -> Sch {
    Sch { vars: name::in_order(ty::fv(t)), typ: t }
}

/// Copies a list of names.
pub fn clone_names(ns: &Vec<Name>) -> (r: Vec<Name>)
    ensures
        name::texts(r@) == name::texts(ns@),
{
    let mut r: Vec<Name> = Vec::new();
    let n: usize = ns.len();
    let mut i: usize = 0;
    while i < n
        invariant
            i <= n,
            n == ns@.len(),
            r@.len() == i,
            forall|j: int| 0 <= j < i ==> (#[trigger] r@[j])@ == ns@[j]@,
        decreases n - i,
    {
        r.push(ns[i].clone());
        i += 1;
    }
    assert(name::texts(r@) =~= name::texts(ns@));
    r
}

impl Clone for Scheme {
    fn clone(&self) -> (r: Self)
        ensures
            r@ == self@,
    {
        Scheme(clone_names(&self.0), self.1.clone())
    }
}

impl Scheme {
    /// The type itself, with no variable bound.
    pub fn mono(t: Type) -> (r: Scheme)
        ensures
            r@ == mono(t@),
    {
        let r = Scheme(Vec::new(), t);
        assert(r@.vars =~= Seq::empty());
        r
    }
}

impl Type {
    /// Converts a monomorphic type into a closed type scheme by abstracting
    /// over all type variables free in `self`.
    pub fn generalize_closed(&self) -> (r: Scheme)
        ensures
            r@ == closed_scheme(self@),
    {
        let vars = self.free_type_vars();
        Scheme(vars.to_vec(), self.clone())
    }
}

/* Fresh variables */

/// Variable generator for type variables.
///
/// It counts in base 26, the least significant digit first, so that the
/// letters of the digits are the name of the count.
pub struct VarGen {
    digits: Vec<u8>,
}

/// The number that the digits from a position on stand for.
spec fn number(d: Seq<u8>, i: int) -> nat
    decreases d.len() - i,
{
    if 0 <= i < d.len() {
        d[i] as nat + 26 * number(d, i + 1)
    } else {
        0
    }
}

spec fn proper(d: Seq<u8>) -> bool {
    &&& d.len() > 0
    &&& forall|i: int| 0 <= i < d.len() ==> #[trigger] d[i] < 26
    &&& d.len() > 1 ==> d.last() != 0
}

spec fn letters(d: Seq<u8>, i: int) -> Str
    decreases d.len() - i,
{
    if 0 <= i < d.len() {
        seq![name::letter(d[i] as nat)] + letters(d, i + 1)
    } else {
        Seq::empty()
    }
}

proof fn lemma_number_same(a: Seq<u8>, b: Seq<u8>, i: int)
    requires
        a.len() == b.len(),
        0 <= i,
        forall|j: int| i <= j < a.len() ==> a[j] == b[j],
    ensures
        number(a, i) == number(b, i),
    decreases a.len() - i,
{
    if i < a.len() {
        lemma_number_same(a, b, i + 1);
    }
}

proof fn lemma_number_positive(d: Seq<u8>, i: int)
    requires
        proper(d),
        d.len() > 1,
        0 <= i < d.len(),
    ensures
        number(d, i) > 0,
    decreases d.len() - i,
{
    if i < d.len() - 1 {
        lemma_number_positive(d, i + 1);
    }
}

proof fn lemma_letters(d: Seq<u8>, i: int)
    requires
        proper(d),
        0 <= i < d.len(),
    ensures
        letters(d, i) == name::base26(number(d, i)),
    decreases d.len() - i,
{
    let n = number(d, i);
    if i == d.len() - 1 {
        assert(number(d, i + 1) == 0);
        assert(letters(d, i + 1) =~= Seq::empty());
        assert(letters(d, i) =~= name::base26(n));
    } else {
        lemma_letters(d, i + 1);
        lemma_number_positive(d, i + 1);
        let m = number(d, i + 1);
        assert(n == d[i] as nat + 26 * m);
        assert(n / 26 == m && n % 26 == d[i] as nat) by (nonlinear_arith)
            requires
                n == d[i] as nat + 26 * m,
                d[i] < 26,
        ;
        assert(n >= 26);
    }
}

/// Adds one to the number that stands from a position on.
fn increment(d: &mut Vec<u8>, i: usize)
    requires
        i <= old(d)@.len(),
        forall|j: int| 0 <= j < old(d)@.len() ==> #[trigger] old(d)@[j] < 26,
        i < old(d)@.len() && old(d)@.len() > 1 ==> old(d)@.last() != 0,
        old(d)@.len() == i ==> i > 0,
    ensures
        number(final(d)@, i as int) == number(old(d)@, i as int) + 1,
        forall|j: int| 0 <= j < i ==> final(d)@[j] == old(d)@[j],
        proper(final(d)@),
        final(d)@.len() >= old(d)@.len(),
    decreases old(d)@.len() - i,
{
    let ghost d0 = d@;
    if i == d.len() {
        d.push(1);
        assert(number(d@, i + 1) == 0);
        assert(number(d0, i as int) == 0);
    } else if d[i] < 25 {
        let x: u8 = d[i];
        d.set(i, x + 1);
        proof {
            lemma_number_same(d@, d0, i + 1);
        }
    } else {
        d.set(i, 0);
        let ghost d1 = d@;
        proof {
            lemma_number_same(d1, d0, i + 1);
        }
        increment(d, i + 1);
        proof {
            assert(d@[i as int] == d1[i as int]);
        }
    }
}

impl View for VarGen {
    type V = nat;

    /// How many names were made.
    closed spec fn view(&self) -> nat {
        number(self.digits@, 0)
    }
}

impl VarGen {
    #[verifier::type_invariant]
    spec fn inv(self) -> bool {
        proper(self.digits@)
    }

    pub fn new() -> (r: Self)
        ensures
            r@ == 0,
    {
        let mut digits: Vec<u8> = Vec::new();
        digits.push(0);
        proof {
            assert(digits@ =~= seq![0u8]);
            assert(number(digits@, 1) == 0);
        }
        VarGen { digits }
    }

    /// A type variable with a name that was not made before.
    pub fn fresh(&mut self) -> (r: Type)
        ensures
            r@ == ty::ty_var(name::base26(old(self)@)),
            final(self)@ == old(self)@ + 1,
    {
        let x = self.fresh_name();
        Type::Var(x)
    }

    pub fn fresh_name(&mut self) -> (r: Name)
        ensures
            r@ == name::base26(old(self)@),
            final(self)@ == old(self)@ + 1,
    {
        proof {
            use_type_invariant(&*self);
        }
        let ghost d0 = self.digits@;
        let mut digits: Vec<u8> = Vec::new();
        digits.push(0);
        std::mem::swap(&mut digits, &mut self.digits);
        let mut text = String::new();
        let n: usize = digits.len();
        let mut i: usize = 0;
        assert(text@ + letters(d0, 0) =~= letters(d0, 0));
        while i < n
            invariant
                i <= n,
                n == digits@.len(),
                digits@ == d0,
                proper(d0),
                text@ + letters(d0, i as int) == letters(d0, 0),
            decreases n - i,
        {
            let d: u8 = digits[i];
            let ghost before = text@;
            text.push((97 + d) as char);
            proof {
                assert(text@ =~= before + seq![name::letter(d as nat)]);
                assert(text@ + letters(d0, i + 1) =~= before + letters(d0, i as int));
            }
            i += 1;
        }
        proof {
            assert(text@ =~= letters(d0, 0));
            lemma_letters(d0, 0);
        }
        increment(&mut digits, 0);
        self.digits = digits;
        Name::new(text)
    }
}

/// The number is the first from `next` on whose name is not taken.
pub open spec fn is_next_free(taken: Set<Str>, next: nat, k: nat) -> bool {
    &&& next <= k
    &&& !taken.contains(name::base26(k))
    &&& forall|j: nat| next <= j < k ==> taken.contains(#[trigger] name::base26(j))
}

/// The first number from `next` on whose name is not taken.
pub open spec fn next_free(taken: Set<Str>, next: nat) -> nat {
    choose|k: nat| is_next_free(taken, next, k)
}

/// The taken names whose numbers are still to come.
pub open spec fn still_taken(taken: Set<Str>, next: nat) -> Set<Str> {
    taken.filter(|x: Str| exists|j: nat| next <= j && x == #[trigger] name::base26(j))
}

proof fn lemma_still_taken(taken: Set<Str>, next: nat)
    requires
        taken.finite(),
        taken.contains(name::base26(next)),
    ensures
        still_taken(taken, next + 1).len() < still_taken(taken, next).len(),
        still_taken(taken, next).finite(),
{
    let (a, b) = (still_taken(taken, next), still_taken(taken, next + 1));
    let x = name::base26(next);
    vstd::set_lib::lemma_len_subset(a, taken);
    assert(a.contains(x));
    if b.contains(x) {
        let j = choose|j: nat| next + 1 <= j && x == #[trigger] name::base26(j);
        name::lemma_base26_injective(next, j);
    }
    assert(b.subset_of(a.remove(x)));
    vstd::set_lib::lemma_len_subset(b, a.remove(x));
}

/// Only finitely many names are taken.
pub proof fn lemma_next_free(taken: Set<Str>, next: nat)
    requires
        taken.finite(),
    ensures
        is_next_free(taken, next, next_free(taken, next)),
    decreases still_taken(taken, next).len(),
{
    if taken.contains(name::base26(next)) {
        lemma_still_taken(taken, next);
        lemma_next_free(taken, next + 1);
        assert(is_next_free(taken, next, next_free(taken, next + 1)));
    } else {
        assert(is_next_free(taken, next, next));
    }
}

/// There is one first number.
proof fn lemma_next_free_unique(taken: Set<Str>, next: nat, k: nat)
    requires
        is_next_free(taken, next, k),
    ensures
        next_free(taken, next) == k,
{
    let j = next_free(taken, next);
    assert(is_next_free(taken, next, j));
    if j < k {
        assert(taken.contains(name::base26(j)));
    } else if k < j {
        assert(taken.contains(name::base26(k)));
    }
}

/// Fresh variables for the given ones whose names are not taken, and the number
/// that comes next. The first number is `next` or comes after it.
pub open spec fn fresh_apart(vars: Seq<Str>, taken: Set<Str>, next: nat) -> (Map<Str, Ty>, nat)
    decreases vars.len(),
{
    if vars.len() == 0 {
        (Map::empty(), next)
    } else {
        let (m, n) = fresh_apart(vars.drop_last(), taken, next);
        let k = next_free(taken, n);
        (m.insert(vars.last(), ty::ty_var(name::base26(k))), k + 1)
    }
}

/// A variable whose name is not taken.
fn fresh_free(var_gen: &mut VarGen, taken: &NameSet) -> (r: Type)
    ensures
        r@ == ty::ty_var(name::base26(next_free(taken@, old(var_gen)@))),
        final(var_gen)@ == next_free(taken@, old(var_gen)@) + 1,
{
    let ghost first = var_gen@;
    proof {
        taken.lemma_finite();
    }
    let mut x = var_gen.fresh_name();
    let ghost mut k: nat = first;
    while taken.contains(&x)
        invariant
            taken@.finite(),
            first <= k,
            var_gen@ == k + 1,
            x@ == name::base26(k),
            forall|j: nat| first <= j < k ==> taken@.contains(#[trigger] name::base26(j)),
        decreases still_taken(taken@, k).len(),
    {
        proof {
            lemma_still_taken(taken@, k);
            k = k + 1;
        }
        x = var_gen.fresh_name();
    }
    proof {
        lemma_next_free_unique(taken@, first, k);
    }
    Type::Var(x)
}

/// Maps each name to a fresh variable whose name is not taken.
pub fn fresh_subst_apart(vars: &Vec<Name>, taken: &NameSet, var_gen: &mut VarGen) -> (r: Subst)
    ensures
        r@ == fresh_apart(name::texts(vars@), taken@, old(var_gen)@).0,
        final(var_gen)@ == fresh_apart(name::texts(vars@), taken@, old(var_gen)@).1,
{
    let mut m: NameMap<Type> = NameMap::new();
    let n: usize = vars.len();
    let ghost all = name::texts(vars@);
    let mut i: usize = 0;
    while i < n
        invariant
            i <= n,
            n == vars@.len(),
            all == name::texts(vars@),
            (m@, var_gen@) == fresh_apart(all.take(i as int), taken@, old(var_gen)@),
        decreases n - i,
    {
        let t = fresh_free(var_gen, taken);
        m.insert(vars[i].clone(), t);
        proof {
            let a = all.take(i + 1);
            assert(a.drop_last() =~= all.take(i as int));
            assert(a.last() == vars@[i as int]@);
        }
        i += 1;
    }
    assert(all.take(n as int) =~= all);
    Subst(m)
}

/// Fresh variables for the given ones, the first numbered `next`.
pub open spec fn fresh_map(vars: Seq<Str>, next: nat) -> Map<Str, Ty>
    decreases vars.len(),
{
    if vars.len() == 0 {
        Map::empty()
    } else {
        fresh_map(vars.drop_last(), next).insert(
            vars.last(),
            ty::ty_var(name::base26((next + vars.len() - 1) as nat)),
        )
    }
}

/// A scheme with fresh variables in place of those it binds.
pub open spec fn instance(s: Sch, next: nat) -> Ty {
    ty::apply(s.typ, fresh_map(s.vars, next))
}

/// Maps each name to a fresh variable.
pub fn fresh_subst(vars: &Vec<Name>, var_gen: &mut VarGen) -> (r: Subst)
    ensures
        r@ == fresh_map(name::texts(vars@), old(var_gen)@),
        final(var_gen)@ == old(var_gen)@ + vars@.len(),
{
    let mut m: NameMap<Type> = NameMap::new();
    let n: usize = vars.len();
    let ghost all = name::texts(vars@);
    let mut i: usize = 0;
    while i < n
        invariant
            i <= n,
            n == vars@.len(),
            all == name::texts(vars@),
            var_gen@ == old(var_gen)@ + i,
            m@ == fresh_map(all.take(i as int), old(var_gen)@),
        decreases n - i,
    {
        let t = var_gen.fresh();
        m.insert(vars[i].clone(), t);
        proof {
            let a = all.take(i + 1);
            assert(a.drop_last() =~= all.take(i as int));
            assert(a.last() == vars@[i as int]@);
        }
        i += 1;
    }
    assert(all.take(n as int) =~= all);
    Subst(m)
}

impl Scheme {
    /// Converts a type scheme into a monomorphic type by assigning
    /// fresh type variables to each variable bound by the scheme.
    pub fn instantiate(&self, var_gen: &mut VarGen) -> (r: Type)
        ensures
            r@ == instance(self@, old(var_gen)@),
            final(var_gen)@ == old(var_gen)@ + self@.vars.len(),
    {
        let subst = fresh_subst(&self.0, var_gen);
        self.1.subst(&subst)
    }
}

/* Environments */

/// A mapping from term variables to type schemes.
pub struct TypeEnv(pub NameMap<Scheme>);

impl View for TypeEnv {
    type V = Map<Str, Sch>;

    open spec fn view(&self) -> Map<Str, Sch> {
        self.0@
    }
}

/// A scheme for a name that may be missing.
pub type Bind = (Option<Str>, Sch);

/// What a name meant before, if it meant anything.
pub type Saved = (Str, Option<Sch>);

pub open spec fn lookup(env: Map<Str, Sch>, x: Str) -> Option<Sch> {
    if env.contains_key(x) {
        Some(env[x])
    } else {
        None
    }
}

/// The environment after giving the names that are there their schemes, in turn.
pub open spec fn bind_all(env: Map<Str, Sch>, bs: Seq<Bind>) -> Map<Str, Sch>
    decreases bs.len(),
{
    if bs.len() == 0 {
        env
    } else {
        let e = bind_all(env, bs.drop_last());
        match bs.last().0 {
            Some(x) => e.insert(x, bs.last().1),
            None => e,
        }
    }
}

/// What the names meant just before each was given its scheme.
pub open spec fn saved_by(env: Map<Str, Sch>, bs: Seq<Bind>) -> Seq<Saved>
    decreases bs.len(),
{
    if bs.len() == 0 {
        Seq::empty()
    } else {
        let s = saved_by(env, bs.drop_last());
        match bs.last().0 {
            Some(x) => s.push((x, lookup(bind_all(env, bs.drop_last()), x))),
            None => s,
        }
    }
}

/// The environment after giving names back what they meant, the last first.
pub open spec fn restore(env: Map<Str, Sch>, saved: Seq<Saved>) -> Map<Str, Sch>
    decreases saved.len(),
{
    if saved.len() == 0 {
        env
    } else {
        let (x, old) = saved.last();
        restore(
            match old {
                Some(s) => env.insert(x, s),
                None => env.remove(x),
            },
            saved.drop_last(),
        )
    }
}

/// Popping what was saved undoes the binding.
pub proof fn law_pop_undoes_add(env: Map<Str, Sch>, bs: Seq<Bind>)
    ensures
        restore(bind_all(env, bs), saved_by(env, bs)) == env,
    decreases bs.len(),
{
    if bs.len() > 0 {
        let b0 = bs.drop_last();
        let e = bind_all(env, b0);
        let s = saved_by(env, b0);
        law_pop_undoes_add(env, b0);
        if let Some(x) = bs.last().0 {
            let saved = saved_by(env, bs);
            assert(saved.drop_last() =~= s);
            let full = bind_all(env, bs);
            if e.contains_key(x) {
                assert(full.insert(x, e[x]) =~= e);
            } else {
                assert(full.remove(x) =~= e);
            }
        }
    }
}

/// The content of an optional scheme.
pub open spec fn opt_sch(o: Option<Scheme>) -> Option<Sch> {
    match o {
        Some(s) => Some(s@),
        None => None,
    }
}

pub open spec fn bind_models(bs: Seq<(Option<Name>, Scheme)>) -> Seq<Bind> {
    Seq::new(bs.len(), |i: int| (name::opt_name(bs[i].0), bs[i].1@))
}

pub open spec fn saved_models(ss: Seq<(Name, Option<Scheme>)>) -> Seq<Saved> {
    Seq::new(ss.len(), |i: int| (ss[i].0@, opt_sch(ss[i].1)))
}

impl TypeEnv {
    pub fn new() -> (r: Self)
        ensures
            r@ == Map::<Str, Sch>::empty(),
    {
        TypeEnv(NameMap::new())
    }

    pub fn insert(&mut self, nam: Name, scheme: Scheme)
        ensures
            final(self)@ == old(self)@.insert(nam@, scheme@),
    {
        self.0.insert(nam, scheme);
    }

    /// Binds the names that are there and returns what they meant.
    pub fn add_binds(&mut self, bnd: &Vec<(Option<Name>, Scheme)>) -> (r: Vec<(Name, Option<Scheme>)>)
        ensures
            final(self)@ == bind_all(old(self)@, bind_models(bnd@)),
            saved_models(r@) == saved_by(old(self)@, bind_models(bnd@)),
    {
        let mut old_bnd: Vec<(Name, Option<Scheme>)> = Vec::new();
        let ghost bs = bind_models(bnd@);
        let n: usize = bnd.len();
        let mut i: usize = 0;
        assert(saved_models(old_bnd@) =~= Seq::empty());
        while i < n
            invariant
                i <= n,
                n == bnd@.len(),
                bs == bind_models(bnd@),
                self@ == bind_all(old(self)@, bs.take(i as int)),
                saved_models(old_bnd@) == saved_by(old(self)@, bs.take(i as int)),
            decreases n - i,
        {
            let ghost b1 = bs.take(i + 1);
            proof {
                assert(b1.drop_last() =~= bs.take(i as int));
                assert(b1.last() == bs[i as int]);
            }
            let ghost before = old_bnd@;
            if let Some(nam) = &bnd[i].0 {
                let old = self.0.insert(nam.clone(), bnd[i].1.clone());
                old_bnd.push((nam.clone(), old));
                assert(saved_models(old_bnd@) =~= saved_models(before).push((nam@, opt_sch(old))));
            }
            i += 1;
        }
        assert(bs.take(n as int) =~= bs);
        old_bnd
    }

    /// Gives names back what they meant.
    pub fn pop_binds(&mut self, mut old_bnd: Vec<(Name, Option<Scheme>)>)
        ensures
            final(self)@ == restore(old(self)@, saved_models(old_bnd@)),
    {
        let ghost all = saved_models(old_bnd@);
        loop
            invariant
                restore(self@, saved_models(old_bnd@)) == restore(old(self)@, all),
            ensures
                old_bnd@.len() == 0,
            decreases old_bnd@.len(),
        {
            let ghost before = old_bnd@;
            match old_bnd.pop() {
                Some((nam, scheme)) => {
                    assert(saved_models(before).drop_last() =~= saved_models(old_bnd@));
                    assert(saved_models(before).last() == (nam@, opt_sch(scheme)));
                    match scheme {
                        Some(s) => {
                            self.0.insert(nam, s);
                        },
                        None => {
                            self.0.remove(&nam);
                        },
                    }
                },
                None => {
                    break;
                },
            }
        }
    }
}

} // verus!
