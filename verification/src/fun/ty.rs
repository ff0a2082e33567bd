//! Types, their free variables and substitutions.

use crate::name::{Name, Str};
use crate::name_map::{NameMap, NameSet};
use vstd::prelude::*;

verus! {

/// The type of a term.
#[derive(Debug, PartialEq, Eq)]
pub enum Type {
    Any,
    Hole,
    Var(Name),
    Ctr(Name, Vec<Type>),
    Arr(Box<Type>, Box<Type>),
    Tup(Vec<Type>),
    U24,
    F24,
    I24,
    NoneType,
    Number(Box<Type>),
    Integer(Box<Type>),
}

/// What stands at the top of a type.
pub enum Head {
    Any,
    Hole,
    Var(Str),
    Ctr(Str),
    Arr,
    Tup,
    U24,
    F24,
    I24,
    NoneType,
    Number,
    Integer,
}

/// The mathematical content of a type: its top and the types below.
pub struct Ty {
    pub head: Head,
    pub kids: Seq<Ty>,
}

pub open spec fn leaf(head: Head) -> Ty {
    Ty { head, kids: Seq::empty() }
}

pub open spec fn ty_var(x: Str) -> Ty {
    leaf(Head::Var(x))
}

pub open spec fn ty_arr(a: Ty, b: Ty) -> Ty {
    Ty { head: Head::Arr, kids: seq![a, b] }
}

impl Type {
    pub open spec fn model(self) -> Ty
        decreases self,
    {
        match self {
            Type::Any => leaf(Head::Any),
            Type::Hole => leaf(Head::Hole),
            Type::Var(x) => ty_var(x@),
            Type::Ctr(x, ts) => Ty {
                head: Head::Ctr(x@),
                kids: Seq::new(
                    ts@.len(),
                    |i: int|
                        if 0 <= i < ts@.len() {
                            ts@[i].model()
                        } else {
                            arbitrary()
                        },
                ),
            },
            Type::Arr(a, b) => ty_arr((*a).model(), (*b).model()),
            Type::Tup(ts) => Ty {
                head: Head::Tup,
                kids: Seq::new(
                    ts@.len(),
                    |i: int|
                        if 0 <= i < ts@.len() {
                            ts@[i].model()
                        } else {
                            arbitrary()
                        },
                ),
            },
            Type::U24 => leaf(Head::U24),
            Type::F24 => leaf(Head::F24),
            Type::I24 => leaf(Head::I24),
            Type::NoneType => leaf(Head::NoneType),
            Type::Number(t) => Ty { head: Head::Number, kids: seq![(*t).model()] },
            Type::Integer(t) => Ty { head: Head::Integer, kids: seq![(*t).model()] },
        }
    }
}

impl View for Type {
    type V = Ty;

    open spec fn view(&self) -> Ty {
        self.model()
    }
}

/// The contents of a list of types.
pub open spec fn models(ts: Seq<Type>) -> Seq<Ty> {
    Seq::new(ts.len(), |i: int| ts[i]@)
}

/// The contents of a list of borrowed types.
pub open spec fn ref_models(ts: Seq<&Type>) -> Seq<Ty> {
    Seq::new(ts.len(), |i: int| ts[i]@)
}

impl Type {
    /// The types directly below this one.
    pub fn children(&self) -> (r: Vec<&Type>)
        ensures
            ref_models(r@) == self@.kids,
            forall|i: int| 0 <= i < r@.len() ==> decreases_to!(self => #[trigger] r@[i]),
            r@.len() == self@.kids.len(),
    {
        let mut r: Vec<&Type> = Vec::new();
        match self {
            Type::Ctr(_, ts) | Type::Tup(ts) => {
                let n: usize = ts.len();
                let mut i: usize = 0;
                while i < n
                    invariant
                        i <= n,
                        n == ts@.len(),
                        r@.len() == i,
                        decreases_to!(self => ts),
                        forall|j: int| 0 <= j < i ==> *#[trigger] r@[j] == ts@[j],
                        forall|j: int| 0 <= j < i ==> decreases_to!(self => #[trigger] r@[j]),
                    decreases n - i,
                {
                    r.push(&ts[i]);
                    i += 1;
                }
            },
            Type::Arr(a, b) => {
                r.push(&**a);
                r.push(&**b);
            },
            Type::Number(t) | Type::Integer(t) => {
                r.push(&**t);
            },
            _ => {},
        }
        assert(ref_models(r@) =~= self@.kids);
        r
    }

    /// A type with the same top and other types below.
    pub fn with_children(&self, mut kids: Vec<Type>) -> (r: Type)
        requires
            kids@.len() == self@.kids.len(),
        ensures
            r@ == (Ty { head: self@.head, kids: models(kids@) }),
    {
        let ghost ks = kids@;
        let r = match self {
            Type::Ctr(x, _) => Type::Ctr(x.clone(), kids),
            Type::Tup(_) => Type::Tup(kids),
            Type::Arr(_, _) => {
                let b = kids.pop().unwrap();
                let a = kids.pop().unwrap();
                Type::Arr(Box::new(a), Box::new(b))
            },
            Type::Number(_) => Type::Number(Box::new(kids.pop().unwrap())),
            Type::Integer(_) => Type::Integer(Box::new(kids.pop().unwrap())),
            Type::Any => Type::Any,
            Type::Hole => Type::Hole,
            Type::Var(x) => Type::Var(x.clone()),
            Type::U24 => Type::U24,
            Type::F24 => Type::F24,
            Type::I24 => Type::I24,
            Type::NoneType => Type::NoneType,
        };
        assert(r@.kids =~= models(ks));
        r
    }
}

impl Clone for Type {
    fn clone(&self) -> (r: Self)
        ensures
            r@ == self@,
        decreases self,
    {
        let kids = self.children();
        let mut ks: Vec<Type> = Vec::new();
        let n: usize = kids.len();
        let mut i: usize = 0;
        while i < n
            invariant
                i <= n,
                n == kids@.len(),
                ks@.len() == i,
                forall|j: int| 0 <= j < n ==> decreases_to!(self => #[trigger] kids@[j]),
                forall|j: int| 0 <= j < i ==> (#[trigger] ks@[j])@ == kids@[j]@,
            decreases n - i,
        {
            let k = kids[i].clone();
            ks.push(k);
            i += 1;
        }
        assert(models(ks@) =~= ref_models(kids@));
        self.with_children(ks)
    }
}

impl Type {
    /// Whether two types have the same top.
    pub fn same_head(&self, other: &Type) -> (r: bool)
        ensures
            r == (self@.head == other@.head),
    {
        match (self, other) {
            (Type::Any, Type::Any) => true,
            (Type::Hole, Type::Hole) => true,
            (Type::Var(a), Type::Var(b)) => a.same(b),
            (Type::Ctr(a, _), Type::Ctr(b, _)) => a.same(b),
            (Type::Arr(_, _), Type::Arr(_, _)) => true,
            (Type::Tup(_), Type::Tup(_)) => true,
            (Type::U24, Type::U24) => true,
            (Type::F24, Type::F24) => true,
            (Type::I24, Type::I24) => true,
            (Type::NoneType, Type::NoneType) => true,
            (Type::Number(_), Type::Number(_)) => true,
            (Type::Integer(_), Type::Integer(_)) => true,
            _ => false,
        }
    }

    /// Whether two types are the same.
    pub fn same(&self, other: &Type) -> (r: bool)
        ensures
            r == (self@ == other@),
        decreases self,
    {
        if !self.same_head(other) {
            return false;
        }
        let xs = self.children();
        let ys = other.children();
        let n: usize = xs.len();
        if n != ys.len() {
            return false;
        }
        let mut i: usize = 0;
        while i < n
            invariant
                i <= n,
                n == xs@.len(),
                n == ys@.len(),
                ref_models(xs@) == self@.kids,
                ref_models(ys@) == other@.kids,
                forall|j: int| 0 <= j < n ==> decreases_to!(self => #[trigger] xs@[j]),
                forall|j: int| 0 <= j < i ==> self@.kids[j] == #[trigger] other@.kids[j],
            decreases n - i,
        {
            assert(xs@[i as int]@ == self@.kids[i as int]);
            assert(ys@[i as int]@ == other@.kids[i as int]);
            if !xs[i].same(ys[i]) {
                return false;
            }
            i += 1;
        }
        assert(self@.kids =~= other@.kids);
        true
    }
}

/* Free variables */

/// The type variables of a type.
pub open spec fn fv(t: Ty) -> Set<Str>
    decreases t,
{
    match t.head {
        Head::Var(x) => set![x],
        _ => Set::new(
            |v: Str| exists|i: int| 0 <= i < t.kids.len() && fv(#[trigger] t.kids[i]).contains(v),
        ),
    }
}

/// The type variables of some types.
pub open spec fn fvs(ts: Seq<Ty>) -> Set<Str> {
    Set::new(|v: Str| exists|i: int| 0 <= i < ts.len() && fv(#[trigger] ts[i]).contains(v))
}

pub proof fn lemma_fv_kids(t: Ty)
    requires
        !(t.head is Var),
    ensures
        fv(t) == fvs(t.kids),
{
    assert(fv(t) =~= fvs(t.kids));
}

pub proof fn lemma_fv_finite(t: Ty)
    ensures
        fv(t).finite(),
    decreases t, t.kids.len() + 1,
{
    if !(t.head is Var) {
        lemma_fvs_finite(t, t.kids.len() as int);
        lemma_fv_kids(t);
        assert(t.kids.take(t.kids.len() as int) =~= t.kids);
    }
}

proof fn lemma_fvs_finite(t: Ty, n: int)
    requires
        0 <= n <= t.kids.len(),
    ensures
        fvs(t.kids.take(n)).finite(),
    decreases t, n,
{
    if n == 0 {
        assert(fvs(t.kids.take(0)) =~= Set::empty());
    } else {
        lemma_fvs_finite(t, n - 1);
        lemma_fv_finite(t.kids[n - 1]);
        lemma_fvs_take(t.kids, n - 1);
    }
}

/// The variables of one more type.
pub proof fn lemma_fvs_take(ts: Seq<Ty>, n: int)
    requires
        0 <= n < ts.len(),
    ensures
        fvs(ts.take(n + 1)) == fvs(ts.take(n)).union(fv(ts[n])),
{
    let (a, b) = (ts.take(n), ts.take(n + 1));
    assert forall|v: Str| fvs(b).contains(v) <==> fvs(a).union(fv(ts[n])).contains(v) by {
        if fvs(b).contains(v) {
            let i = choose|i: int| 0 <= i < b.len() && fv(#[trigger] b[i]).contains(v);
            if i < n {
                assert(a[i] == b[i]);
            }
        }
        if fvs(a).contains(v) {
            let i = choose|i: int| 0 <= i < a.len() && fv(#[trigger] a[i]).contains(v);
            assert(b[i] == a[i]);
        }
        assert(b[n] == ts[n]);
    }
    assert(fvs(b) =~= fvs(a).union(fv(ts[n])));
}

impl Type {
    /// The type variables of the type.
    pub fn free_type_vars(&self) -> (r: NameSet)
        ensures
            r@ == fv(self@),
        decreases self,
    {
        let mut vars = NameSet::new();
        match self {
            Type::Var(x) => {
                vars.insert(x.clone());
                assert(vars@ =~= fv(self@));
            },
            _ => {
                let kids = self.children();
                let n: usize = kids.len();
                let mut i: usize = 0;
                assert(fvs(self@.kids.take(0)) =~= Set::<Str>::empty());
                while i < n
                    invariant
                        i <= n,
                        n == kids@.len(),
                        n == self@.kids.len(),
                        ref_models(kids@) == self@.kids,
                        forall|j: int| 0 <= j < n ==> decreases_to!(self => #[trigger] kids@[j]),
                        vars@ == fvs(self@.kids.take(i as int)),
                    decreases n - i,
                {
                    let sub = kids[i].free_type_vars();
                    vars.extend(&sub);
                    proof {
                        lemma_fvs_take(self@.kids, i as int);
                        assert(kids@[i as int]@ == ref_models(kids@)[i as int]);
                    }
                    i += 1;
                }
                proof {
                    assert(self@.kids.take(n as int) =~= self@.kids);
                    lemma_fv_kids(self@);
                }
            },
        }
        vars
    }
}

/* Substitutions */

/// The type with every variable of the map replaced by its type.
pub open spec fn apply(t: Ty, m: Map<Str, Ty>) -> Ty
    decreases t,
{
    match t.head {
        Head::Var(x) => if m.contains_key(x) {
            m[x]
        } else {
            t
        },
        _ => Ty {
            head: t.head,
            kids: Seq::new(
                t.kids.len(),
                |i: int|
                    if 0 <= i < t.kids.len() {
                        apply(t.kids[i], m)
                    } else {
                        arbitrary()
                    },
            ),
        },
    }
}

/// Every type of the list with the variables of the map replaced.
pub open spec fn apply_all(ts: Seq<Ty>, m: Map<Str, Ty>) -> Seq<Ty> {
    Seq::new(ts.len(), |i: int| apply(ts[i], m))
}

pub proof fn lemma_apply_kids(t: Ty, m: Map<Str, Ty>)
    requires
        !(t.head is Var),
    ensures
        apply(t, m) == (Ty { head: t.head, kids: apply_all(t.kids, m) }),
{
    assert(apply(t, m).kids =~= apply_all(t.kids, m));
}

/// Maps that agree on the variables of a type do the same to it.
pub proof fn lemma_apply_agree(t: Ty, m1: Map<Str, Ty>, m2: Map<Str, Ty>)
    requires
        forall|x: Str| #[trigger]
            fv(t).contains(x) ==> (m1.contains_key(x) <==> m2.contains_key(x)) && (m1.contains_key(x)
                ==> m1[x] == m2[x]),
    ensures
        apply(t, m1) == apply(t, m2),
    decreases t,
{
    match t.head {
        Head::Var(x) => {
            assert(fv(t).contains(x));
        },
        _ => {
            assert forall|i: int| 0 <= i < t.kids.len() implies apply(#[trigger] t.kids[i], m1) == apply(
                t.kids[i],
                m2,
            ) by {
                assert forall|x: Str| #[trigger] fv(t.kids[i]).contains(x) implies (m1.contains_key(x)
                    <==> m2.contains_key(x)) && (m1.contains_key(x) ==> m1[x] == m2[x]) by {
                    assert(fv(t).contains(x));
                }
                lemma_apply_agree(t.kids[i], m1, m2);
            }
            assert(apply(t, m1).kids =~= apply(t, m2).kids);
        },
    }
}

/// A map of other variables does nothing to a type.
pub proof fn lemma_apply_disjoint(t: Ty, m: Map<Str, Ty>)
    requires
        forall|x: Str| #[trigger] fv(t).contains(x) ==> !m.contains_key(x),
    ensures
        apply(t, m) == t,
    decreases t,
{
    match t.head {
        Head::Var(x) => {
            assert(fv(t).contains(x));
        },
        _ => {
            assert forall|i: int| 0 <= i < t.kids.len() implies apply(#[trigger] t.kids[i], m) == t.kids[i] by {
                assert forall|x: Str| #[trigger] fv(t.kids[i]).contains(x) implies !m.contains_key(x) by {
                    assert(fv(t).contains(x));
                }
                lemma_apply_disjoint(t.kids[i], m);
            }
            assert(apply(t, m).kids =~= t.kids);
        },
    }
}

/// Where a variable of a type goes.
pub open spec fn image(m: Map<Str, Ty>, x: Str) -> Ty {
    if m.contains_key(x) {
        m[x]
    } else {
        ty_var(x)
    }
}

/// The variables after a substitution come from the variables before.
pub proof fn lemma_apply_fv(t: Ty, m: Map<Str, Ty>, v: Str)
    ensures
        fv(apply(t, m)).contains(v) <==> exists|x: Str| #[trigger]
            fv(t).contains(x) && fv(image(m, x)).contains(v),
    decreases t,
{
    match t.head {
        Head::Var(x) => {
            assert(fv(t).contains(x));
            assert(fv(ty_var(x)) =~= fv(t));
            if fv(apply(t, m)).contains(v) {
                assert(fv(t).contains(x) && fv(image(m, x)).contains(v));
            }
        },
        _ => {
            let u = apply(t, m);
            if fv(u).contains(v) {
                let i = choose|i: int| 0 <= i < u.kids.len() && fv(#[trigger] u.kids[i]).contains(v);
                assert(u.kids[i] == apply(t.kids[i], m));
                lemma_apply_fv(t.kids[i], m, v);
                let x = choose|x: Str| #[trigger]
                    fv(t.kids[i]).contains(x) && fv(image(m, x)).contains(v);
                assert(fv(t).contains(x));
            }
            if exists|x: Str| #[trigger] fv(t).contains(x) && fv(image(m, x)).contains(v) {
                let x = choose|x: Str| #[trigger] fv(t).contains(x) && fv(image(m, x)).contains(v);
                let i = choose|i: int| 0 <= i < t.kids.len() && fv(#[trigger] t.kids[i]).contains(x);
                lemma_apply_fv(t.kids[i], m, v);
                assert(u.kids[i] == apply(t.kids[i], m));
            }
        },
    }
}

/// First one substitution, then another.
pub open spec fn compose(m: Map<Str, Ty>, n: Map<Str, Ty>) -> Map<Str, Ty> {
    Map::new(
        |x: Str| m.contains_key(x) || n.contains_key(x),
        |x: Str|
            if m.contains_key(x) {
                apply(m[x], n)
            } else {
                n[x]
            },
    )
}

pub proof fn lemma_apply_compose(t: Ty, m: Map<Str, Ty>, n: Map<Str, Ty>)
    ensures
        apply(apply(t, m), n) == apply(t, compose(m, n)),
    decreases t,
{
    match t.head {
        Head::Var(x) => {},
        _ => {
            assert forall|i: int| 0 <= i < t.kids.len() implies apply(apply(#[trigger] t.kids[i], m), n) == apply(
                t.kids[i],
                compose(m, n),
            ) by {
                lemma_apply_compose(t.kids[i], m, n);
            }
            let u = apply(t, m);
            assert forall|i: int| 0 <= i < t.kids.len() implies #[trigger] u.kids[i] == apply(t.kids[i], m) by {}
            assert(apply(u, n).kids =~= apply(t, compose(m, n)).kids) by {
                assert forall|i: int| 0 <= i < t.kids.len() implies apply(u, n).kids[i] == apply(
                    t,
                    compose(m, n),
                ).kids[i] by {
                    assert(u.kids[i] == apply(t.kids[i], m));
                }
            }
        },
    }
}

/* Formed types */

/// There is nothing below `Any`, holes and variables.
pub open spec fn is_formed(t: Ty) -> bool
    decreases t,
{
    &&& t.head is Any || t.head is Hole || t.head is Var ==> t.kids.len() == 0
    &&& forall|i: int| 0 <= i < t.kids.len() ==> is_formed(#[trigger] t.kids[i])
}

/// Every type of the map is formed.
pub open spec fn is_formed_map(m: Map<Str, Ty>) -> bool {
    forall|x: Str| #[trigger] m.contains_key(x) ==> is_formed(m[x])
}

pub proof fn lemma_formed_apply(t: Ty, m: Map<Str, Ty>)
    requires
        is_formed(t),
        is_formed_map(m),
    ensures
        is_formed(apply(t, m)),
    decreases t,
{
    if !(t.head is Var) {
        let u = apply(t, m);
        assert forall|i: int| 0 <= i < u.kids.len() implies is_formed(#[trigger] u.kids[i]) by {
            lemma_formed_apply(t.kids[i], m);
        }
    }
}

impl Type {
    /// There is nothing below `Any`, holes and variables in any type.
    pub proof fn law_formed(&self)
        ensures
            is_formed(self@),
        decreases self,
    {
        match *self {
            Type::Ctr(_, ts) | Type::Tup(ts) => {
                assert forall|i: int| 0 <= i < self@.kids.len() implies is_formed(
                    #[trigger] self@.kids[i],
                ) by {
                    ts@[i].law_formed();
                }
            },
            Type::Arr(a, b) => {
                a.law_formed();
                b.law_formed();
            },
            Type::Number(t) | Type::Integer(t) => {
                t.law_formed();
            },
            _ => {},
        }
    }
}

/// A finite mapping from type variables to types.
pub struct Subst(pub NameMap<Type>);

impl View for Subst {
    type V = Map<Str, Ty>;

    open spec fn view(&self) -> Map<Str, Ty> {
        self.0@
    }
}

impl Type {
    /// Replaces the variables of the substitution by their types.
    pub fn subst(&self, subst: &Subst) -> (r: Type)
        ensures
            r@ == apply(self@, subst@),
        decreases self,
    {
        match self {
            Type::Var(nam) => match subst.0.get(nam) {
                Some(new) => new.clone(),
                None => self.clone(),
            },
            _ => {
                let kids = self.children();
                let mut ks: Vec<Type> = Vec::new();
                let n: usize = kids.len();
                let mut i: usize = 0;
                while i < n
                    invariant
                        i <= n,
                        n == kids@.len(),
                        ks@.len() == i,
                        forall|j: int| 0 <= j < n ==> decreases_to!(self => #[trigger] kids@[j]),
                        forall|j: int| 0 <= j < i ==> (#[trigger] ks@[j])@ == apply(kids@[j]@, subst@),
                    decreases n - i,
                {
                    let k = kids[i].subst(subst);
                    ks.push(k);
                    i += 1;
                }
                proof {
                    lemma_apply_kids(self@, subst@);
                    assert(models(ks@) =~= apply_all(self@.kids, subst@)) by {
                        assert forall|j: int| 0 <= j < n implies models(ks@)[j] == apply_all(
                            self@.kids,
                            subst@,
                        )[j] by {
                            assert(ref_models(kids@)[j] == kids@[j]@);
                            assert(ks@[j]@ == apply(kids@[j]@, subst@));
                        }
                    }
                }
                self.with_children(ks)
            },
        }
    }
}

} // verus!
