//! The state of type inference.

use crate::fun::check::following;
use crate::fun::check::scheme;
use crate::fun::check::scheme::{Sch, Scheme, TypeEnv, VarGen};
use crate::fun::check::unify;
use crate::fun::check::unify::Clash;
use crate::fun::term::{Term, Tm};
use crate::fun::ty;
use crate::fun::ty::{Head, Subst, Ty, Type};
use crate::name;
use crate::name::{Name, Str};
use crate::name_map::{NameMap, NameSet};
use vstd::prelude::*;

verus! {

/// The mathematical content of the state: the substitution that was found and
/// how many variables were made.
pub struct St {
    pub sub: Map<Str, Ty>,
    pub next: nat,
}

/// Mutable type-inference state.
///
/// It keeps one path-compressed substitution table for a whole recursive
/// group: unification changes the table in place, and reading a type prunes it
/// through the table. A type in the table may still hold variables that the
/// table replaces; `sub` is the substitution that results when all of them are
/// followed. No chain of variables is endless, since their ranks decrease.
pub struct InferState {
    subst: Subst,
    var_gen: VarGen,
    sub: Ghost<Map<Str, Ty>>,
    rank: Ghost<Map<Str, nat>>,
    top: Ghost<nat>,
}

impl View for InferState {
    type V = St;

    closed spec fn view(&self) -> St {
        St { sub: self.sub@, next: self.var_gen@ }
    }
}

/// The types in a table, with all variables followed, are a substitution.
#[verifier::opaque]
spec fn table(raw: Map<Str, Ty>, m: Map<Str, Ty>, rank: Map<Str, nat>, top: nat) -> bool {
    &&& raw.dom() == m.dom()
    &&& unify::idempotent(m)
    &&& forall|x: Str| #[trigger] raw.contains_key(x) ==> ty::apply(raw[x], m) == m[x]
    &&& forall|x: Str| #[trigger]
        raw.contains_key(x) ==> rank[x] < top && following::ranked(raw[x], raw, rank, rank[x])
}

proof fn lemma_table(raw: Map<Str, Ty>, m: Map<Str, Ty>, rank: Map<Str, nat>, top: nat, t: Ty)
    requires
        table(raw, m, rank, top),
    ensures
        raw.dom() == m.dom(),
        unify::idempotent(m),
        following::ranked(t, raw, rank, top),
{
    reveal(table);
}

proof fn lemma_table_get(raw: Map<Str, Ty>, m: Map<Str, Ty>, rank: Map<Str, nat>, top: nat, x: Str)
    requires
        table(raw, m, rank, top),
        raw.contains_key(x),
    ensures
        ty::apply(raw[x], m) == m[x],
        following::ranked(raw[x], raw, rank, rank[x]),
        rank[x] < top,
{
    reveal(table);
}

proof fn lemma_table_ranked(raw: Map<Str, Ty>, m: Map<Str, Ty>, rank: Map<Str, nat>, top: nat)
    requires
        table(raw, m, rank, top),
    ensures
        following::is_ranked(raw, rank, top),
{
    reveal(table);
}

/// A replaced variable may get any type that means the same and ranks lower.
proof fn lemma_table_compress(
    raw: Map<Str, Ty>,
    m: Map<Str, Ty>,
    rank: Map<Str, nat>,
    top: nat,
    x: Str,
    t: Ty,
)
    requires
        table(raw, m, rank, top),
        raw.contains_key(x),
        ty::apply(t, m) == m[x],
        following::ranked(t, raw, rank, rank[x]),
    ensures
        table(raw.insert(x, t), m, rank, top),
        raw.insert(x, t).dom() == raw.dom(),
{
    reveal(table);
    let raw1 = raw.insert(x, t);
    assert(raw1.dom() =~= raw.dom());
    assert forall|y: Str| #[trigger] raw1.contains_key(y) implies ty::apply(raw1[y], m) == m[y] && rank[y] < top
        && following::ranked(raw1[y], raw1, rank, rank[y]) by {
        assert(raw.contains_key(y));
        assert(following::ranked(raw1[y], raw, rank, rank[y]));
        assert forall|z: Str| #[trigger] ty::fv(raw1[y]).contains(z) && raw1.contains_key(z) implies rank[z]
            < rank[y] by {
            assert(raw.contains_key(z));
        }
    }
}

/// The ranks after a variable was replaced: it comes before all others.
spec fn rank_first(rank: Map<Str, nat>, x: Str) -> Map<Str, nat> {
    Map::new(
        |y: Str| true,
        |y: Str|
            if y == x {
                0nat
            } else {
                rank[y] + 1
            },
    )
}

proof fn lemma_table_bind(
    raw: Map<Str, Ty>,
    m: Map<Str, Ty>,
    rank: Map<Str, nat>,
    top: nat,
    x: Str,
    u: Ty,
)
    requires
        table(raw, m, rank, top),
        !m.contains_key(x),
        ty::apply(u, m) == u,
        forall|v: Str| #[trigger] ty::fv(u).contains(v) ==> !m.contains_key(v),
        u.head != Head::Var(x),
        !ty::fv(u).contains(x),
    ensures
        table(raw.insert(x, u), unify::and_then(m, x, u), rank_first(rank, x), top + 1),
{
    reveal(table);
    let s1 = unify::and_then(m, x, u);
    let raw1 = raw.insert(x, u);
    let rank1 = rank_first(rank, x);
    let vs = ty::fv(u).insert(x);
    unify::lemma_bind(m, x, u, vs);
    assert(raw1.dom() =~= s1.dom());
    assert forall|y: Str| #[trigger] raw1.contains_key(y) implies ty::apply(raw1[y], s1) == s1[y] && rank1[y]
        < top + 1 && following::ranked(raw1[y], raw1, rank1, rank1[y]) by {
        if y == x {
            assert(s1[x] == u);
            assert forall|z: Str| #[trigger] ty::fv(u).contains(z) && raw1.contains_key(z) implies rank1[z] < rank1[x] by {
                assert(raw.dom().contains(z));
            }
        } else {
            assert(raw.contains_key(y));
            assert(m.dom().contains(y));
            ty::lemma_apply_compose(raw[y], m, map![x => u]);
            assert(following::ranked(raw[y], raw, rank, rank[y]));
            assert forall|z: Str| #[trigger] ty::fv(raw[y]).contains(z) && raw1.contains_key(z) implies rank1[z]
                < rank1[y] by {
                if z != x {
                    assert(raw.contains_key(z));
                }
            }
        }
    }
}

/// Why two types do not unify.
#[derive(Debug, PartialEq, Eq)]
pub enum UnifyError {
    /// The types have different tops.
    Mismatch,
    /// The variable occurs in the type that it would have to be.
    Occurs { var: Name, typ: Type },
}

impl View for UnifyError {
    type V = Clash;

    open spec fn view(&self) -> Clash {
        match *self {
            UnifyError::Mismatch => Clash::Mismatch,
            UnifyError::Occurs { var, typ } => Clash::Occurs(var@, typ@),
        }
    }
}

/// Two types in a term that do not unify.
#[derive(Debug, PartialEq, Eq)]
pub struct TypeError {
    pub ctx: Term,
    pub left: Type,
    pub right: Type,
    pub cause: UnifyError,
}

/// The mathematical content of a type error.
pub struct Er {
    pub ctx: Tm,
    pub left: Ty,
    pub right: Ty,
    pub cause: Clash,
}

impl View for TypeError {
    type V = Er;

    open spec fn view(&self) -> Er {
        Er { ctx: self.ctx@, left: self.left@, right: self.right@, cause: self.cause@ }
    }
}

/// Unifies two types in a term.
pub open spec fn unify_in(st: St, t1: Ty, t2: Ty, ctx: Tm) -> Result<(Ty, St), Er> {
    match unify::unify(st.sub, t1, t2) {
        Ok((t, sub)) => Ok((t, St { sub, next: st.next })),
        Err(cause) => Err(Er { ctx, left: t1, right: t2, cause }),
    }
}

/// The variables of a scheme that it does not bind.
pub open spec fn scheme_fv(sch: Sch, sub: Map<Str, Ty>) -> Set<Str> {
    ty::fv(ty::apply(sch.typ, sub)).difference(sch.vars.to_set())
}

/// The variables of the schemes of an environment that they do not bind.
pub open spec fn env_fv(env: Map<Str, Sch>, sub: Map<Str, Ty>) -> Set<Str> {
    Set::new(
        |v: Str|
            exists|x: Str| #[trigger] env.contains_key(x) && scheme_fv(env[x], sub).contains(v),
    )
}

/// The variables of a scheme that it does not bind, where the entries of a table
/// are followed all but those of the variables that it binds.
pub open spec fn scheme_fv_in(sch: Sch, entries: Map<Str, Ty>) -> Set<Str> {
    ty::fv(following::end(sch.typ, entries, sch.vars.to_set())).difference(sch.vars.to_set())
}

/// The variables of schemes that they do not bind, and the table after its
/// entries were followed for one scheme after the other.
pub open spec fn schemes_fv_in(schs: Seq<Sch>, entries: Map<Str, Ty>) -> (Set<Str>, Map<Str, Ty>)
    decreases schs.len(),
{
    if schs.len() == 0 {
        (Set::empty(), entries)
    } else {
        let (vs, e) = schemes_fv_in(schs.drop_last(), entries);
        let sch = schs.last();
        (
            vs.union(scheme_fv_in(sch, e)),
            following::compressed(sch.typ, e, sch.vars.to_set()),
        )
    }
}

/// The schemes of an environment in the order of the names.
pub open spec fn schemes_of(env: Map<Str, Sch>) -> Seq<Sch> {
    let names = name::in_order(env.dom());
    Seq::new(names.len(), |i: int| env[names[i]])
}

/// None of the variables that a scheme binds is replaced.
pub open spec fn unbound(sch: Sch, sub: Map<Str, Ty>) -> bool {
    sch.vars.to_set().disjoint(sub.dom())
}

/// None of the variables that the schemes of an environment bind is replaced.
pub open spec fn all_unbound(env: Map<Str, Sch>, sub: Map<Str, Ty>) -> bool {
    forall|x: Str| #[trigger] env.contains_key(x) ==> unbound(env[x], sub)
}

/// The type with all variables bound that the environment does not hold.
pub open spec fn generalized(t: Ty, env: Map<Str, Sch>, sub: Map<Str, Ty>) -> Sch {
    let u = ty::apply(t, sub);
    Sch { vars: name::in_order(ty::fv(u).difference(env_fv(env, sub))), typ: u }
}

/// The given variables of the first type are in the second one.
pub open spec fn keeps_given(t: Ty, r: Ty, given: Set<Str>) -> bool {
    forall|v: Str| #[trigger] ty::fv(t).contains(v) && given.contains(v) ==> ty::fv(r).contains(v)
}

impl InferState {
    /// What takes the place of each variable that was replaced, as it was when it
    /// was replaced or last followed.
    pub closed spec fn entries(self) -> Map<Str, Ty> {
        self.subst@
    }

    /// The table and the substitution belong together.
    pub closed spec fn wf(self) -> bool {
        table(self.subst@, self.sub@, self.rank@, self.top@)
    }

    /// No type of the substitution holds a variable that is replaced.
    pub proof fn lemma_wf(&self)
        requires
            self.wf(),
        ensures
            unify::idempotent(self@.sub),
    {
        reveal(table);
    }

    pub fn new() -> (r: Self)
        ensures
            r.wf(),
            r@ == (St { sub: Map::empty(), next: 0 }),
    {
        let r = InferState {
            subst: Subst(NameMap::new()),
            var_gen: VarGen::new(),
            sub: Ghost(Map::empty()),
            rank: Ghost(Map::empty()),
            top: Ghost(0),
        };
        reveal(table);
        assert(r.subst@.dom() =~= r.sub@.dom());
        r
    }

    /// A new type variable.
    pub fn fresh(&mut self) -> (r: Type)
        requires
            old(self).wf(),
        ensures
            final(self).wf(),
            final(self)@ == (St { sub: old(self)@.sub, next: old(self)@.next + 1 }),
            r@ == ty::ty_var(name::base26(old(self)@.next)),
    {
        self.var_gen.fresh()
    }

    /// Follows the variables that the table replaces, all but the given ones.
    /// Every replaced variable that was met then has the followed type.
    fn prune_below(&mut self, typ: &Type, bound_vars: &NameSet, Ghost(bound): Ghost<nat>) -> (r: Type)
        requires
            old(self).wf(),
            following::ranked(typ@, old(self).subst@, old(self).rank@, bound),
            bound <= old(self).top@,
        ensures
            final(self).wf(),
            final(self)@ == old(self)@,
            final(self).rank == old(self).rank,
            final(self).top == old(self).top,
            final(self).subst@.dom() == old(self).subst@.dom(),
            following::ranked(r@, final(self).subst@, final(self).rank@, bound),
            ty::apply(r@, final(self)@.sub) == ty::apply(typ@, final(self)@.sub),
            following::is_followed(r@, final(self)@.sub, bound_vars@),
            keeps_given(typ@, r@, bound_vars@),
            following::is_followed(typ@, final(self)@.sub, bound_vars@) ==> r@ == typ@,
            r@ == following::followed(typ@, old(self).subst@, bound_vars@, old(self).top@),
            following::is_compressed_at(
                following::reached(typ@, old(self).subst@, bound_vars@),
                old(self).subst@,
                final(self).subst@,
                bound_vars@,
                old(self).top@,
            ),
        decreases bound, typ,
    {
        let is_bound = match typ {
            Type::Var(nam) => bound_vars.contains(nam),
            _ => false,
        };
        match typ {
            Type::Var(nam) => {
                if is_bound {
                    proof {
                        following::lemma_compressed_none(typ@, self.subst@, bound_vars@, self.top@);
                    }
                    return typ.clone();
                }
                proof {
                    lemma_table(self.subst@, self.sub@, self.rank@, self.top@, typ@);
                    lemma_table_ranked(self.subst@, self.sub@, self.rank@, self.top@);
                    assert(ty::fv(typ@).contains(nam@));
                    assert(self.subst@.dom().contains(nam@) == self.sub@.dom().contains(nam@));
                }
                let found = match self.subst.0.get(nam) {
                    Some(new) => Some(new.clone()),
                    None => None,
                };
                match found {
                    Some(new) => {
                        let ghost x = nam@;
                        proof {
                            lemma_table_get(self.subst@, self.sub@, self.rank@, self.top@, x);
                        }
                        let pruned = self.prune_below(&new, bound_vars, Ghost(self.rank@[x]));
                        let ghost mid = *self;
                        proof {
                            assert(mid.subst@.dom().contains(x));
                            lemma_table_compress(mid.subst@, mid.sub@, mid.rank@, mid.top@, x, pruned@);
                            let raw = old(self).subst@;
                            let (ends, top) = (bound_vars@, mid.top@);
                            following::lemma_compressed_var(typ@, raw, mid.subst@, ends, top, x);
                            following::lemma_followed_ends(
                                raw[x],
                                raw,
                                ends,
                                mid.rank@,
                                top,
                                mid.rank@[x],
                                (top - 1) as nat,
                            );
                            following::lemma_followed_more(raw[x], raw, ends, (top - 1) as nat, top);
                        }
                        self.subst.0.insert(nam.clone(), pruned.clone());
                        pruned
                    },
                    None => {
                        proof {
                            following::lemma_compressed_none(
                                typ@,
                                self.subst@,
                                bound_vars@,
                                self.top@,
                            );
                        }
                        typ.clone()
                    },
                }
            },
            _ => {
                let kids = typ.children();
                let mut ks: Vec<Type> = Vec::new();
                let n: usize = kids.len();
                let mut i: usize = 0;
                let ghost m = self@.sub;
                let ghost raw = self.subst@;
                proof {
                    lemma_table_ranked(self.subst@, self.sub@, self.rank@, self.top@);
                    assert(following::all_reached(typ@.kids, 0, raw, bound_vars@) =~= Set::empty());
                }
                while i < n
                    invariant
                        i <= n,
                        raw == old(self).subst@,
                        following::is_ranked(raw, self.rank@, self.top@),
                        following::ranked(typ@, raw, self.rank@, bound),
                        bound <= self.top@,
                        following::is_compressed_at(
                            following::all_reached(typ@.kids, i as int, raw, bound_vars@),
                            raw,
                            self.subst@,
                            bound_vars@,
                            self.top@,
                        ),
                        forall|j: int|
                            0 <= j < i ==> (#[trigger] ks@[j])@ == following::followed(
                                typ@.kids[j],
                                raw,
                                bound_vars@,
                                self.top@,
                            ),
                        n == kids@.len(),
                        n == typ@.kids.len(),
                        ks@.len() == i,
                        !(typ@.head is Var),
                        ty::ref_models(kids@) == typ@.kids,
                        forall|j: int| 0 <= j < n ==> decreases_to!(typ => #[trigger] kids@[j]),
                        self.wf(),
                        self@ == old(self)@,
                        m == self@.sub,
                        self.rank == old(self).rank,
                        self.top == old(self).top,
                        self.subst@.dom() == old(self).subst@.dom(),
                        following::ranked(typ@, self.subst@, self.rank@, bound),
                        forall|j: int| 0 <= j < i ==> following::ranked((#[trigger] ks@[j])@, self.subst@, self.rank@, bound),
                        forall|j: int|
                            0 <= j < i ==> ty::apply((#[trigger] ks@[j])@, m) == ty::apply(typ@.kids[j], m),
                        forall|j: int|
                            0 <= j < i ==> following::is_followed((#[trigger] ks@[j])@, m, bound_vars@)
                                && keeps_given(typ@.kids[j], ks@[j]@, bound_vars@) && (following::is_followed(
                                typ@.kids[j],
                                m,
                                bound_vars@,
                            ) ==> ks@[j]@ == typ@.kids[j]),
                    decreases n - i,
                {
                    let ghost before = *self;
                    proof {
                        assert(ty::ref_models(kids@)[i as int] == kids@[i as int]@);
                        assert(typ@.kids[i as int] == kids@[i as int]@);
                        assert forall|y: Str| #[trigger] ty::fv(kids@[i as int]@).contains(y) && self.subst@.contains_key(
                            y,
                        ) implies self.rank@[y] < bound by {
                            assert(ty::fv(typ@).contains(y));
                        }
                    }
                    let k = self.prune_below(kids[i], bound_vars, Ghost(bound));
                    ks.push(k);
                    proof {
                        assert forall|y: Str| #[trigger] ty::fv(typ@.kids[i as int]).contains(y)
                            && raw.contains_key(y) implies self.rank@[y] < bound by {
                            assert(ty::fv(typ@).contains(y));
                        }
                        following::lemma_compressed_at(
                            following::all_reached(typ@.kids, i as int, raw, bound_vars@),
                            raw,
                            before.subst@,
                            bound_vars@,
                            self.top@,
                        );
                        following::lemma_compressed(
                            typ@.kids[i as int],
                            raw,
                            before.subst@,
                            bound_vars@,
                            self.rank@,
                            self.top@,
                            bound,
                            self.top@,
                        );
                        following::lemma_compressed_next(
                            typ@.kids,
                            i as int,
                            raw,
                            before.subst@,
                            self.subst@,
                            bound_vars@,
                            self.rank@,
                            self.top@,
                        );
                        assert forall|j: int| 0 <= j <= i implies following::ranked(
                            (#[trigger] ks@[j])@,
                            self.subst@,
                            self.rank@,
                            bound,
                        ) by {
                            if j < i {
                                assert(following::ranked(ks@[j]@, before.subst@, before.rank@, bound));
                                assert forall|y: Str| #[trigger] ty::fv(ks@[j]@).contains(y) && self.subst@.contains_key(
                                    y,
                                ) implies self.rank@[y] < bound by {
                                    assert(before.subst@.dom().contains(y));
                                }
                            }
                        }
                        assert forall|y: Str| #[trigger] ty::fv(typ@).contains(y) && self.subst@.contains_key(y)
                            implies self.rank@[y] < bound by {
                            assert(before.subst@.dom().contains(y));
                        }
                    }
                    i += 1;
                }
                let r = typ.with_children(ks);
                proof {
                    following::lemma_reached_kids(typ@, raw, bound_vars@);
                    assert(r@.kids =~= following::followed(typ@, raw, bound_vars@, self.top@).kids) by {
                        assert forall|j: int| 0 <= j < n implies r@.kids[j] == following::followed(
                            #[trigger] typ@.kids[j],
                            raw,
                            bound_vars@,
                            self.top@,
                        ) by {
                            assert(r@.kids[j] == ks@[j]@);
                        }
                    }
                    ty::lemma_apply_kids(r@, m);
                    ty::lemma_apply_kids(typ@, m);
                    assert(ty::apply_all(r@.kids, m) =~= ty::apply_all(typ@.kids, m)) by {
                        assert forall|j: int| 0 <= j < n implies ty::apply(r@.kids[j], m) == ty::apply(
                            typ@.kids[j],
                            m,
                        ) by {
                            assert(r@.kids[j] == ks@[j]@);
                        }
                    }
                    assert forall|v: Str| #[trigger] ty::fv(r@).contains(v) implies (m.contains_key(v)
                        ==> bound_vars@.contains(v)) && (self.subst@.contains_key(v) ==> self.rank@[v] < bound) by {
                        let j = choose|j: int|
                            0 <= j < r@.kids.len() && ty::fv(#[trigger] r@.kids[j]).contains(v);
                        assert(r@.kids[j] == ks@[j]@);
                        assert(following::is_followed(ks@[j]@, m, bound_vars@));
                        assert(ty::fv(ks@[j]@).contains(v));
                        assert(following::ranked(ks@[j]@, self.subst@, self.rank@, bound));
                    }
                    assert forall|v: Str| #[trigger] ty::fv(typ@).contains(v) && bound_vars@.contains(
                        v,
                    ) implies ty::fv(r@).contains(v) by {
                        let j = choose|j: int|
                            0 <= j < typ@.kids.len() && ty::fv(#[trigger] typ@.kids[j]).contains(v);
                        assert(keeps_given(typ@.kids[j], ks@[j]@, bound_vars@));
                        assert(ty::fv(r@.kids[j]).contains(v));
                    }
                    if following::is_followed(typ@, m, bound_vars@) {
                        assert forall|j: int| 0 <= j < n implies #[trigger] r@.kids[j] == typ@.kids[j] by {
                            assert forall|v: Str| #[trigger] ty::fv(typ@.kids[j]).contains(v)
                                && m.contains_key(v) implies bound_vars@.contains(v) by {
                                assert(ty::fv(typ@).contains(v));
                            }
                            assert(following::is_followed(typ@.kids[j], m, bound_vars@));
                            assert(r@.kids[j] == ks@[j]@);
                        }
                        assert(r@.kids =~= typ@.kids);
                    }
                }
                r
            },
        }
    }

    /// Follows the variables that were replaced, all but the given ones.
    ///
    /// Following them again finds nothing to follow. If none of the given
    /// variables was replaced, the result is the substitution applied to the type.
    pub fn prune_except(&mut self, typ: &Type, bound_vars: &NameSet) -> (r: Type)
        requires
            old(self).wf(),
        ensures
            final(self).wf(),
            final(self)@ == old(self)@,
            ty::apply(r@, old(self)@.sub) == ty::apply(typ@, old(self)@.sub),
            following::is_followed(r@, old(self)@.sub, bound_vars@),
            following::is_end(typ@, old(self).entries(), bound_vars@, r@),
            final(self).entries() == following::compressed(
                typ@,
                old(self).entries(),
                bound_vars@,
            ),
            keeps_given(typ@, r@, bound_vars@),
            following::is_followed(typ@, old(self)@.sub, bound_vars@) ==> r@ == typ@,
            bound_vars@.disjoint(old(self)@.sub.dom()) ==> r@ == ty::apply(typ@, old(self)@.sub),
    {
        proof {
            lemma_table(self.subst@, self.sub@, self.rank@, self.top@, typ@);
        }
        let r = self.prune_below(typ, bound_vars, Ghost(self.top@));
        proof {
            lemma_table_ranked(
                old(self).subst@,
                old(self).sub@,
                old(self).rank@,
                old(self).top@,
            );
            following::lemma_compressed_ends(
                typ@,
                old(self).subst@,
                self.subst@,
                bound_vars@,
                self.rank@,
                self.top@,
            );
            if bound_vars@.disjoint(old(self)@.sub.dom()) {
                assert forall|v: Str| #[trigger] ty::fv(r@).contains(v) implies !old(self)@.sub.contains_key(v) by {
                    if old(self)@.sub.contains_key(v) {
                        assert(old(self)@.sub.dom().contains(v));
                    }
                }
                ty::lemma_apply_disjoint(r@, old(self)@.sub);
            }
        }
        r
    }

    /// The type under the substitution.
    pub fn prune(&mut self, typ: &Type) -> (r: Type)
        requires
            old(self).wf(),
        ensures
            final(self).wf(),
            final(self)@ == old(self)@,
            r@ == ty::apply(typ@, old(self)@.sub),
            final(self).entries() == following::compressed(
                typ@,
                old(self).entries(),
                Set::empty(),
            ),
    {
        let none = NameSet::new();
        assert(none@.disjoint(self@.sub.dom()));
        self.prune_except(typ, &none)
    }

    /// Whether the variable occurs in the type under the substitution.
    pub fn occurs(&mut self, var: &Name, typ: &Type) -> (r: bool)
        requires
            old(self).wf(),
        ensures
            final(self).wf(),
            final(self)@ == old(self)@,
            r == ty::fv(ty::apply(typ@, old(self)@.sub)).contains(var@),
    {
        let t = self.prune(typ);
        t.free_type_vars().contains(var)
    }

    /// Maps each name to a new variable.
    pub fn fresh_subst(&mut self, vars: &Vec<Name>) -> (r: Subst)
        requires
            old(self).wf(),
        ensures
            final(self).wf(),
            final(self)@ == (St { sub: old(self)@.sub, next: old(self)@.next + vars@.len() }),
            r@ == scheme::fresh_map(name::texts(vars@), old(self)@.next),
    {
        scheme::fresh_subst(vars, &mut self.var_gen)
    }

    /// The type of a scheme with new variables for those that it binds.
    pub fn instantiate(&mut self, scheme: &Scheme) -> (r: Type)
        requires
            old(self).wf(),
        ensures
            final(self).wf(),
            final(self)@ == (St {
                sub: old(self)@.sub,
                next: old(self)@.next + scheme@.vars.len(),
            }),
            r@ == ty::apply(scheme::instance(scheme@, old(self)@.next), old(self)@.sub),
    {
        let t = scheme.instantiate(&mut self.var_gen);
        self.prune(&t)
    }

    /// The type with every variable bound that does not occur in the environment.
    pub fn generalize(&mut self, typ: &Type, env: &TypeEnv) -> (r: Scheme)
        requires
            old(self).wf(),
        ensures
            final(self).wf(),
            final(self)@ == old(self)@,
            ({
                let u = ty::apply(typ@, old(self)@.sub);
                let e = following::compressed(typ@, old(self).entries(), Set::empty());
                let (vs, e1) = schemes_fv_in(schemes_of(env@), e);
                &&& r@ == (Sch { vars: name::in_order(ty::fv(u).difference(vs)), typ: u })
                &&& final(self).entries() == e1
            }),
            all_unbound(env@, old(self)@.sub) ==> r@ == generalized(typ@, env@, old(self)@.sub),
    {
        let typ = self.prune(typ);
        let vars_env = self.env_free_type_vars(env);
        let vars_t = typ.free_type_vars();
        let vars = vars_t.minus(&vars_env).to_vec();
        Scheme(vars, typ)
    }

    /// The variables of the environment that its schemes do not bind.
    pub fn env_free_type_vars(&mut self, env: &TypeEnv) -> (r: NameSet)
        requires
            old(self).wf(),
        ensures
            final(self).wf(),
            final(self)@ == old(self)@,
            (r@, final(self).entries()) == schemes_fv_in(schemes_of(env@), old(self).entries()),
            all_unbound(env@, old(self)@.sub) ==> r@ == env_fv(env@, old(self)@.sub),
    {
        let mut vars = NameSet::new();
        let n: usize = env.0.len();
        let ghost names = env.0.names();
        let ghost schs = schemes_of(env@);
        let ghost sub = self@.sub;
        let mut i: usize = 0;
        proof {
            name::lemma_in_order(names);
            assert(schs.take(0) =~= Seq::empty());
        }
        while i < n
            invariant
                i <= n,
                names == env.0.names(),
                names == name::in_order(env@.dom()),
                n == names.len(),
                names.to_set() == env@.dom(),
                schs == schemes_of(env@),
                sub == old(self)@.sub,
                self.wf(),
                self@ == old(self)@,
                (vars@, self.entries()) == schemes_fv_in(
                    schs.take(i as int),
                    old(self).entries(),
                ),
                all_unbound(env@, sub) ==> forall|v: Str| #[trigger]
                    vars@.contains(v) <==> exists|j: int|
                        0 <= j < i && scheme_fv(env@[#[trigger] names[j]], sub).contains(v),
            decreases n - i,
        {
            let scheme = env.0.value_at(i);
            proof {
                assert(names.contains(names[i as int]));
                assert(env@.dom().contains(names[i as int]));
                assert(schs.take(i + 1).drop_last() =~= schs.take(i as int));
                assert(schs.take(i + 1).last() == schs[i as int]);
                assert(schs[i as int] == scheme@);
            }
            let ghost before = vars@;
            let free = self.scheme_free_type_vars(scheme);
            vars.extend(&free);
            proof {
                if all_unbound(env@, sub) {
                    assert(env@.contains_key(names[i as int]));
                    assert forall|v: Str| #[trigger] vars@.contains(v) <==> exists|j: int|
                        0 <= j < i + 1 && scheme_fv(env@[#[trigger] names[j]], sub).contains(v) by {
                        if vars@.contains(v) {
                            if before.contains(v) {
                                let j = choose|j: int|
                                    0 <= j < i && scheme_fv(env@[#[trigger] names[j]], sub).contains(v);
                                assert(0 <= j < i + 1);
                            } else {
                                assert(scheme_fv(env@[names[i as int]], sub).contains(v));
                            }
                        }
                    }
                }
            }
            i += 1;
        }
        proof {
            assert(schs.take(n as int) =~= schs);
            if all_unbound(env@, sub) {
                assert forall|v: Str| vars@.contains(v) <==> env_fv(env@, sub).contains(v) by {
                    if vars@.contains(v) {
                        let j = choose|j: int|
                            0 <= j < n && scheme_fv(env@[#[trigger] names[j]], sub).contains(v);
                        assert(names.contains(names[j]));
                        assert(env@.contains_key(names[j]));
                    }
                    if env_fv(env@, sub).contains(v) {
                        let x = choose|x: Str| #[trigger]
                            env@.contains_key(x) && scheme_fv(env@[x], sub).contains(v);
                        assert(names.to_set().contains(x));
                        let j = choose|j: int| 0 <= j < names.len() && names[j] == x;
                        assert(scheme_fv(env@[names[j]], sub).contains(v));
                    }
                }
                assert(vars@ =~= env_fv(env@, sub));
            }
        }
        vars
    }

    /// The variables of a scheme that it does not bind.
    pub fn scheme_free_type_vars(&mut self, scheme: &Scheme) -> (r: NameSet)
        requires
            old(self).wf(),
        ensures
            final(self).wf(),
            final(self)@ == old(self)@,
            r@ == scheme_fv_in(scheme@, old(self).entries()),
            final(self).entries() == following::compressed(
                scheme@.typ,
                old(self).entries(),
                scheme@.vars.to_set(),
            ),
            unbound(scheme@, old(self)@.sub) ==> r@ == scheme_fv(scheme@, old(self)@.sub),
    {
        let bound_vars = NameSet::from_vec(&scheme.0);
        let typ = self.prune_except(&scheme.1, &bound_vars);
        proof {
            following::lemma_end(
                scheme@.typ,
                old(self).entries(),
                scheme@.vars.to_set(),
                typ@,
            );
        }
        typ.free_type_vars().minus(&bound_vars)
    }

    /// Replaces a variable that was not replaced before.
    pub fn bind_var(&mut self, var: &Name, typ: &Type) -> (r: Result<Type, UnifyError>)
        requires
            old(self).wf(),
            !old(self)@.sub.contains_key(var@),
        ensures
            final(self).wf(),
            final(self)@.next == old(self)@.next,
            match r {
                Ok(t) => unify::bind(old(self)@.sub, var@, typ@) == Ok::<_, Clash>((t@, final(self)@.sub)),
                Err(e) => {
                    &&& unify::bind(old(self)@.sub, var@, typ@) == Err::<(Ty, Map<Str, Ty>), _>(e@)
                    &&& final(self)@ == old(self)@
                },
            },
    {
        let ghost s = self@.sub;
        let ghost typ0 = *typ;
        let typ = self.prune(typ);
        proof {
            self.lemma_wf();
            unify::lemma_idempotent_apply(s, typ0@);
        }
        if let Type::Var(other) = &typ {
            if other.same(var) {
                return Ok(typ);
            }
        }
        if self.occurs(var, &typ) {
            return Err(UnifyError::Occurs { var: var.clone(), typ });
        }
        let ghost before = *self;
        self.subst.0.insert(var.clone(), typ.clone());
        proof {
            lemma_table_bind(before.subst@, s, before.rank@, before.top@, var@, typ@);
            self.sub = Ghost(unify::and_then(s, var@, typ@));
            self.rank = Ghost(rank_first(before.rank@, var@));
            self.top = Ghost(before.top@ + 1);
        }
        Ok(typ)
    }

    /// Makes two types agree and returns the type that they then both are.
    pub fn unify(&mut self, t1: &Type, t2: &Type) -> (r: Result<Type, UnifyError>)
        requires
            old(self).wf(),
        ensures
            final(self).wf(),
            final(self)@.next == old(self)@.next,
            match r {
                Ok(t) => unify::unify(old(self)@.sub, t1@, t2@) == Ok::<_, Clash>((t@, final(self)@.sub)),
                Err(e) => unify::unify(old(self)@.sub, t1@, t2@) == Err::<(Ty, Map<Str, Ty>), _>(e@),
            },
        decreases
            unify::work(old(self)@.sub, t1@, t2@).vars,
            unify::work(old(self)@.sub, t1@, t2@).symbols,
            0nat,
    {
        let ghost s = self@.sub;
        let a = self.prune(t1);
        let b = self.prune(t2);
        proof {
            self.lemma_wf();
            unify::lemma_idempotent_apply(s, t1@);
            unify::lemma_idempotent_apply(s, t2@);
        }
        match &b {
            Type::Hole => {
                return Ok(a);
            },
            _ => {},
        }
        match &a {
            Type::Hole => {
                return Ok(b);
            },
            _ => {},
        }
        // When one side is a variable, bind the right-side variable first.
        // This keeps the names of type variables in diagnostics stable.
        if let Type::Var(x) = &b {
            assert(ty::fv(b@).contains(x@));
            return self.bind_var(x, &a);
        }
        if let Type::Var(x) = &a {
            assert(ty::fv(a@).contains(x@));
            return self.bind_var(x, &b);
        }
        proof {
            unify::lemma_less_same(s, t1@, t2@);
            unify::lemma_less_number(s, t1@, t2@);
            unify::lemma_less_any(s, t1@, t2@);
        }
        let xs = a.children();
        let ys = b.children();
        if a.same_head(&b) && xs.len() == ys.len() {
            return match self.unify_children(&xs, &ys) {
                Ok(ts) => {
                    let t = a.with_children(ts);
                    Ok(self.prune(&t))
                },
                Err(e) => Err(e),
            };
        }
        match (&a, &b) {
            (Type::Number(n), Type::Integer(i)) | (Type::Integer(i), Type::Number(n)) => {
                match self.unify(i, n) {
                    Ok(t) => {
                        let r = Type::Integer(Box::new(t));
                        Ok(r)
                    },
                    Err(e) => Err(e),
                }
            },
            (Type::Number(n), Type::U24 | Type::I24 | Type::F24)
            | (Type::Integer(n), Type::U24 | Type::I24 | Type::F24) => self.unify(n, &b),
            (Type::U24 | Type::I24 | Type::F24, Type::Number(n))
            | (Type::U24 | Type::I24 | Type::F24, Type::Integer(n)) => self.unify(n, &a),
            (Type::Any, _) => match self.unify_any(&ys) {
                Ok(()) => Ok(Type::Any),
                Err(e) => Err(e),
            },
            (_, Type::Any) => match self.unify_any(&xs) {
                Ok(()) => Ok(Type::Any),
                Err(e) => Err(e),
            },
            _ => Err(UnifyError::Mismatch),
        }
    }

    /// Makes two types agree that occur in the given term.
    pub fn unify_term(&mut self, t1: &Type, t2: &Type, ctx: &Term) -> (r: Result<Type, TypeError>)
        requires
            old(self).wf(),
        ensures
            final(self).wf(),
            final(self)@.next == old(self)@.next,
            match r {
                Ok(t) => unify_in(old(self)@, t1@, t2@, ctx@) == Ok::<_, Er>((t@, final(self)@)),
                Err(e) => unify_in(old(self)@, t1@, t2@, ctx@) == Err::<(Ty, St), _>(e@),
            },
    {
        match self.unify(t1, t2) {
            Ok(t) => Ok(t),
            Err(cause) => Err(
                TypeError { ctx: ctx.clone(), left: t1.clone(), right: t2.clone(), cause },
            ),
        }
    }

    /// Unifies two lists of types pair by pair.
    fn unify_children(&mut self, xs: &Vec<&Type>, ys: &Vec<&Type>) -> (r: Result<Vec<Type>, UnifyError>)
        requires
            old(self).wf(),
            xs@.len() == ys@.len(),
        ensures
            final(self).wf(),
            final(self)@.next == old(self)@.next,
            match r {
                Ok(ts) => {
                    &&& ts@.len() == xs@.len()
                    &&& unify::unify_all(
                        old(self)@.sub,
                        ty::ref_models(xs@),
                        ty::ref_models(ys@),
                        Seq::empty(),
                    ) == Ok::<_, Clash>((ty::models(ts@), final(self)@.sub))
                },
                Err(e) => unify::unify_all(
                    old(self)@.sub,
                    ty::ref_models(xs@),
                    ty::ref_models(ys@),
                    Seq::empty(),
                ) == Err::<(Seq<Ty>, Map<Str, Ty>), _>(e@),
            },
        decreases
            unify::list_work(old(self)@.sub, ty::ref_models(xs@), ty::ref_models(ys@)).vars,
            unify::list_work(old(self)@.sub, ty::ref_models(xs@), ty::ref_models(ys@)).symbols,
            1nat,
    {
        let ghost (us, vs) = (ty::ref_models(xs@), ty::ref_models(ys@));
        let ghost s0 = self@.sub;
        let mut ts: Vec<Type> = Vec::new();
        let n: usize = xs.len();
        let mut i: usize = 0;
        proof {
            assert(us.skip(0) =~= us);
            assert(vs.skip(0) =~= vs);
            assert(ty::models(ts@) =~= Seq::<Ty>::empty());
        }
        while i < n
            invariant
                i <= n,
                n == xs@.len(),
                n == ys@.len(),
                us == ty::ref_models(xs@),
                vs == ty::ref_models(ys@),
                s0 == old(self)@.sub,
                ts@.len() == i,
                self.wf(),
                self@.next == old(self)@.next,
                unify::unify_all(s0, us, vs, Seq::empty()) == unify::unify_all(
                    self@.sub,
                    us.skip(i as int),
                    vs.skip(i as int),
                    ty::models(ts@),
                ),
                ({
                    let a = unify::list_work(self@.sub, us.skip(i as int), vs.skip(i as int));
                    let b = unify::list_work(s0, us, vs);
                    a == b || unify::less(a, b)
                }),
            decreases n - i,
        {
            let ghost s = self@.sub;
            let ghost (ur, vr) = (us.skip(i as int), vs.skip(i as int));
            let ghost before = ts@;
            proof {
                self.lemma_wf();
                unify::lemma_less_first(s, ur, vr);
                unify::lemma_unify(s, ur[0], vr[0]);
                assert(ur[0] == xs@[i as int]@);
                assert(vr[0] == ys@[i as int]@);
            }
            match self.unify(xs[i], ys[i]) {
                Ok(t) => {
                    ts.push(t);
                    proof {
                        unify::lemma_grows_more(self@.sub, s, unify::vars(s, ur[0], vr[0]), unify::list_vars(s, ur, vr));
                        unify::lemma_less_rest(s, self@.sub, ur, vr);
                        assert(ur.drop_first() =~= us.skip(i + 1));
                        assert(vr.drop_first() =~= vs.skip(i + 1));
                        assert(ty::models(ts@) =~= ty::models(before).push(t@));
                    }
                },
                Err(e) => {
                    return Err(e);
                },
            }
            i += 1;
        }
        Ok(ts)
    }

    /// Unifies each type with `Any`.
    fn unify_any(&mut self, xs: &Vec<&Type>) -> (r: Result<(), UnifyError>)
        requires
            old(self).wf(),
        ensures
            final(self).wf(),
            final(self)@.next == old(self)@.next,
            match r {
                Ok(()) => unify::unify_any(old(self)@.sub, ty::ref_models(xs@)) == Ok::<_, Clash>(final(self)@.sub),
                Err(e) => unify::unify_any(old(self)@.sub, ty::ref_models(xs@)) == Err::<Map<Str, Ty>, _>(e@),
            },
        decreases
            unify::any_work(old(self)@.sub, ty::ref_models(xs@)).vars,
            unify::any_work(old(self)@.sub, ty::ref_models(xs@)).symbols,
            1nat,
    {
        let ghost us = ty::ref_models(xs@);
        let ghost s0 = self@.sub;
        let any = Type::Any;
        let n: usize = xs.len();
        let mut i: usize = 0;
        proof {
            assert(us.skip(0) =~= us);
        }
        while i < n
            invariant
                i <= n,
                n == xs@.len(),
                us == ty::ref_models(xs@),
                s0 == old(self)@.sub,
                any@ == ty::leaf(Head::Any),
                self.wf(),
                self@.next == old(self)@.next,
                unify::unify_any(s0, us) == unify::unify_any(self@.sub, us.skip(i as int)),
                ({
                    let a = unify::any_work(self@.sub, us.skip(i as int));
                    let b = unify::any_work(s0, us);
                    a == b || unify::less(a, b)
                }),
            decreases n - i,
        {
            let ghost s = self@.sub;
            let ghost ur = us.skip(i as int);
            proof {
                self.lemma_wf();
                unify::lemma_less_any_first(s, ur);
                unify::lemma_unify(s, any@, ur[0]);
                assert(ur[0] == xs@[i as int]@);
            }
            match self.unify(&any, xs[i]) {
                Ok(_) => {
                    proof {
                        unify::lemma_grows_more(
                            self@.sub,
                            s,
                            unify::vars(s, any@, ur[0]),
                            ty::fvs(ty::apply_all(ur, s)),
                        );
                        unify::lemma_less_any_rest(s, self@.sub, ur);
                        assert(ur.drop_first() =~= us.skip(i + 1));
                    }
                },
                Err(e) => {
                    return Err(e);
                },
            }
            i += 1;
        }
        Ok(())
    }
}

} // verus!
