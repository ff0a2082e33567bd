//! The types that constructors, unchecked functions and nets are given.

use crate::fun::book::{Am, Bk, Cm, Hm};
use crate::fun::check::scheme::Sch;
use crate::fun::check::type_check;
use crate::fun::check::type_check::Types;
use crate::fun::term::Dm;
use crate::fun::ty;
use crate::fun::ty::Ty;
use crate::name;
use crate::name::Str;
use vstd::prelude::*;

verus! {

/// The name has the type, with all its variables bound.
pub open spec fn has_given(types: Types, x: Str, t: Ty) -> bool {
    types.contains_key(x) && types[x] == (Sch { vars: name::in_order(ty::fv(t)), typ: t })
}

/// What is under the name is the same.
spec fn is_same(types: Types, types1: Types, x: Str) -> bool {
    types1.contains_key(x) == types.contains_key(x) && types1[x] == types[x]
}

proof fn lemma_nets(types: Types, defs: Map<Str, Hm>, names: Seq<Str>, x: Str, t: Ty)
    requires
        forall|i: int|
            0 <= i < names.len() && defs[#[trigger] names[i]].name == x ==> defs[names[i]].typ == t,
    ensures
        ({
            let r = type_check::add_hvm(types, defs, names);
            &&& (exists|i: int| 0 <= i < names.len() && defs[#[trigger] names[i]].name == x)
                ==> has_given(r, x, t)
            &&& (forall|i: int| 0 <= i < names.len() ==> !(defs[#[trigger] names[i]].name == x))
                ==> is_same(types, r, x)
            &&& has_given(types, x, t) ==> has_given(r, x, t)
        }),
    decreases names.len(),
{
    if names.len() > 0 {
        let d = defs[names[0]];
        let rest = names.drop_first();
        let next = types.insert(
            d.name,
            Sch { vars: name::in_order(ty::fv(d.typ)), typ: d.typ },
        );
        assert forall|i: int|
            0 <= i < rest.len() && defs[#[trigger] rest[i]].name == x implies defs[rest[i]].typ
            == t by {
            assert(rest[i] == names[i + 1]);
        }
        lemma_nets(next, defs, rest, x, t);
        if exists|i: int| 0 <= i < names.len() && defs[#[trigger] names[i]].name == x {
            let i = choose|i: int| 0 <= i < names.len() && defs[#[trigger] names[i]].name == x;
            if i > 0 {
                assert(rest[i - 1] == names[i]);
                assert(defs[rest[i - 1]].name == x);
            }
        }
        if forall|i: int| 0 <= i < names.len() ==> !(defs[#[trigger] names[i]].name == x) {
            assert(!(defs[names[0]].name == x));
            assert forall|i: int| 0 <= i < rest.len() implies !(defs[#[trigger] rest[i]].name == x) by {
                assert(rest[i] == names[i + 1]);
            }
        }
        if defs[names[0]].name == x {
            assert(has_given(next, x, t));
        }
    }
}

proof fn lemma_unchecked(types: Types, defs: Map<Str, Dm>, names: Seq<Str>, x: Str, t: Ty)
    requires
        forall|i: int|
            0 <= i < names.len() && !defs[#[trigger] names[i]].check && defs[names[i]].name == x ==> defs[names[i]].typ == t,
    ensures
        ({
            let r = type_check::add_unchecked(types, defs, names);
            &&& (exists|i: int| 0 <= i < names.len() && !defs[#[trigger] names[i]].check && defs[names[i]].name == x)
                ==> has_given(r, x, t)
            &&& (forall|i: int| 0 <= i < names.len() ==> !(!defs[#[trigger] names[i]].check && defs[names[i]].name == x))
                ==> is_same(types, r, x)
            &&& has_given(types, x, t) ==> has_given(r, x, t)
        }),
    decreases names.len(),
{
    if names.len() > 0 {
        let d = defs[names[0]];
        let rest = names.drop_first();
        let next = if d.check {
            types
        } else {
            types.insert(d.name, Sch { vars: name::in_order(ty::fv(d.typ)), typ: d.typ })
        };
        assert forall|i: int|
            0 <= i < rest.len() && !defs[#[trigger] rest[i]].check && defs[rest[i]].name == x implies defs[rest[i]].typ
            == t by {
            assert(rest[i] == names[i + 1]);
        }
        lemma_unchecked(next, defs, rest, x, t);
        if exists|i: int| 0 <= i < names.len() && !defs[#[trigger] names[i]].check && defs[names[i]].name == x {
            let i = choose|i: int| 0 <= i < names.len() && !defs[#[trigger] names[i]].check && defs[names[i]].name == x;
            if i > 0 {
                assert(rest[i - 1] == names[i]);
                assert(!defs[rest[i - 1]].check && defs[rest[i - 1]].name == x);
            }
        }
        if forall|i: int| 0 <= i < names.len() ==> !(!defs[#[trigger] names[i]].check && defs[names[i]].name == x) {
            assert(!(!defs[names[0]].check && defs[names[0]].name == x));
            assert forall|i: int| 0 <= i < rest.len() implies !(!defs[#[trigger] rest[i]].check && defs[rest[i]].name == x) by {
                assert(rest[i] == names[i + 1]);
            }
        }
        if !defs[names[0]].check && defs[names[0]].name == x {
            assert(has_given(next, x, t));
        }
    }
}

proof fn lemma_ctrs(types: Types, defs: Map<Str, Cm>, names: Seq<Str>, x: Str, t: Ty)
    requires
        forall|i: int|
            0 <= i < names.len() && defs[#[trigger] names[i]].name == x ==> defs[names[i]].typ == t,
    ensures
        ({
            let r = type_check::add_ctrs(types, defs, names);
            &&& (exists|i: int| 0 <= i < names.len() && defs[#[trigger] names[i]].name == x)
                ==> has_given(r, x, t)
            &&& (forall|i: int| 0 <= i < names.len() ==> !(defs[#[trigger] names[i]].name == x))
                ==> is_same(types, r, x)
            &&& has_given(types, x, t) ==> has_given(r, x, t)
        }),
    decreases names.len(),
{
    if names.len() > 0 {
        let d = defs[names[0]];
        let rest = names.drop_first();
        let next = types.insert(
            d.name,
            Sch { vars: name::in_order(ty::fv(d.typ)), typ: d.typ },
        );
        assert forall|i: int|
            0 <= i < rest.len() && defs[#[trigger] rest[i]].name == x implies defs[rest[i]].typ
            == t by {
            assert(rest[i] == names[i + 1]);
        }
        lemma_ctrs(next, defs, rest, x, t);
        if exists|i: int| 0 <= i < names.len() && defs[#[trigger] names[i]].name == x {
            let i = choose|i: int| 0 <= i < names.len() && defs[#[trigger] names[i]].name == x;
            if i > 0 {
                assert(rest[i - 1] == names[i]);
                assert(defs[rest[i - 1]].name == x);
            }
        }
        if forall|i: int| 0 <= i < names.len() ==> !(defs[#[trigger] names[i]].name == x) {
            assert(!(defs[names[0]].name == x));
            assert forall|i: int| 0 <= i < rest.len() implies !(defs[#[trigger] rest[i]].name == x) by {
                assert(rest[i] == names[i + 1]);
            }
        }
        if defs[names[0]].name == x {
            assert(has_given(next, x, t));
        }
    }
}

/// Every constructor of the datatype with the name has the type.
spec fn is_type_of(ctrs: Map<Str, Cm>, x: Str, t: Ty) -> bool {
    forall|c: Str| #[trigger] ctrs.contains_key(c) && ctrs[c].name == x ==> ctrs[c].typ == t
}

proof fn lemma_adts(types: Types, adts: Map<Str, Am>, names: Seq<Str>, x: Str, t: Ty)
    requires
        forall|i: int|
            0 <= i < names.len() ==> (#[trigger] adts[names[i]]).ctrs.dom().finite() && is_type_of(
                adts[names[i]].ctrs,
                x,
                t,
            ),
    ensures
        ({
            let r = type_check::add_adts(types, adts, names);
            &&& (exists|i: int|
                0 <= i < names.len() && type_check::is_ctr_in((#[trigger] adts[names[i]]).ctrs, x))
                ==> has_given(r, x, t)
            &&& has_given(types, x, t) ==> has_given(r, x, t)
        }),
    decreases names.len(),
{
    if names.len() > 0 {
        let ctrs = adts[names[0]].ctrs;
        let cs = name::in_order(ctrs.dom());
        let next = type_check::add_ctrs(types, ctrs, cs);
        let rest = names.drop_first();
        name::lemma_finite_in_order(ctrs.dom());
        assert forall|i: int| 0 <= i < cs.len() && ctrs[#[trigger] cs[i]].name == x implies ctrs[cs[i]].typ
            == t by {
            assert(cs.to_set().contains(cs[i]));
            assert(ctrs.contains_key(cs[i]));
        }
        lemma_ctrs(types, ctrs, cs, x, t);
        assert forall|i: int| 0 <= i < rest.len() implies (#[trigger] adts[rest[i]]).ctrs.dom().finite()
            && is_type_of(adts[rest[i]].ctrs, x, t) by {
            assert(adts[rest[i]] == adts[names[i + 1]]);
        }
        lemma_adts(next, adts, rest, x, t);
        if type_check::is_ctr_in(ctrs, x) {
            let c = choose|c: Str| #[trigger] ctrs.contains_key(c) && ctrs[c].name == x;
            assert(cs.to_set().contains(c));
            let i = choose|i: int| 0 <= i < cs.len() && cs[i] == c;
            assert(ctrs[cs[i]].name == x);
        }
        if exists|i: int|
            0 <= i < names.len() && type_check::is_ctr_in((#[trigger] adts[names[i]]).ctrs, x) {
            let i = choose|i: int|
                0 <= i < names.len() && type_check::is_ctr_in((#[trigger] adts[names[i]]).ctrs, x);
            if i > 0 {
                assert(adts[rest[i - 1]] == adts[names[i]]);
            }
        }
    }
}

/// A net has the type that it is declared with.
pub proof fn law_given_net(bk: Bk, x: Str)
    requires
        bk.hvm_defs.dom().finite(),
        forall|n: Str| #[trigger] bk.hvm_defs.contains_key(n) ==> bk.hvm_defs[n].name == n,
        bk.hvm_defs.contains_key(x),
    ensures
        has_given(type_check::given_types(bk), x, bk.hvm_defs[x].typ),
{
    let ns = name::in_order(bk.hvm_defs.dom());
    let a = type_check::add_adts(Map::empty(), bk.adts, name::in_order(bk.adts.dom()));
    let b = type_check::add_unchecked(a, bk.defs, name::in_order(bk.defs.dom()));
    lemma_names(bk.hvm_defs.dom());
    assert forall|i: int| 0 <= i < ns.len() && bk.hvm_defs[#[trigger] ns[i]].name == x implies bk.hvm_defs[ns[i]].typ
        == bk.hvm_defs[x].typ by {
        assert(ns.contains(ns[i]));
        assert(bk.hvm_defs.contains_key(ns[i]));
    }
    lemma_nets(b, bk.hvm_defs, ns, x, bk.hvm_defs[x].typ);
    assert(ns.contains(x));
    let i = choose|i: int| 0 <= i < ns.len() && ns[i] == x;
    assert(bk.hvm_defs[ns[i]].name == x);
}

proof fn lemma_names(s: Set<Str>)
    requires
        s.finite(),
    ensures
        forall|x: Str| #[trigger] name::in_order(s).contains(x) <==> s.contains(x),
{
    name::lemma_finite_in_order(s);
    assert forall|x: Str| #[trigger] name::in_order(s).contains(x) <==> s.contains(x) by {
        assert(name::in_order(s).to_set().contains(x) <==> s.contains(x));
    }
}

/// A function that is not checked has the type of its annotation, unless a net has
/// its name.
pub proof fn law_given_unchecked(bk: Bk, x: Str)
    requires
        bk.defs.dom().finite(),
        bk.hvm_defs.dom().finite(),
        forall|n: Str| #[trigger] bk.defs.contains_key(n) ==> bk.defs[n].name == n,
        bk.defs.contains_key(x),
        !bk.defs[x].check,
        !type_check::is_net(bk, x),
    ensures
        has_given(type_check::given_types(bk), x, bk.defs[x].typ),
{
    let ns = name::in_order(bk.defs.dom());
    let hs = name::in_order(bk.hvm_defs.dom());
    let t = bk.defs[x].typ;
    let a = type_check::add_adts(Map::empty(), bk.adts, name::in_order(bk.adts.dom()));
    let b = type_check::add_unchecked(a, bk.defs, ns);
    lemma_names(bk.defs.dom());
    lemma_names(bk.hvm_defs.dom());
    assert forall|i: int|
        0 <= i < ns.len() && !bk.defs[#[trigger] ns[i]].check && bk.defs[ns[i]].name == x implies bk.defs[ns[i]].typ
        == t by {
        assert(ns.contains(ns[i]));
        assert(bk.defs.contains_key(ns[i]));
    }
    lemma_unchecked(a, bk.defs, ns, x, t);
    assert(ns.contains(x));
    let i = choose|i: int| 0 <= i < ns.len() && ns[i] == x;
    assert(!bk.defs[ns[i]].check && bk.defs[ns[i]].name == x);
    lemma_no_net(bk, x);
    lemma_nets(b, bk.hvm_defs, hs, x, t);
}

proof fn lemma_no_net(bk: Bk, x: Str)
    requires
        bk.hvm_defs.dom().finite(),
        !type_check::is_net(bk, x),
    ensures
        forall|i: int|
            0 <= i < name::in_order(bk.hvm_defs.dom()).len()
                ==> bk.hvm_defs[#[trigger] name::in_order(bk.hvm_defs.dom())[i]].name != x,
{
    let hs = name::in_order(bk.hvm_defs.dom());
    lemma_names(bk.hvm_defs.dom());
    assert forall|i: int| 0 <= i < hs.len() implies bk.hvm_defs[#[trigger] hs[i]].name != x by {
        assert(hs.contains(hs[i]));
        assert(bk.hvm_defs.contains_key(hs[i]));
    }
}

/// A constructor has the type that its datatype gives it, unless an unchecked
/// function or a net has its name, or a constructor with another type.
pub proof fn law_given_constructor(bk: Bk, a: Str, c: Str)
    requires
        bk.adts.dom().finite(),
        bk.defs.dom().finite(),
        bk.hvm_defs.dom().finite(),
        forall|n: Str| #[trigger] bk.adts.contains_key(n) ==> bk.adts[n].ctrs.dom().finite(),
        bk.adts.contains_key(a),
        bk.adts[a].ctrs.contains_key(c),
        forall|b: Str, d: Str|
            bk.adts.contains_key(b) && (#[trigger] bk.adts[b].ctrs).contains_key(d) && (
            #[trigger] bk.adts[b].ctrs[d]).name == bk.adts[a].ctrs[c].name ==> bk.adts[b].ctrs[d].typ
                == bk.adts[a].ctrs[c].typ,
        !type_check::is_unchecked(bk, bk.adts[a].ctrs[c].name),
        !type_check::is_net(bk, bk.adts[a].ctrs[c].name),
    ensures
        has_given(
            type_check::given_types(bk),
            bk.adts[a].ctrs[c].name,
            bk.adts[a].ctrs[c].typ,
        ),
{
    let x = bk.adts[a].ctrs[c].name;
    let t = bk.adts[a].ctrs[c].typ;
    let none = Map::<Str, Sch>::empty();
    let s = name::in_order(bk.adts.dom());
    let ns = name::in_order(bk.defs.dom());
    let hs = name::in_order(bk.hvm_defs.dom());
    lemma_names(bk.adts.dom());
    lemma_names(bk.defs.dom());
    assert forall|i: int| 0 <= i < s.len() implies (#[trigger] bk.adts[s[i]]).ctrs.dom().finite()
        && is_type_of(bk.adts[s[i]].ctrs, x, t) by {
        assert(s.contains(s[i]));
        assert(bk.adts.contains_key(s[i]));
        let ctrs = bk.adts[s[i]].ctrs;
        assert forall|d: Str| #[trigger] ctrs.contains_key(d) && ctrs[d].name == x implies ctrs[d].typ
            == t by {
            assert(bk.adts[s[i]].ctrs.contains_key(d) && bk.adts[s[i]].ctrs[d].name == x);
        }
    }
    lemma_adts(none, bk.adts, s, x, t);
    assert(s.contains(a));
    let i = choose|i: int| 0 <= i < s.len() && s[i] == a;
    assert(bk.adts[a].ctrs.contains_key(c) && bk.adts[a].ctrs[c].name == x);
    assert(type_check::is_ctr_in(bk.adts[s[i]].ctrs, x));
    let types = type_check::add_adts(none, bk.adts, s);
    assert forall|i: int| 0 <= i < ns.len() implies !(!bk.defs[#[trigger] ns[i]].check
        && bk.defs[ns[i]].name == x) by {
        assert(ns.contains(ns[i]));
        assert(bk.defs.contains_key(ns[i]));
    }
    lemma_unchecked(types, bk.defs, ns, x, t);
    lemma_no_net(bk, x);
    lemma_nets(type_check::add_unchecked(types, bk.defs, ns), bk.hvm_defs, hs, x, t);
}

} // verus!
