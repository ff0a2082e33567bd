//! Maps and sets of names, kept in the order of the names.

use crate::name;
use crate::name::{Name, Str};
use vstd::prelude::*;

verus! {

/// A map from names to values that is walked in the order of the names.
pub struct NameMap<V> {
    entries: Vec<(Name, V)>,
}

spec fn entry_names<V>(s: Seq<(Name, V)>) -> Seq<Str> {
    Seq::new(s.len(), |i: int| s[i].0@)
}

impl<V> NameMap<V> {
    #[verifier::type_invariant]
    spec fn inv(self) -> bool {
        name::sorted(entry_names(self.entries@))
    }

    /// The names in the map, in increasing order.
    pub closed spec fn names(self) -> Seq<Str> {
        entry_names(self.entries@)
    }
}

impl<V: View> View for NameMap<V> {
    type V = Map<Str, V::V>;

    closed spec fn view(&self) -> Map<Str, V::V> {
        Map::new(
            |k: Str| entry_names(self.entries@).contains(k),
            |k: Str| self.entries@[entry_names(self.entries@).index_of(k)].1@,
        )
    }
}

impl<V: View> NameMap<V> {
    /// A map has finitely many entries.
    pub proof fn lemma_finite(&self)
        ensures
            self@.dom().finite(),
    {
        let names = entry_names(self.entries@);
        vstd::seq_lib::seq_to_set_is_finite(names);
        assert(self@.dom() =~= names.to_set());
    }
}

/// The names of a map are in order and are its domain.
pub open spec fn names_of<T>(names: Seq<Str>, m: Map<Str, T>) -> bool {
    &&& name::sorted(names)
    &&& names.to_set() == m.dom()
}

/// Where a sorted sequence is cut by a text.
spec fn cut(names: Seq<Str>, k: Str, p: int) -> bool {
    &&& 0 <= p <= names.len()
    &&& forall|i: int| 0 <= i < p ==> name::str_lt(#[trigger] names[i], k)
    &&& forall|i: int| p <= i < names.len() ==> !name::str_lt(#[trigger] names[i], k)
}

proof fn lemma_cut_contains(names: Seq<Str>, k: Str, p: int)
    requires
        name::sorted(names),
        cut(names, k, p),
    ensures
        names.contains(k) <==> p < names.len() && names[p] == k,
        names.contains(k) ==> names.index_of(k) == p,
{
    name::lemma_sorted_no_duplicates(names);
    if names.contains(k) {
        let i = choose|i: int| 0 <= i < names.len() && names[i] == k;
        name::lemma_str_lt_irreflexive(k);
        assert(p <= i);
        if p < i {
            assert(name::str_lt(names[p], names[i]));
        }
        assert(p == i);
        let j = names.index_of(k);
        assert(names[j] == k);
    }
}

proof fn lemma_cut_insert(names: Seq<Str>, k: Str, p: int)
    requires
        name::sorted(names),
        cut(names, k, p),
        !names.contains(k),
    ensures
        name::sorted(names.insert(p, k)),
        names.insert(p, k).to_set() == names.to_set().insert(k),
{
    let s = names.insert(p, k);
    assert forall|i: int, j: int| 0 <= i < j < s.len() implies name::str_lt(#[trigger] s[i], #[trigger] s[j]) by {
        if j == p {
            assert(s[i] == names[i]);
        } else if i == p {
            assert(s[j] == names[j - 1]);
            name::lemma_str_lt_total(k, names[j - 1]);
            assert(names.contains(names[j - 1]));
        } else {
            let i0 = if i < p { i } else { i - 1 };
            let j0 = if j < p { j } else { j - 1 };
            assert(s[i] == names[i0] && s[j] == names[j0]);
        }
    }
    assert forall|x: Str| s.to_set().contains(x) <==> names.to_set().insert(k).contains(x) by {
        if s.contains(x) {
            let i = choose|i: int| 0 <= i < s.len() && s[i] == x;
            if i != p {
                let i0 = if i < p { i } else { i - 1 };
                assert(names[i0] == x);
            }
        }
        if names.contains(x) {
            let i = choose|i: int| 0 <= i < names.len() && names[i] == x;
            let i1 = if i < p { i } else { i + 1 };
            assert(s[i1] == x);
        }
        assert(s[p] == k);
    }
    assert(s.to_set() =~= names.to_set().insert(k));
}

proof fn lemma_cut_remove(names: Seq<Str>, k: Str, p: int)
    requires
        name::sorted(names),
        0 <= p < names.len(),
        names[p] == k,
    ensures
        name::sorted(names.remove(p)),
        names.remove(p).to_set() == names.to_set().remove(k),
{
    let s = names.remove(p);
    name::lemma_sorted_no_duplicates(names);
    assert forall|i: int, j: int| 0 <= i < j < s.len() implies name::str_lt(#[trigger] s[i], #[trigger] s[j]) by {
        let i0 = if i < p { i } else { i + 1 };
        let j0 = if j < p { j } else { j + 1 };
        assert(s[i] == names[i0] && s[j] == names[j0]);
    }
    assert forall|x: Str| s.to_set().contains(x) <==> names.to_set().remove(k).contains(x) by {
        if s.contains(x) {
            let i = choose|i: int| 0 <= i < s.len() && s[i] == x;
            let i0 = if i < p { i } else { i + 1 };
            assert(names[i0] == x);
        }
        if names.contains(x) && x != k {
            let i = choose|i: int| 0 <= i < names.len() && names[i] == x;
            let i1 = if i < p { i } else { i - 1 };
            assert(s[i1] == x);
        }
    }
    assert(s.to_set() =~= names.to_set().remove(k));
}

impl<V: View> NameMap<V> {
    pub fn new() -> (r: Self)
        ensures
            r@ == Map::<Str, V::V>::empty(),
            r.names() == Seq::<Str>::empty(),
    {
        let r = NameMap { entries: Vec::new() };
        assert(r.names() =~= Seq::<Str>::empty());
        assert(r@ =~= Map::<Str, V::V>::empty());
        r
    }

    /// What the names say about the map.
    proof fn lemma_view(&self)
        requires
            self.inv(),
        ensures
            names_of(self.names(), self@),
            forall|i: int|
                0 <= i < self.entries@.len() ==> self@[self.names()[i]] == (
                #[trigger] self.entries@[i]).1@,
    {
        assert(self.names().to_set() =~= self@.dom());
        name::lemma_sorted_no_duplicates(self.names());
        assert forall|i: int| 0 <= i < self.entries@.len() implies self@[self.names()[i]] == (
        #[trigger] self.entries@[i]).1@ by {
            assert(self.names().contains(self.names()[i]));
        }
    }

    /// The first position whose name does not come before the given one.
    fn position(&self, k: &Name) -> (p: usize)
        ensures
            cut(self.names(), k@, p as int),
    {
        proof {
            use_type_invariant(self);
        }
        let mut lo: usize = 0;
        let mut hi: usize = self.entries.len();
        while lo < hi
            invariant
                name::sorted(self.names()),
                self.names().len() == self.entries@.len(),
                lo <= hi <= self.entries@.len(),
                forall|i: int| 0 <= i < lo ==> name::str_lt(#[trigger] self.names()[i], k@),
                forall|i: int| hi <= i < self.names().len() ==> !name::str_lt(#[trigger] self.names()[i], k@),
            decreases hi - lo,
        {
            let mid: usize = lo + (hi - lo) / 2;
            assert(self.names()[mid as int] == self.entries@[mid as int].0@);
            if self.entries[mid].0.before(k) {
                assert forall|i: int| 0 <= i < mid + 1 implies name::str_lt(#[trigger] self.names()[i], k@) by {
                    if i < mid {
                        name::lemma_str_lt_transitive(self.names()[i], self.names()[mid as int], k@);
                    }
                }
                lo = mid + 1;
            } else {
                assert forall|i: int| mid <= i < self.names().len() implies !name::str_lt(
                    #[trigger] self.names()[i],
                    k@,
                ) by {
                    if mid < i && name::str_lt(self.names()[i], k@) {
                        name::lemma_str_lt_transitive(self.names()[mid as int], self.names()[i], k@);
                    }
                }
                hi = mid;
            }
        }
        lo
    }

    /// Finds the position of a name.
    fn find(&self, k: &Name) -> (r: Result<usize, usize>)
        ensures
            match r {
                Ok(p) => p < self.names().len() && self.names()[p as int] == k@
                    && self@.contains_key(k@),
                Err(p) => cut(self.names(), k@, p as int) && !self@.contains_key(k@),
            },
    {
        let p: usize = self.position(k);
        proof {
            use_type_invariant(self);
            self.lemma_view();
            lemma_cut_contains(self.names(), k@, p as int);
        }
        if p < self.entries.len() && self.entries[p].0.same(k) {
            Ok(p)
        } else {
            Err(p)
        }
    }

    pub fn len(&self) -> (r: usize)
        ensures
            r == self.names().len(),
            names_of(self.names(), self@),
    {
        proof {
            use_type_invariant(self);
            self.lemma_view();
        }
        self.entries.len()
    }

    /// The name at a position of the order.
    pub fn name_at(&self, i: usize) -> (r: &Name)
        requires
            i < self.names().len(),
        ensures
            r@ == self.names()[i as int],
            self@.contains_key(r@),
    {
        proof {
            use_type_invariant(self);
            self.lemma_view();
            assert(self.names().contains(self.names()[i as int]));
        }
        &self.entries[i].0
    }

    /// The value at a position of the order.
    pub fn value_at(&self, i: usize) -> (r: &V)
        requires
            i < self.names().len(),
        ensures
            r@ == self@[self.names()[i as int]],
            self@.contains_key(self.names()[i as int]),
    {
        proof {
            use_type_invariant(self);
            self.lemma_view();
            assert(self.names().contains(self.names()[i as int]));
        }
        &self.entries[i].1
    }

    /// The names in their order.
    pub fn keys(&self) -> (r: Vec<Name>)
        ensures
            name::texts(r@) == name::in_order(self@.dom()),
            name::in_order(self@.dom()).to_set() == self@.dom(),
            name::sorted(name::in_order(self@.dom())),
            r@.len() == name::in_order(self@.dom()).len(),
    {
        let n: usize = self.len();
        let mut r: Vec<Name> = Vec::new();
        let mut i: usize = 0;
        while i < n
            invariant
                i <= n,
                n == self.names().len(),
                r@.len() == i,
                forall|j: int| 0 <= j < i ==> (#[trigger] r@[j])@ == self.names()[j],
            decreases n - i,
        {
            r.push(self.name_at(i).clone());
            i += 1;
        }
        proof {
            name::lemma_in_order(self.names());
            assert(name::texts(r@) =~= self.names());
        }
        r
    }

    pub fn contains_key(&self, k: &Name) -> (r: bool)
        ensures
            r == self@.contains_key(k@),
    {
        self.find(k).is_ok()
    }

    pub fn get(&self, k: &Name) -> (r: Option<&V>)
        ensures
            match r {
                Some(v) => self@.contains_key(k@) && v@ == self@[k@],
                None => !self@.contains_key(k@),
            },
    {
        match self.find(k) {
            Ok(p) => {
                proof {
                    use_type_invariant(self);
                    self.lemma_view();
                    assert(self.entries@[p as int].1@ == self@[k@]);
                }
                Some(&self.entries[p].1)
            },
            Err(_) => None,
        }
    }

    /// Gives a name a value and returns the one it had.
    pub fn insert(&mut self, k: Name, v: V) -> (r: Option<V>)
        ensures
            final(self)@ == old(self)@.insert(k@, v@),
            old(self)@.contains_key(k@) ==> final(self).names() == old(self).names(),
            match r {
                Some(o) => old(self)@.contains_key(k@) && o@ == old(self)@[k@],
                None => !old(self)@.contains_key(k@),
            },
    {
        let pos = self.find(&k);
        proof {
            use_type_invariant(&*self);
            self.lemma_view();
        }
        let ghost before = *self;
        let mut entries: Vec<(Name, V)> = Vec::new();
        assert(entry_names(entries@) =~= Seq::<Str>::empty());
        std::mem::swap(&mut entries, &mut self.entries);
        let ghost e0 = entries@;
        match pos {
            Ok(p) => {
                let ghost key = k@;
                let mut cell = (k, v);
                std::mem::swap(&mut cell, &mut entries[p]);
                assert(entry_names(entries@) =~= entry_names(e0));
                self.entries = entries;
                proof {
                    self.lemma_view();
                    let (m, n) = (self@, before@.insert(key, v@));
                    assert forall|x: Str| n.contains_key(x) implies m.contains_key(x) && m[x]
                        == n[x] by {
                        assert(self.names().contains(x));
                        let i = choose|i: int| 0 <= i < self.names().len() && self.names()[i] == x;
                        assert(self.entries@[i].1@ == m[x]);
                        assert(before.entries@[i].1@ == before@[x]);
                        name::lemma_sorted_no_duplicates(self.names());
                    }
                    assert(m =~= n);
                }
                Some(cell.1)
            },
            Err(p) => {
                let ghost key = k@;
                proof {
                    lemma_cut_contains(before.names(), key, p as int);
                    lemma_cut_insert(before.names(), key, p as int);
                }
                entries.insert(p, (k, v));
                assert(entry_names(entries@) =~= entry_names(e0).insert(p as int, key));
                self.entries = entries;
                proof {
                    self.lemma_view();
                    let (m, n) = (self@, before@.insert(key, v@));
                    assert(m.dom() =~= n.dom());
                    assert forall|x: Str| n.contains_key(x) implies m[x] == n[x] by {
                        assert(self.names().contains(x));
                        let i = choose|i: int| 0 <= i < self.names().len() && self.names()[i] == x;
                        assert(self.entries@[i].1@ == m[x]);
                        if i != p {
                            let i0 = if i < p { i } else { i - 1 };
                            assert(before.entries@[i0] == self.entries@[i]);
                            assert(before.names()[i0] == x);
                            assert(before.entries@[i0].1@ == before@[x]);
                            assert(before.names().contains(x));
                        }
                    }
                    assert(m =~= n);
                }
                None
            },
        }
    }

    /// Takes a name out of the map and returns the value it had.
    pub fn remove(&mut self, k: &Name) -> (r: Option<V>)
        ensures
            final(self)@ == old(self)@.remove(k@),
            match r {
                Some(o) => old(self)@.contains_key(k@) && o@ == old(self)@[k@],
                None => !old(self)@.contains_key(k@),
            },
    {
        let pos = self.find(k);
        proof {
            use_type_invariant(&*self);
            self.lemma_view();
        }
        let ghost before = *self;
        match pos {
            Ok(p) => {
                let mut entries: Vec<(Name, V)> = Vec::new();
                assert(entry_names(entries@) =~= Seq::<Str>::empty());
                std::mem::swap(&mut entries, &mut self.entries);
                let ghost e0 = entries@;
                proof {
                    lemma_cut_remove(before.names(), k@, p as int);
                }
                let cell = entries.remove(p);
                assert(entry_names(entries@) =~= entry_names(e0).remove(p as int));
                self.entries = entries;
                proof {
                    self.lemma_view();
                    let (m, n) = (self@, before@.remove(k@));
                    assert(m.dom() =~= n.dom());
                    assert forall|x: Str| n.contains_key(x) implies m[x] == n[x] by {
                        assert(self.names().contains(x));
                        let i = choose|i: int| 0 <= i < self.names().len() && self.names()[i] == x;
                        assert(self.entries@[i].1@ == m[x]);
                        let i0 = if i < p { i } else { i + 1 };
                        assert(before.entries@[i0] == self.entries@[i]);
                        assert(before.names()[i0] == x);
                        assert(before.entries@[i0].1@ == before@[x]);
                    }
                    assert(m =~= n);
                    assert(before.entries@[p as int].1@ == before@[k@]);
                }
                Some(cell.1)
            },
            Err(_) => {
                assert(old(self)@.remove(k@) =~= old(self)@);
                None
            },
        }
    }
}

/// A set of names that is walked in their order.
pub struct NameSet {
    items: Vec<Name>,
}

spec fn item_names(s: Seq<Name>) -> Seq<Str> {
    Seq::new(s.len(), |i: int| s[i]@)
}

impl View for NameSet {
    type V = Set<Str>;

    closed spec fn view(&self) -> Set<Str> {
        self.names().to_set()
    }
}

impl NameSet {
    #[verifier::type_invariant]
    spec fn inv(self) -> bool {
        name::sorted(item_names(self.items@))
    }

    /// The names in the set, in increasing order.
    pub closed spec fn names(self) -> Seq<Str> {
        item_names(self.items@)
    }

    /// A set holds finitely many names.
    pub proof fn lemma_finite(&self)
        ensures
            self@.finite(),
    {
        vstd::seq_lib::seq_to_set_is_finite(self.names());
    }

    pub fn new() -> (r: Self)
        ensures
            r@ == Set::<Str>::empty(),
            r.names() == Seq::<Str>::empty(),
    {
        let r = NameSet { items: Vec::new() };
        assert(r.names() =~= Seq::<Str>::empty());
        assert(r@ =~= Set::<Str>::empty());
        r
    }

    fn position(&self, k: &Name) -> (p: usize)
        ensures
            cut(self.names(), k@, p as int),
    {
        proof {
            use_type_invariant(self);
        }
        let mut lo: usize = 0;
        let mut hi: usize = self.items.len();
        while lo < hi
            invariant
                name::sorted(self.names()),
                self.names().len() == self.items@.len(),
                lo <= hi <= self.items@.len(),
                forall|i: int| 0 <= i < lo ==> name::str_lt(#[trigger] self.names()[i], k@),
                forall|i: int| hi <= i < self.names().len() ==> !name::str_lt(#[trigger] self.names()[i], k@),
            decreases hi - lo,
        {
            let mid: usize = lo + (hi - lo) / 2;
            assert(self.names()[mid as int] == self.items@[mid as int]@);
            if self.items[mid].before(k) {
                assert forall|i: int| 0 <= i < mid + 1 implies name::str_lt(#[trigger] self.names()[i], k@) by {
                    if i < mid {
                        name::lemma_str_lt_transitive(self.names()[i], self.names()[mid as int], k@);
                    }
                }
                lo = mid + 1;
            } else {
                assert forall|i: int| mid <= i < self.names().len() implies !name::str_lt(
                    #[trigger] self.names()[i],
                    k@,
                ) by {
                    if mid < i && name::str_lt(self.names()[i], k@) {
                        name::lemma_str_lt_transitive(self.names()[mid as int], self.names()[i], k@);
                    }
                }
                hi = mid;
            }
        }
        lo
    }

    pub fn len(&self) -> (r: usize)
        ensures
            r == self.names().len(),
            name::sorted(self.names()),
            self.names().to_set() == self@,
            self.names() == name::in_order(self@),
    {
        proof {
            use_type_invariant(self);
            name::lemma_in_order(self.names());
        }
        self.items.len()
    }

    /// The name at a position of the order.
    pub fn name_at(&self, i: usize) -> (r: &Name)
        requires
            i < self.names().len(),
        ensures
            r@ == self.names()[i as int],
            self@.contains(r@),
    {
        proof {
            assert(self.names().contains(self.names()[i as int]));
        }
        &self.items[i]
    }

    pub fn contains(&self, k: &Name) -> (r: bool)
        ensures
            r == self@.contains(k@),
    {
        let p: usize = self.position(k);
        proof {
            use_type_invariant(self);
            lemma_cut_contains(self.names(), k@, p as int);
        }
        p < self.items.len() && self.items[p].same(k)
    }

    /// The place of a name in the order, if it is in the set.
    pub fn index_of(&self, k: &Name) -> (r: Option<usize>)
        ensures
            match r {
                Some(p) => p < self.names().len() && self.names()[p as int] == k@,
                None => !self@.contains(k@),
            },
    {
        let p: usize = self.position(k);
        proof {
            use_type_invariant(self);
            lemma_cut_contains(self.names(), k@, p as int);
        }
        if p < self.items.len() && self.items[p].same(k) {
            Some(p)
        } else {
            None
        }
    }

    /// Puts a name into the set and says whether it was new.
    pub fn insert(&mut self, k: Name) -> (r: bool)
        ensures
            final(self)@ == old(self)@.insert(k@),
            r == !old(self)@.contains(k@),
    {
        let p: usize = self.position(&k);
        proof {
            use_type_invariant(&*self);
            lemma_cut_contains(self.names(), k@, p as int);
        }
        let ghost before = *self;
        if p < self.items.len() && self.items[p].same(&k) {
            assert(old(self)@.insert(k@) =~= old(self)@);
            false
        } else {
            let ghost key = k@;
            proof {
                lemma_cut_insert(before.names(), key, p as int);
            }
            let mut items: Vec<Name> = Vec::new();
            assert(item_names(items@) =~= Seq::<Str>::empty());
            std::mem::swap(&mut items, &mut self.items);
            items.insert(p, k);
            assert(item_names(items@) =~= before.names().insert(p as int, key));
            self.items = items;
            true
        }
    }

    /// Adds every name of another set.
    pub fn extend(&mut self, other: &NameSet)
        ensures
            final(self)@ == old(self)@.union(other@),
    {
        let n: usize = other.len();
        let mut i: usize = 0;
        assert(old(self)@.union(other.names().take(0).to_set()) =~= old(self)@);
        while i < n
            invariant
                i <= n,
                n == other.names().len(),
                self@ == old(self)@.union(other.names().take(i as int).to_set()),
            decreases n - i,
        {
            let k = other.name_at(i).clone();
            self.insert(k);
            proof {
                let a = other.names().take(i as int);
                let b = other.names().take(i + 1);
                assert(b =~= a.push(k@));
                assert(b.to_set() =~= a.to_set().insert(k@)) by {
                    assert forall|x: Str| b.to_set().contains(x) <==> a.to_set().insert(k@).contains(x) by {
                        if a.contains(x) {
                            let j = choose|j: int| 0 <= j < a.len() && a[j] == x;
                            assert(b[j] == x);
                        }
                        assert(b[i as int] == k@);
                    }
                }
                assert(self@ =~= old(self)@.union(b.to_set()));
            }
            i += 1;
        }
        assert(other.names().take(n as int) =~= other.names());
    }

    /// The names of this set that are not in the other one.
    pub fn minus(&self, other: &NameSet) -> (r: NameSet)
        ensures
            r@ == self@.difference(other@),
    {
        let mut r = NameSet::new();
        let n: usize = self.len();
        let mut i: usize = 0;
        while i < n
            invariant
                i <= n,
                n == self.names().len(),
                forall|x: Str| #[trigger]
                    r@.contains(x) <==> self.names().take(i as int).contains(x) && !other@.contains(x),
            decreases n - i,
        {
            let k = self.name_at(i);
            if !other.contains(k) {
                r.insert(k.clone());
            }
            proof {
                let a = self.names().take(i as int);
                let b = self.names().take(i + 1);
                assert forall|x: Str| b.contains(x) <==> a.contains(x) || x == k@ by {
                    if a.contains(x) {
                        let j = choose|j: int| 0 <= j < a.len() && a[j] == x;
                        assert(b[j] == x);
                    }
                    assert(b[i as int] == k@);
                }
            }
            i += 1;
        }
        proof {
            assert(self.names().take(n as int) =~= self.names());
            assert(r@ =~= self@.difference(other@));
        }
        r
    }

    /// The names of a list.
    pub fn from_vec(ns: &Vec<Name>) -> (r: NameSet)
        ensures
            r@ == name::texts(ns@).to_set(),
    {
        let mut r = NameSet::new();
        let ghost all = name::texts(ns@);
        let n: usize = ns.len();
        let mut i: usize = 0;
        while i < n
            invariant
                i <= n,
                n == ns@.len(),
                all == name::texts(ns@),
                forall|x: Str| #[trigger] r@.contains(x) <==> all.take(i as int).contains(x),
            decreases n - i,
        {
            r.insert(ns[i].clone());
            proof {
                let (a, b) = (all.take(i as int), all.take(i + 1));
                assert(b =~= a.push(ns@[i as int]@));
                assert forall|x: Str| b.contains(x) <==> a.contains(x) || x == ns@[i as int]@ by {
                    if a.contains(x) {
                        let j = choose|j: int| 0 <= j < a.len() && a[j] == x;
                        assert(b[j] == x);
                    }
                    assert(b[i as int] == ns@[i as int]@);
                }
            }
            i += 1;
        }
        proof {
            assert(all.take(n as int) =~= all);
            assert(r@ =~= all.to_set());
        }
        r
    }

    /// The names in their order.
    pub fn to_vec(&self) -> (r: Vec<Name>)
        ensures
            name::texts(r@) == name::in_order(self@),
    {
        let n: usize = self.len();
        let mut names: Vec<Name> = Vec::new();
        let mut i: usize = 0;
        while i < n
            invariant
                i <= n,
                n == self.names().len(),
                names@.len() == i,
                forall|j: int| 0 <= j < i ==> (#[trigger] names@[j])@ == self.names()[j],
            decreases n - i,
        {
            names.push(self.name_at(i).clone());
            i += 1;
        }
        assert(name::texts(names@) =~= self.names());
        names
    }
}

} // verus!
