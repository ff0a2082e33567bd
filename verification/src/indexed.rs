//! Maps and sets that remember the order in which their entries came.

use crate::name::Str;
use indexmap::{IndexMap, IndexSet};
use vstd::prelude::*;

verus! {

/// `indexmap::IndexMap`, whose inside is not seen.
#[verifier::external_type_specification]
#[verifier::external_body]
#[verifier::reject_recursive_types(K)]
#[verifier::reject_recursive_types(V)]
#[verifier::reject_recursive_types(S)]
pub struct ExIndexMap<K, V, S>(IndexMap<K, V, S>);

/// `indexmap::IndexSet`, whose inside is not seen.
#[verifier::external_type_specification]
#[verifier::external_body]
#[verifier::reject_recursive_types(T)]
#[verifier::reject_recursive_types(S)]
pub struct ExIndexSet<T, S>(IndexSet<T, S>);

/* Sets of texts */

/// The items of a set in the order in which they came.
pub uninterp spec fn items(s: IndexSet<String>) -> Seq<Str>;

/// `IndexSet::new` makes a set without items.
#[verifier::external_body]
pub(crate) fn set_new() -> (r: IndexSet<String>)
    ensures
        items(r) == Seq::<Str>::empty(),
{
    IndexSet::new()
}

/// `IndexSet::insert` puts a new item behind the others, and leaves the set as
/// it is if the item is there. It says whether the item was new.
#[verifier::external_body]
pub(crate) fn set_insert(s: &mut IndexSet<String>, value: String) -> (r: bool)
    ensures
        r == !items(*old(s)).contains(value@),
        items(*final(s)) == if r {
            items(*old(s)).push(value@)
        } else {
            items(*old(s))
        },
{
    s.insert(value)
}

/// `IndexSet::contains` says whether an item is in the set.
#[verifier::external_body]
pub(crate) fn set_contains(s: &IndexSet<String>, value: &String) -> (r: bool)
    ensures
        r == items(*s).contains(value@),
{
    s.contains(value)
}

/// `IndexSet::len` is the number of items.
#[verifier::external_body]
pub(crate) fn set_len(s: &IndexSet<String>) -> (r: usize)
    ensures
        r == items(*s).len(),
{
    s.len()
}

/// `IndexSet::get_index` gives the item at a place of the order, if there is one.
#[verifier::external_body]
pub(crate) fn set_get_index(s: &IndexSet<String>, index: usize) -> (r: Option<&String>)
    ensures
        match r {
            Some(x) => index < items(*s).len() && x@ == items(*s)[index as int],
            None => index >= items(*s).len(),
        },
{
    s.get_index(index)
}

/// `IndexSet::shift_remove` takes an item out and keeps the order of the
/// others. It says whether the item was there.
#[verifier::external_body]
pub(crate) fn set_shift_remove(s: &mut IndexSet<String>, value: &String) -> (r: bool)
    ensures
        r == items(*old(s)).contains(value@),
        items(*final(s)) == if r {
            items(*old(s)).remove(items(*old(s)).index_of(value@))
        } else {
            items(*old(s))
        },
{
    s.shift_remove(value)
}

/// `IndexSet::extend` puts the items of the other set that are new behind the
/// others, in their order.
#[verifier::external_body]
pub(crate) fn set_extend(s: &mut IndexSet<String>, other: IndexSet<String>)
    ensures
        items(*final(s)) == items(*old(s)) + items(other).filter(
            |x: Str| !items(*old(s)).contains(x),
        ),
{
    s.extend(other)
}

/// Items that are put behind others are there, and so are the others.
pub proof fn lemma_extended(a: Seq<Str>, b: Seq<Str>, x: Str)
    ensures
        (a + b.filter(|y: Str| !a.contains(y))).contains(x) <==> a.contains(x) || b.contains(x),
{
    broadcast use vstd::seq_lib::group_filter_ensures;

    let f = |y: Str| !a.contains(y);
    let c = b.filter(f);
    if a.contains(x) {
        let i = choose|i: int| 0 <= i < a.len() && a[i] == x;
        assert((a + c)[i] == x);
    } else if b.contains(x) {
        let i = choose|i: int| 0 <= i < b.len() && b[i] == x;
        assert(f(b[i]));
        assert(c.contains(b[i]));
        let j = choose|j: int| 0 <= j < c.len() && c[j] == x;
        assert((a + c)[a.len() + j] == x);
    }
    if (a + c).contains(x) && !a.contains(x) {
        let j = choose|j: int| 0 <= j < (a + c).len() && (a + c)[j] == x;
        if j < a.len() {
            assert(a[j] == x);
        } else {
            let k = j - a.len();
            assert(c[k] == x);
            b.lemma_filter_contains_rev(f, x);
        }
    }
}

/// The place of the first item of a list that is not in the other one.
pub open spec fn is_first_missing(a: Seq<Str>, b: Seq<Str>, i: int) -> bool {
    &&& 0 <= i < a.len()
    &&& !b.contains(a[i])
    &&& forall|j: int| 0 <= j < i ==> b.contains(#[trigger] a[j])
}

/// The first item that `IndexSet::difference` gives: the items of the first set
/// that are not in the second one come in their order.
#[verifier::external_body]
pub(crate) fn set_first_missing<'a>(
    s: &'a IndexSet<String>,
    other: &'a IndexSet<String>,
) -> (r: Option<&'a String>)
    ensures
        match r {
            Some(x) => exists|i: int| #[trigger]
                is_first_missing(items(*s), items(*other), i) && x@ == items(*s)[i],
            None => forall|x: Str| #[trigger]
                items(*s).contains(x) ==> items(*other).contains(x),
        },
{
    s.difference(other).next()
}

/* Maps from texts to numbers */

/// The entries of a map.
pub uninterp spec fn counts(m: IndexMap<String, u64>) -> Map<Str, u64>;

/// No entries.
pub open spec fn no_counts() -> Map<Str, u64> {
    Map::empty()
}

/// `IndexMap::new` makes a map without entries.
#[verifier::external_body]
pub(crate) fn counts_new() -> (r: IndexMap<String, u64>)
    ensures
        counts(r) == no_counts(),
{
    IndexMap::new()
}

/// `IndexMap::entry` with `Entry::or_default` gives the value of a key, which
/// is made zero if the key was not there, for changing it in place.
#[verifier::external_body]
pub(crate) fn counts_entry(m: &mut IndexMap<String, u64>, key: String) -> (r: &mut u64)
    ensures
        *r == if counts(*old(m)).contains_key(key@) {
            counts(*old(m))[key@]
        } else {
            0
        },
        counts(*final(m)) == counts(*old(m)).insert(key@, *final(r)),
{
    m.entry(key).or_default()
}

/// `IndexMap::shift_remove` takes out the entry of a key and gives its value.
#[verifier::external_body]
pub(crate) fn counts_shift_remove(m: &mut IndexMap<String, u64>, key: &String) -> (r: Option<u64>)
    ensures
        counts(*final(m)) == counts(*old(m)).remove(key@),
        match r {
            Some(v) => counts(*old(m)).contains_key(key@) && v == counts(*old(m))[key@],
            None => !counts(*old(m)).contains_key(key@),
        },
{
    m.shift_remove(key)
}

/// `IndexMap::extend` puts the entries of the other map into the map. Where
/// both have a key, the value of the other map stays.
#[verifier::external_body]
pub(crate) fn counts_extend(m: &mut IndexMap<String, u64>, other: IndexMap<String, u64>)
    ensures
        counts(*final(m)) == counts(*old(m)).union_prefer_right(counts(other)),
{
    m.extend(other)
}

/// `IndexMap::is_empty` says whether there is no entry.
#[verifier::external_body]
pub(crate) fn counts_is_empty(m: &IndexMap<String, u64>) -> (r: bool)
    ensures
        r == (counts(*m) == no_counts()),
{
    m.is_empty()
}

/* Maps from texts to sets of texts */

/// The keys of a map in the order in which they came, and the items of the
/// set of each.
pub uninterp spec fn edges(m: IndexMap<String, IndexSet<String>>) -> Seq<(Str, Seq<Str>)>;

/// The keys in their order.
pub open spec fn keys(e: Seq<(Str, Seq<Str>)>) -> Seq<Str> {
    Seq::new(e.len(), |i: int| e[i].0)
}

/// No entries.
pub open spec fn no_edges() -> Seq<(Str, Seq<Str>)> {
    Seq::empty()
}

/// `IndexMap::new` makes a map without entries.
#[verifier::external_body]
pub(crate) fn edges_new() -> (r: IndexMap<String, IndexSet<String>>)
    ensures
        edges(r) == no_edges(),
{
    IndexMap::new()
}

/// `IndexMap::entry` with `Entry::or_default` gives the set of a key for
/// changing it in place. A key that was not there gets an empty set and comes
/// behind the others.
#[verifier::external_body]
pub(crate) fn edges_entry(
    m: &mut IndexMap<String, IndexSet<String>>,
    key: String,
) -> (r: &mut IndexSet<String>)
    ensures
        items(*r) == if keys(edges(*old(m))).contains(key@) {
            edges(*old(m))[keys(edges(*old(m))).index_of(key@)].1
        } else {
            Seq::empty()
        },
        edges(*final(m)) == if keys(edges(*old(m))).contains(key@) {
            edges(*old(m)).update(
                keys(edges(*old(m))).index_of(key@),
                (key@, items(*final(r))),
            )
        } else {
            edges(*old(m)).push((key@, items(*final(r))))
        },
{
    m.entry(key).or_default()
}

/// `IndexMap::get` gives the set of a key, if the key is there.
#[verifier::external_body]
pub(crate) fn edges_get<'a>(
    m: &'a IndexMap<String, IndexSet<String>>,
    key: &String,
) -> (r: Option<&'a IndexSet<String>>)
    ensures
        match r {
            Some(s) => keys(edges(*m)).contains(key@) && items(*s) == edges(*m)[keys(
                edges(*m),
            ).index_of(key@)].1,
            None => !keys(edges(*m)).contains(key@),
        },
{
    m.get(key)
}

/// `IndexMap::get_index` gives the key and the set at a place of the order, if
/// there is one.
#[verifier::external_body]
pub(crate) fn edges_get_index(
    m: &IndexMap<String, IndexSet<String>>,
    index: usize,
) -> (r: Option<(&String, &IndexSet<String>)>)
    ensures
        match r {
            Some(e) => index < edges(*m).len() && e.0@ == edges(*m)[index as int].0 && items(*e.1)
                == edges(*m)[index as int].1,
            None => index >= edges(*m).len(),
        },
{
    m.get_index(index)
}

/// `IndexMap::len` is the number of keys.
#[verifier::external_body]
pub(crate) fn edges_len(m: &IndexMap<String, IndexSet<String>>) -> (r: usize)
    ensures
        r == edges(*m).len(),
{
    m.len()
}

} // verus!
