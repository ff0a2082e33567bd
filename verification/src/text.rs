//! Searching, cutting and joining texts.

use crate::name::Str;
use vstd::prelude::*;

verus! {

/// The part stands at this place of the text.
pub open spec fn occurs_at(s: Str, part: Str, i: int) -> bool {
    0 <= i && i + part.len() <= s.len() && s.subrange(i, i + part.len()) == part
}

/// The part stands somewhere in the text.
pub open spec fn occurs(s: Str, part: Str) -> bool {
    exists|i: int| #[trigger] occurs_at(s, part, i)
}

/// The first place of the text where the part stands.
pub open spec fn is_first_place(s: Str, part: Str, i: int) -> bool {
    occurs_at(s, part, i) && forall|j: int| j < i ==> !#[trigger] occurs_at(s, part, j)
}

/// The texts with a separator between each two.
pub open spec fn joined(xs: Seq<Str>, sep: Str) -> Str
    decreases xs.len(),
{
    if xs.len() == 0 {
        Seq::empty()
    } else if xs.len() == 1 {
        xs[0]
    } else {
        joined(xs.drop_last(), sep) + sep + xs.last()
    }
}

/// The texts of a list.
pub open spec fn texts(xs: Seq<String>) -> Seq<Str> {
    Seq::new(xs.len(), |i: int| xs[i]@)
}

/// The texts of lists.
pub open spec fn lists(xs: Seq<Vec<String>>) -> Seq<Seq<Str>> {
    Seq::new(xs.len(), |i: int| texts(xs[i]@))
}

/// The characters of a text.
pub fn to_chars(s: &str) -> (r: Vec<char>)
    ensures
        r@ == s@,
{
    let mut r: Vec<char> = Vec::new();
    for c in it: s.chars()
        invariant
            r@ == it.seq().take(it.index() as int),
            it.seq() == s@,
    {
        r.push(c);
    }
    assert(r@ =~= s@);
    r
}

/// The text of the characters from one place up to another.
pub fn from_chars(cs: &Vec<char>, a: usize, b: usize) -> (r: String)
    requires
        a <= b <= cs@.len(),
    ensures
        r@ == cs@.subrange(a as int, b as int),
{
    let mut r = String::new();
    let mut i: usize = a;
    assert(r@ =~= cs@.subrange(a as int, a as int));
    while i < b
        invariant
            a <= i <= b <= cs@.len(),
            r@ == cs@.subrange(a as int, i as int),
        decreases b - i,
    {
        r.push(cs[i]);
        i += 1;
        assert(r@ =~= cs@.subrange(a as int, i as int));
    }
    r
}

/// The first place where the part stands.
pub fn find(cs: &Vec<char>, part: &Vec<char>) -> (r: Option<usize>)
    ensures
        match r {
            Some(i) => is_first_place(cs@, part@, i as int),
            None => !occurs(cs@, part@),
        },
{
    if part.len() > cs.len() {
        return None;
    }
    let last: usize = cs.len() - part.len();
    let mut i: usize = 0;
    loop
        invariant
            i <= last,
            last == cs@.len() - part@.len(),
            forall|j: int| j < i ==> !#[trigger] occurs_at(cs@, part@, j),
        decreases last - i,
    {
        if stands_at(cs, part, i) {
            return Some(i);
        }
        if i == last {
            return None;
        }
        i += 1;
    }
}

/// Whether the part stands at a place.
fn stands_at(cs: &Vec<char>, part: &Vec<char>, i: usize) -> (r: bool)
    requires
        i + part@.len() <= cs@.len(),
    ensures
        r == occurs_at(cs@, part@, i as int),
{
    let n: usize = part.len();
    let m: usize = cs.len();
    let mut j: usize = 0;
    while j < n
        invariant
            j <= n,
            n == part@.len(),
            m == cs@.len(),
            i + n <= m,
            forall|k: int| 0 <= k < j ==> #[trigger] part@[k] == cs@[i + k],
        decreases n - j,
    {
        if cs[i + j] != part[j] {
            assert(cs@.subrange(i as int, i + n)[j as int] != part@[j as int]);
            return false;
        }
        j += 1;
    }
    assert(cs@.subrange(i as int, i + n) =~= part@);
    true
}

/// The texts with a separator between each two.
pub fn join(xs: &Vec<String>, sep: &str) -> (r: String)
    ensures
        r@ == joined(texts(xs@), sep@),
{
    let ghost ts = texts(xs@);
    let n: usize = xs.len();
    let mut r = String::new();
    let mut i: usize = 0;
    assert(ts.take(0) =~= Seq::empty());
    while i < n
        invariant
            i <= n,
            n == xs@.len(),
            ts == texts(xs@),
            r@ == joined(ts.take(i as int), sep@),
        decreases n - i,
    {
        if i > 0 {
            r.append(sep);
        }
        r.append(xs[i].as_str());
        proof {
            assert(ts.take(i + 1).drop_last() =~= ts.take(i as int));
            assert(ts.take(i + 1).last() == xs@[i as int]@);
            if i == 0 {
                assert(r@ =~= xs@[0]@);
            }
        }
        i += 1;
    }
    assert(ts.take(n as int) =~= ts);
    r
}

} // verus!
