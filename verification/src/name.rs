//! Names, their order, and the text of generated names.

use vstd::prelude::*;

verus! {

/// The mathematical content of a name or of any other text.
pub type Str = Seq<char>;

/// The name of a definition, constructor, variable or type variable.
#[derive(Debug, PartialEq, Eq)]
pub struct Name(pub String);

impl View for Name {
    type V = Str;

    open spec fn view(&self) -> Str {
        self.0@
    }
}

impl Clone for Name {
    fn clone(&self) -> (r: Self)
        ensures
            r == *self,
            r@ == self@,
    {
        Name(self.0.clone())
    }
}

impl Name {
    pub fn new(text: String) -> (r: Self)
        ensures
            r@ == text@,
    {
        Name(text)
    }

    /// Whether two names have the same text.
    pub fn same(&self, other: &Name) -> (r: bool)
        ensures
            r == (self@ == other@),
    {
        self.0 == other.0
    }

    /// Whether this name comes before the other one.
    pub fn before(&self, other: &Name) -> (r: bool)
        ensures
            r == str_lt(self@, other@),
    {
        string_lt(&self.0, &other.0)
    }
}

/// The content of an optional name.
pub open spec fn opt_name(o: Option<Name>) -> Option<Str> {
    match o {
        Some(n) => Some(n@),
        None => None,
    }
}

/// Copies an optional name.
pub fn clone_opt_name(o: &Option<Name>) -> (r: Option<Name>)
    ensures
        opt_name(r) == opt_name(*o),
{
    match o {
        Some(n) => Some(n.clone()),
        None => None,
    }
}

/// The contents of a list of names.
pub open spec fn texts(ns: Seq<Name>) -> Seq<Str> {
    Seq::new(ns.len(), |i: int| ns[i]@)
}

/* Order */

/// Lexicographic order of texts by code point.
pub open spec fn str_lt(a: Str, b: Str) -> bool
    decreases a.len(),
{
    if b.len() == 0 {
        false
    } else if a.len() == 0 {
        true
    } else if a[0] != b[0] {
        (a[0] as int) < (b[0] as int)
    } else {
        str_lt(a.drop_first(), b.drop_first())
    }
}

/// The operator `<` of `String`. The standard library orders strings
/// lexicographically by their bytes, which orders code points by their value.
#[verifier::external_body]
pub(crate) fn string_lt(a: &String, b: &String) -> (r: bool)
    ensures
        r == str_lt(a@, b@),
{
    a < b
}

pub proof fn lemma_str_lt_irreflexive(a: Str)
    ensures
        !str_lt(a, a),
    decreases a.len(),
{
    if a.len() > 0 {
        lemma_str_lt_irreflexive(a.drop_first());
    }
}

pub proof fn lemma_str_lt_transitive(a: Str, b: Str, c: Str)
    requires
        str_lt(a, b),
        str_lt(b, c),
    ensures
        str_lt(a, c),
    decreases a.len(),
{
    if a.len() > 0 && a[0] == b[0] && b[0] == c[0] {
        lemma_str_lt_transitive(a.drop_first(), b.drop_first(), c.drop_first());
    }
}

pub proof fn lemma_str_lt_total(a: Str, b: Str)
    ensures
        str_lt(a, b) || a == b || str_lt(b, a),
    decreases a.len(),
{
    if a.len() == 0 || b.len() == 0 {
        if a.len() == 0 && b.len() == 0 {
            assert(a =~= b);
        }
    } else if a[0] == b[0] {
        lemma_str_lt_total(a.drop_first(), b.drop_first());
        if a.drop_first() == b.drop_first() {
            assert(a =~= seq![a[0]] + a.drop_first());
            assert(b =~= seq![b[0]] + b.drop_first());
        }
    }
}

/// A sequence of texts in strictly increasing order.
pub open spec fn sorted(s: Seq<Str>) -> bool {
    forall|i: int, j: int| 0 <= i < j < s.len() ==> str_lt(#[trigger] s[i], #[trigger] s[j])
}

/// The elements of a finite set of texts in increasing order.
pub open spec fn in_order(s: Set<Str>) -> Seq<Str> {
    choose|q: Seq<Str>| sorted(q) && q.to_set() == s
}

/// A strictly increasing sequence has no element twice.
pub proof fn lemma_sorted_no_duplicates(s: Seq<Str>)
    requires
        sorted(s),
    ensures
        s.no_duplicates(),
{
    assert forall|i: int, j: int| 0 <= i < s.len() && 0 <= j < s.len() && i != j implies s[i]
        != s[j] by {
        lemma_str_lt_irreflexive(s[i]);
        if i < j {
            assert(str_lt(s[i], s[j]));
        } else {
            assert(str_lt(s[j], s[i]));
        }
    }
}

/// There is only one way to put a set in order.
pub proof fn lemma_sorted_unique(a: Seq<Str>, b: Seq<Str>)
    requires
        sorted(a),
        sorted(b),
        a.to_set() == b.to_set(),
    ensures
        a == b,
    decreases a.len(),
{
    if a.len() == 0 {
        if b.len() > 0 {
            assert(b.to_set().contains(b[0]));
            assert(a.to_set().contains(b[0]));
        }
        assert(a =~= b);
    } else {
        assert(a.to_set().contains(a.last()));
        assert(b.to_set().contains(a.last()));
        assert(b.to_set().contains(b.last()));
        assert(a.to_set().contains(b.last()));
        let i = choose|i: int| 0 <= i < a.len() && a[i] == b.last();
        let j = choose|j: int| 0 <= j < b.len() && b[j] == a.last();
        assert(a.last() == b.last()) by {
            if i < a.len() - 1 && j < b.len() - 1 {
                assert(str_lt(a[i], a[a.len() - 1]));
                assert(str_lt(b[j], b[b.len() - 1]));
                lemma_str_lt_transitive(a.last(), b.last(), a.last());
                lemma_str_lt_irreflexive(a.last());
            }
        }
        lemma_sorted_no_duplicates(a);
        lemma_sorted_no_duplicates(b);
        let (a1, b1) = (a.drop_last(), b.drop_last());
        assert(a1.to_set() =~= b1.to_set()) by {
            assert forall|x: Str| a1.to_set().contains(x) implies b1.to_set().contains(x) by {
                let k = choose|k: int| 0 <= k < a1.len() && a1[k] == x;
                assert(a[k] == x);
                assert(a.to_set().contains(x));
                assert(b.to_set().contains(x));
                let m = choose|m: int| 0 <= m < b.len() && b[m] == x;
                assert(b1[m] == x);
            }
            assert forall|x: Str| b1.to_set().contains(x) implies a1.to_set().contains(x) by {
                let k = choose|k: int| 0 <= k < b1.len() && b1[k] == x;
                assert(b[k] == x);
                assert(b.to_set().contains(x));
                assert(a.to_set().contains(x));
                let m = choose|m: int| 0 <= m < a.len() && a[m] == x;
                assert(a1[m] == x);
            }
        }
        lemma_sorted_unique(a1, b1);
        assert(a =~= a1.push(a.last()));
        assert(b =~= b1.push(b.last()));
    }
}

/// A strictly increasing sequence is its own set in order.
pub proof fn lemma_in_order(s: Seq<Str>)
    requires
        sorted(s),
    ensures
        in_order(s.to_set()) == s,
{
    lemma_sorted_unique(in_order(s.to_set()), s);
}

/// Puts a text where it belongs.
proof fn insert_sorted(q: Seq<Str>, x: Str) -> (r: Seq<Str>)
    requires
        sorted(q),
        !q.contains(x),
    ensures
        sorted(r),
        forall|y: Str| #[trigger] r.contains(y) <==> q.contains(y) || y == x,
    decreases q.len(),
{
    if q.len() == 0 || str_lt(q.last(), x) {
        let r = q.push(x);
        assert forall|i: int, j: int| 0 <= i < j < r.len() implies str_lt(#[trigger] r[i], #[trigger] r[j]) by {
            if j == q.len() && i < q.len() - 1 {
                lemma_str_lt_transitive(q[i], q.last(), x);
            }
        }
        assert forall|y: Str| #[trigger] r.contains(y) <==> q.contains(y) || y == x by {
            if q.contains(y) {
                let i = choose|i: int| 0 <= i < q.len() && q[i] == y;
                assert(r[i] == y);
            }
            assert(r[q.len() as int] == x);
        }
        r
    } else {
        let p = q.drop_last();
        assert(!p.contains(x)) by {
            if p.contains(x) {
                let i = choose|i: int| 0 <= i < p.len() && p[i] == x;
                assert(q[i] == x);
            }
        }
        let s = insert_sorted(p, x);
        let r = s.push(q.last());
        assert(q.contains(q.last()));
        lemma_str_lt_total(x, q.last());
        assert forall|i: int, j: int| 0 <= i < j < r.len() implies str_lt(#[trigger] r[i], #[trigger] r[j]) by {
            if j == s.len() {
                assert(s.contains(s[i]));
                if s[i] != x {
                    let k = choose|k: int| 0 <= k < p.len() && p[k] == s[i];
                    assert(str_lt(q[k], q[q.len() - 1]));
                }
            }
        }
        assert forall|y: Str| #[trigger] r.contains(y) <==> q.contains(y) || y == x by {
            if q.contains(y) {
                let i = choose|i: int| 0 <= i < q.len() && q[i] == y;
                if i < p.len() {
                    assert(p[i] == y);
                    assert(s.contains(y));
                    let j = choose|j: int| 0 <= j < s.len() && s[j] == y;
                    assert(r[j] == y);
                } else {
                    assert(r[s.len() as int] == y);
                }
            }
            if y == x {
                assert(s.contains(x));
                let j = choose|j: int| 0 <= j < s.len() && s[j] == x;
                assert(r[j] == x);
            }
            if r.contains(y) {
                let j = choose|j: int| 0 <= j < r.len() && r[j] == y;
                if j < s.len() {
                    assert(s.contains(s[j]));
                    if y != x {
                        let k = choose|k: int| 0 <= k < p.len() && p[k] == y;
                        assert(q[k] == y);
                    }
                }
            }
        }
        r
    }
}

proof fn some_order(s: Set<Str>) -> (r: Seq<Str>)
    requires
        s.finite(),
    ensures
        sorted(r),
        r.to_set() == s,
    decreases s.len(),
{
    if s.len() == 0 {
        let r = Seq::<Str>::empty();
        assert(r.to_set() =~= s);
        r
    } else {
        let x = s.choose();
        let q = some_order(s.remove(x));
        assert(!q.contains(x)) by {
            if q.contains(x) {
                assert(q.to_set().contains(x));
            }
        }
        let r = insert_sorted(q, x);
        assert forall|y: Str| r.to_set().contains(y) <==> s.contains(y) by {
            assert(r.contains(y) <==> q.contains(y) || y == x);
            assert(q.to_set().contains(y) <==> s.remove(x).contains(y));
        }
        assert(r.to_set() =~= s);
        r
    }
}

/// A finite set can be put in order.
pub proof fn lemma_finite_in_order(s: Set<Str>)
    requires
        s.finite(),
    ensures
        sorted(in_order(s)),
        in_order(s).to_set() == s,
{
    let r = some_order(s);
    assert(sorted(r) && r.to_set() == s);
}

/* Generated names */

/// `String::push` appends one character.
pub assume_specification[ String::push ](s: &mut String, ch: char)
    ensures
        final(s)@ == old(s)@.push(ch),
;

/// The letter of a base 26 digit.
pub open spec fn letter(d: nat) -> char {
    (('a' as u32) + d) as char
}

/// The name of a number: its base 26 digits as letters, the least significant first.
pub open spec fn base26(n: nat) -> Str
    decreases n,
{
    if n < 26 {
        seq![letter(n)]
    } else {
        seq![letter(n % 26)] + base26(n / 26)
    }
}

/// Different numbers have different names.
pub proof fn lemma_base26_injective(m: nat, n: nat)
    requires
        base26(m) == base26(n),
    ensures
        m == n,
    decreases m,
{
    let (a, b) = (base26(m), base26(n));
    assert(a[0] == b[0]);
    assert(m % 26 == n % 26);
    if m >= 26 && n >= 26 {
        assert(a.drop_first() =~= base26(m / 26));
        assert(b.drop_first() =~= base26(n / 26));
        lemma_base26_injective(m / 26, n / 26);
    } else if m >= 26 {
        lemma_base26_nonempty(m / 26);
        assert(a.len() > 1 && b.len() == 1);
    } else if n >= 26 {
        lemma_base26_nonempty(n / 26);
        assert(b.len() > 1 && a.len() == 1);
    }
}

proof fn lemma_base26_nonempty(n: nat)
    ensures
        base26(n).len() > 0,
{
}

/// The decimal digit of a number below ten.
pub open spec fn digit(d: nat) -> char {
    (('0' as u32) + d) as char
}

/// The decimal text of a number.
pub open spec fn decimal(n: nat) -> Str
    decreases n,
{
    if n < 10 {
        seq![digit(n)]
    } else {
        decimal(n / 10).push(digit(n % 10))
    }
}

/// Writes a number in decimal.
pub fn to_decimal(n: usize) -> (r: String)
    ensures
        r@ == decimal(n as nat),
    decreases n,
{
    let d: u8 = (n % 10) as u8;
    if n < 10 {
        let mut r = String::new();
        r.push((48 + d) as char);
        assert(r@ =~= decimal(n as nat));
        r
    } else {
        let mut r = to_decimal(n / 10);
        r.push((48 + d) as char);
        r
    }
}

/// Different numbers have different decimal texts.
pub proof fn lemma_decimal_injective(m: nat, n: nat)
    requires
        decimal(m) == decimal(n),
    ensures
        m == n,
    decreases m,
{
    let (a, b) = (decimal(m), decimal(n));
    assert(a.last() == b.last());
    assert(m % 10 == n % 10);
    if m >= 10 && n >= 10 {
        assert(a.drop_last() =~= decimal(m / 10));
        assert(b.drop_last() =~= decimal(n / 10));
        lemma_decimal_injective(m / 10, n / 10);
    } else if m >= 10 {
        assert(decimal(m / 10).len() > 0);
        assert(a.len() > 1 && b.len() == 1);
    } else if n >= 10 {
        assert(decimal(n / 10).len() > 0);
        assert(b.len() > 1 && a.len() == 1);
    }
}

/// Every character of a decimal text is a digit.
pub proof fn lemma_decimal_digits(n: nat, i: int)
    requires
        0 <= i < decimal(n).len(),
    ensures
        '0' as u32 <= decimal(n)[i] as u32 <= '9' as u32,
    decreases n,
{
    if n >= 10 && i < decimal(n / 10).len() {
        lemma_decimal_digits(n / 10, i);
    }
}

} // verus!
