//! What the order of texts and the names of numbers are.

use crate::name;
use crate::name::Str;
use vstd::prelude::*;

verus! {

/* Order */

/// The texts are the same up to this place, where the first one ends or has the
/// smaller code point.
pub open spec fn is_less_at(a: Str, b: Str, k: int) -> bool {
    &&& 0 <= k <= a.len()
    &&& k < b.len()
    &&& a.take(k) == b.take(k)
    &&& k == a.len() || (a[k] as int) < (b[k] as int)
}

/// A text comes before another one if and only if it is a beginning of it or has
/// the smaller code point at the first place where they differ.
pub proof fn law_order(a: Str, b: Str)
    ensures
        name::str_lt(a, b) <==> exists|k: int| #[trigger] is_less_at(a, b, k),
    decreases a.len(),
{
    if name::str_lt(a, b) {
        if a.len() == 0 || a[0] != b[0] {
            assert(a.take(0) =~= b.take(0));
            assert(is_less_at(a, b, 0));
        } else {
            let (c, d) = (a.drop_first(), b.drop_first());
            law_order(c, d);
            let k = choose|k: int| #[trigger] is_less_at(c, d, k);
            assert(a.take(k + 1) =~= seq![a[0]] + c.take(k));
            assert(b.take(k + 1) =~= seq![b[0]] + d.take(k));
            assert(is_less_at(a, b, k + 1));
        }
    }
    if exists|k: int| #[trigger] is_less_at(a, b, k) {
        let k = choose|k: int| #[trigger] is_less_at(a, b, k);
        if k > 0 {
            let (c, d) = (a.drop_first(), b.drop_first());
            assert(a.take(k)[0] == b.take(k)[0]);
            assert(c.take(k - 1) =~= a.take(k).drop_first());
            assert(d.take(k - 1) =~= b.take(k).drop_first());
            assert(is_less_at(c, d, k - 1));
            law_order(c, d);
        }
    }
}

/* Numbers */

/// The number whose base 26 digits are the letters, the least significant first.
pub open spec fn value_of_letters(s: Str) -> int
    decreases s.len(),
{
    if s.len() == 0 {
        0
    } else {
        (s[0] as int) - ('a' as int) + 26 * value_of_letters(s.drop_first())
    }
}

/// The name of a number is made of small letters, which are its base 26 digits,
/// and has no more of them than it needs.
pub proof fn law_base26(n: nat)
    ensures
        value_of_letters(name::base26(n)) == n,
        forall|i: int|
            0 <= i < name::base26(n).len() ==> 'a' as int <= #[trigger] name::base26(n)[i] as int
                <= 'z' as int,
        name::base26(n).len() > 0,
        name::base26(n).len() > 1 ==> name::base26(n).last() != 'a',
    decreases n,
{
    let s = name::base26(n);
    if n < 26 {
        assert(s.drop_first() =~= Seq::empty());
        assert(value_of_letters(s.drop_first()) == 0);
    } else {
        let r = name::base26(n / 26);
        law_base26(n / 26);
        assert(s.drop_first() =~= r);
        assert forall|i: int| 0 <= i < s.len() implies 'a' as int <= #[trigger] s[i] as int <= 'z' as int by {
            if i > 0 {
                assert(s[i] == r[i - 1]);
            }
        }
        assert(s.last() == r.last());
        if r.len() == 1 {
            assert(n / 26 < 26) by {
                if n / 26 >= 26 {
                    law_base26(n / 26 / 26);
                }
            }
            assert(r[0] == name::letter(n / 26));
        }
    }
}

/// The number whose decimal digits these are.
pub open spec fn value_of_digits(s: Str) -> int
    decreases s.len(),
{
    if s.len() == 0 {
        0
    } else {
        10 * value_of_digits(s.drop_last()) + (s.last() as int) - ('0' as int)
    }
}

/// The decimal text of a number is made of its digits, the most significant first,
/// and does not begin with a zero unless the number is zero.
pub proof fn law_decimal(n: nat)
    ensures
        value_of_digits(name::decimal(n)) == n,
        forall|i: int|
            0 <= i < name::decimal(n).len() ==> '0' as int <= #[trigger] name::decimal(n)[i] as int
                <= '9' as int,
        name::decimal(n).len() > 0,
        name::decimal(n).len() > 1 ==> name::decimal(n)[0] != '0',
    decreases n,
{
    let s = name::decimal(n);
    if n < 10 {
        assert(s.drop_last() =~= Seq::empty());
        assert(value_of_digits(s.drop_last()) == 0);
    } else {
        let r = name::decimal(n / 10);
        law_decimal(n / 10);
        assert(s.drop_last() =~= r);
        assert forall|i: int| 0 <= i < s.len() implies '0' as int <= #[trigger] s[i] as int <= '9' as int by {
            if i < r.len() {
                assert(s[i] == r[i]);
            }
        }
        if r.len() == 1 {
            assert(n / 10 < 10) by {
                if n / 10 >= 10 {
                    law_decimal(n / 10 / 10);
                }
            }
            assert(r[0] == name::digit(n / 10));
        }
        assert(s[0] == r[0]);
    }
}

} // verus!
