//! Numbers and their decimal text: what is written is read again, and what is read is what
//! the digits say.

use crate::text::all_digits;
use crate::text::decimal;
use crate::text::decimal_text;
use crate::text::digits_value;
use crate::text::parse_number;
use crate::text::signed_decimal;
use crate::text::signed_decimal_text;
use vstd::prelude::*;

verus! {

/// Every character is a decimal digit.
pub open spec fn are_digits(s: Seq<char>) -> bool {
    forall|i: int| 0 <= i < s.len() ==> '0' <= #[trigger] s[i] <= '9'
}

/// The number that digits stand for, the first of them the most significant.
pub open spec fn number_in(s: Seq<char>) -> int
    decreases s.len(),
{
    if s.len() == 0 {
        0
    } else {
        number_in(s.drop_last()) * 10 + (s.last() as int - '0' as int)
    }
}

/// `s` is the decimal text of `n`: digits that stand for it, and no zero in front of others.
pub open spec fn is_decimal_of(s: Seq<char>, n: int) -> bool {
    &&& s.len() > 0
    &&& are_digits(s)
    &&& number_in(s) == n
    &&& s.len() > 1 ==> s[0] != '0'
}

/// `s` is the decimal text of `n`, a sign in front of it where it is negative.
pub open spec fn is_signed_decimal_of(s: Seq<char>, n: int) -> bool {
    if n < 0 {
        s.len() > 0 && s[0] == '-' && is_decimal_of(s.skip(1), -n)
    } else {
        is_decimal_of(s, n)
    }
}

/// The decimal form of a number is its decimal text.
pub proof fn decimal_is_text(n: int)
    requires
        0 <= n,
    ensures
        is_decimal_of(decimal(n), n),
    decreases n,
{
    let s = decimal(n);
    if n >= 10 {
        let f = decimal(n / 10);
        decimal_is_text(n / 10);
        assert(s.drop_last() =~= f);
        assert forall|i: int| 0 <= i < s.len() implies '0' <= #[trigger] s[i] <= '9' by {
            if i < f.len() {
                assert(s[i] == f[i]);
            }
        }
        assert(s[0] == f[0]);
        if f.len() == 1 && f[0] == '0' {
            assert(f.drop_last() =~= Seq::empty());
            assert(number_in(f.drop_last()) == 0);
            assert(number_in(f) == 0);
        }
    } else {
        assert(s.drop_last() =~= Seq::empty());
        assert(number_in(s.drop_last()) == 0);
    }
}

/// The decimal form of a number with a sign is its decimal text.
pub proof fn signed_decimal_is_text(n: int)
    ensures
        is_signed_decimal_of(signed_decimal(n), n),
{
    if n < 0 {
        decimal_is_text(-n);
        assert(signed_decimal(n).skip(1) =~= decimal(-n));
    } else {
        decimal_is_text(n);
    }
}

/// A number is written as its decimal text.
pub proof fn numbers_are_written_in_decimal(n: u64, r: String, m: i64, s: String)
    requires
        call_ensures(decimal_text, (n,), r),
        call_ensures(signed_decimal_text, (m,), s),
    ensures
        is_decimal_of(r@, n as int),
        is_signed_decimal_of(s@, m as int),
{
    decimal_is_text(n as int);
    signed_decimal_is_text(m as int);
}

/// Digits, zeros in front or not, a plus sign in front or not, are read as the number they
/// stand for, if it fits; anything else is no number.
pub proof fn digits_are_read_as_their_number(b: &[u8], s: Seq<char>, plus: bool, r: Option<u64>)
    requires
        s.len() > 0,
        are_digits(s),
        b@ == (if plus {
            seq![0x2bu8]
        } else {
            Seq::empty()
        }) + Seq::new(s.len(), |i: int| s[i] as u8),
        call_ensures(parse_number, (b,), r),
    ensures
        number_in(s) <= u64::MAX ==> r is Some && r->0 == number_in(s),
        number_in(s) > u64::MAX ==> r is None,
{
    let t = Seq::new(s.len(), |i: int| s[i] as u8);
    digits_as_bytes(s);
    if plus {
        assert(b@.skip(1) =~= t);
    } else {
        assert(b@ =~= t);
        assert(t[0] == s[0] as u8);
    }
    assert(all_digits(t)) by {
        assert forall|i: int| 0 <= i < t.len() implies 0x30 <= #[trigger] t[i] <= 0x39 by {
            assert('0' <= s[i] <= '9');
        }
    }
}

/// Bytes without a digit, or with anything but digits behind an optional plus sign, are no
/// number.
pub proof fn other_text_is_no_number(b: &[u8], k: int, r: Option<u64>)
    requires
        b@.len() == 0 || (b@.len() == 1 && b@[0] == 0x2b) || (0 <= k < b@.len() && !(0x30 <= b@[k]
            <= 0x39) && !(k == 0 && b@[0] == 0x2b)),
        call_ensures(parse_number, (b,), r),
    ensures
        r is None,
{
    if b@.len() > 0 && b@[0] == 0x2b {
        let t = b@.skip(1);
        if k > 0 && b@.len() > 1 {
            assert(t[k - 1] == b@[k]);
        }
    }
}

pub(crate) proof fn digits_as_bytes(s: Seq<char>)
    requires
        are_digits(s),
    ensures
        digits_value(Seq::new(s.len(), |i: int| s[i] as u8)) == number_in(s),
    decreases s.len(),
{
    let t = Seq::new(s.len(), |i: int| s[i] as u8);
    if s.len() > 0 {
        let f = s.drop_last();
        assert forall|i: int| 0 <= i < f.len() implies '0' <= #[trigger] f[i] <= '9' by {
            assert(f[i] == s[i]);
        }
        digits_as_bytes(f);
        assert(t.drop_last() =~= Seq::new(f.len(), |i: int| f[i] as u8));
        assert('0' <= s[s.len() - 1] <= '9');
        assert(t.last() == s.last() as u8);
    }
}

} // verus!
