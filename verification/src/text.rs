//! Text: what it is in bytes, ASCII case, and decimal numbers.

use crate::bytes::same_bytes;
use vstd::prelude::*;
use vstd::string::*;
use vstd::utf8::decode_utf8;
use vstd::utf8::decode_utf8_encode_utf8;
use vstd::utf8::encode_utf8;
use vstd::utf8::encode_utf8_decode_utf8;
use vstd::utf8::valid_utf8;

verus! {

/// A character with an ASCII capital letter made small.
pub open spec fn lower_char(c: char) -> char {
    if 'A' <= c && c <= 'Z' {
        ((c as u32) + 32) as char
    } else {
        c
    }
}

/// A character with an ASCII small letter made capital.
pub open spec fn upper_char(c: char) -> char {
    if 'a' <= c && c <= 'z' {
        ((c as u32) - 32) as char
    } else {
        c
    }
}

/// Text with its ASCII capital letters made small.
pub open spec fn lower(s: Seq<char>) -> Seq<char> {
    Seq::new(s.len(), |i: int| lower_char(s[i]))
}

/// Text with its ASCII small letters made capital.
pub open spec fn upper(s: Seq<char>) -> Seq<char> {
    Seq::new(s.len(), |i: int| upper_char(s[i]))
}

/// The same text but for the case of ASCII letters.
pub open spec fn same_ignoring_case(a: Seq<char>, b: Seq<char>) -> bool {
    lower(a) == lower(b)
}

/// Calls `str::to_ascii_lowercase`. Believed of it: ASCII letters `A` to `Z` become `a`
/// to `z`, and nothing else changes.
#[verifier::external_body]
pub(crate) fn ascii_lowercase(s: &str) -> (r: String)
    ensures
        r@ == lower(s@),
{
    s.to_ascii_lowercase()
}

/// Calls `str::to_ascii_uppercase`. Believed of it: ASCII letters `a` to `z` become `A`
/// to `Z`, and nothing else changes.
#[verifier::external_body]
pub(crate) fn ascii_uppercase(s: &str) -> (r: String)
    ensures
        r@ == upper(s@),
{
    s.to_ascii_uppercase()
}

/// Calls `str::eq_ignore_ascii_case`. Believed of it: it says whether the two are the
/// same after `to_ascii_lowercase`.
#[verifier::external_body]
pub(crate) fn equal_ignoring_case(a: &str, b: &str) -> (r: bool)
    ensures
        r == same_ignoring_case(a@, b@),
{
    a.eq_ignore_ascii_case(b)
}

/// Calls `std::str::from_utf8`. Believed of it: it gives the text that the bytes encode,
/// and an error exactly when they are not UTF-8.
#[verifier::external_body]
pub(crate) fn utf8_text(b: &[u8]) -> (r: Option<&str>)
    ensures
        match r {
            Some(s) => valid_utf8(b@) && s@ == decode_utf8(b@),
            None => !valid_utf8(b@),
        },
{
    std::str::from_utf8(b).ok()
}

/// What `String::from_utf8_lossy` makes of bytes that are not UTF-8.
pub uninterp spec fn utf8_lossy(b: Seq<u8>) -> Seq<char>;

/// The text of bytes: what they encode, and where they are not UTF-8, what
/// `String::from_utf8_lossy` makes of them.
pub open spec fn lossy_text(b: Seq<u8>) -> Seq<char> {
    if valid_utf8(b) {
        decode_utf8(b)
    } else {
        utf8_lossy(b)
    }
}

/// Calls `String::from_utf8_lossy`. Believed of it: the text is what the bytes encode where
/// they are UTF-8, and depends on the bytes alone where they are not. How invalid runs are
/// replaced is not said.
#[verifier::external_body]
pub(crate) fn utf8_text_lossy(b: &[u8]) -> (r: String)
    ensures
        valid_utf8(b@) ==> r@ == decode_utf8(b@),
        !valid_utf8(b@) ==> r@ == utf8_lossy(b@),
{
    String::from_utf8_lossy(b).into_owned()
}

/// The text of the UTF-8 bytes of text is that text.
pub proof fn lossy_text_of_utf8(s: Seq<char>)
    ensures
        lossy_text(utf8(s)) == s,
{
    vstd::utf8::encode_utf8_valid_utf8(s);
    encode_utf8_decode_utf8(s);
}

/// The UTF-8 bytes of text.
pub open spec fn utf8(s: Seq<char>) -> Seq<u8> {
    encode_utf8(s)
}

/// Text is determined by its UTF-8 bytes.
pub proof fn utf8_injective(a: Seq<char>, b: Seq<char>)
    ensures
        (utf8(a) == utf8(b)) == (a == b),
{
    encode_utf8_decode_utf8(a);
    encode_utf8_decode_utf8(b);
}

/// Texts joined have their UTF-8 bytes joined.
pub proof fn utf8_concat(a: Seq<char>, b: Seq<char>)
    ensures
        utf8(a + b) == utf8(a) + utf8(b),
    decreases a.len(),
{
    if a.len() == 0 {
        assert(a + b =~= b);
        assert(Seq::<u8>::empty() + utf8(b) =~= utf8(b));
    } else {
        assert((a + b).drop_first() =~= a.drop_first() + b);
        utf8_concat(a.drop_first(), b);
        assert(utf8(a + b) =~= utf8(a) + utf8(b));
    }
}

/// True when the two are the same text.
pub fn same_text(a: &str, b: &str) -> (r: bool)
    ensures
        r == (a@ == b@),
{
    proof {
        utf8_injective(a@, b@);
    }
    same_bytes(a.as_bytes(), b.as_bytes())
}

/// UTF-8 text stays UTF-8 on both sides of an ASCII byte taken out of it.
pub proof fn utf8_splits_at_ascii(b: Seq<u8>, i: int)
    requires
        valid_utf8(b),
        0 <= i < b.len(),
        b[i] < 0x80,
    ensures
        valid_utf8(b.subrange(0, i)),
        valid_utf8(b.subrange(i + 1, b.len() as int)),
{
    vstd::utf8::is_char_boundary_iff_not_is_continuation_byte(b, i);
    vstd::utf8::valid_utf8_split(b, i);
    let rest = b.subrange(i, b.len() as int);
    assert(rest[0] == b[i]);
    assert(vstd::utf8::is_leading_byte_width_1(rest[0]));
    let after = vstd::utf8::pop_first_scalar(rest);
    assert(after =~= b.subrange(i + 1, b.len() as int));
}

/// Text without a NUL has no zero byte in its UTF-8.
pub proof fn utf8_without_nul(s: Seq<char>)
    requires
        !s.contains('\0'),
    ensures
        forall|k: int| 0 <= k < utf8(s).len() ==> #[trigger] utf8(s)[k] != 0,
{
    let b = utf8(s);
    vstd::utf8::encode_utf8_valid_utf8(s);
    assert forall|k: int| 0 <= k < b.len() implies #[trigger] b[k] != 0 by {
        if b[k] == 0 {
            utf8_splits_at_ascii(b, k);
            let front = b.subrange(0, k);
            let back = b.subrange(k + 1, b.len() as int);
            let f = decode_utf8(front);
            let l = decode_utf8(back);
            decode_utf8_encode_utf8(front);
            decode_utf8_encode_utf8(back);
            let nul = seq!['\0'];
            ascii_bytes(nul);
            utf8_concat(f, nul);
            utf8_concat(f + nul, l);
            assert(utf8(f + nul + l) =~= b);
            utf8_injective(f + nul + l, s);
            assert((f + nul + l)[f.len() as int] == '\0');
        }
    }
}

/// ASCII text is one byte for each character.
pub proof fn ascii_bytes(s: Seq<char>)
    requires
        vstd::utf8::is_ascii_chars(s),
    ensures
        utf8(s) == Seq::new(s.len(), |i: int| s[i] as u8),
{
    vstd::utf8::is_ascii_chars_encode_utf8(s);
    assert(utf8(s) =~= Seq::new(s.len(), |i: int| s[i] as u8));
}

/// The decimal digit `d`.
pub open spec fn digit(d: int) -> char {
    (0x30 + d) as char
}

/// A non-negative number in decimal, without leading zeros.
pub open spec fn decimal(n: int) -> Seq<char>
    decreases n,
{
    if n < 10 {
        seq![digit(n)]
    } else {
        decimal(n / 10).push(digit(n % 10))
    }
}

/// A number in decimal, with a `-` in front of a negative one.
pub open spec fn signed_decimal(n: int) -> Seq<char> {
    if n < 0 {
        seq!['-'] + decimal(-n)
    } else {
        decimal(n)
    }
}

/// One digit as text.
fn digit_text(d: u64) -> (r: &'static str)
    requires
        d < 10,
    ensures
        r@ == seq![digit(d as int)],
{
    proof {
        reveal_strlit("0");
        reveal_strlit("1");
        reveal_strlit("2");
        reveal_strlit("3");
        reveal_strlit("4");
        reveal_strlit("5");
        reveal_strlit("6");
        reveal_strlit("7");
        reveal_strlit("8");
        reveal_strlit("9");
    }
    let r: &'static str = if d == 0 {
            "0"
        } else if d == 1 {
            "1"
        } else if d == 2 {
            "2"
        } else if d == 3 {
            "3"
        } else if d == 4 {
            "4"
        } else if d == 5 {
            "5"
        } else if d == 6 {
            "6"
        } else if d == 7 {
            "7"
        } else if d == 8 {
            "8"
    } else {
        "9"
    };
    assert(r@ =~= seq![digit(d as int)]);
    r
}

/// `n` in decimal.
pub fn decimal_text(n: u64) -> (r: String)
    ensures
        r@ == decimal(n as int),
    decreases n,
{
    if n < 10 {
        digit_text(n).to_owned()
    } else {
        let mut s = decimal_text(n / 10);
        s.append(digit_text(n % 10));
        assert(s@ =~= decimal(n as int));
        s
    }
}

/// `n` in decimal.
pub fn signed_decimal_text(n: i64) -> (r: String)
    ensures
        r@ == signed_decimal(n as int),
{
    if n < 0 {
        proof {
            reveal_strlit("-");
        }
        let mut s: String = "-".to_owned();
        let magnitude: u64 = (-(n + 1)) as u64 + 1;
        s.append(decimal_text(magnitude).as_str());
        assert(s@ =~= signed_decimal(n as int));
        s
    } else {
        decimal_text(n as u64)
    }
}

/// Every byte is a decimal digit.
pub open spec fn all_digits(b: Seq<u8>) -> bool {
    forall|i: int| 0 <= i < b.len() ==> 0x30 <= #[trigger] b[i] <= 0x39
}

/// The number that decimal digits stand for.
pub open spec fn digits_value(b: Seq<u8>) -> int
    decreases b.len(),
{
    if b.len() == 0 {
        0
    } else {
        digits_value(b.drop_last()) * 10 + (b.last() - 0x30)
    }
}

/// The number that text stands for: decimal digits, at least one, with an optional `+` in
/// front.
pub open spec fn parsed_number(b: Seq<u8>) -> Option<int> {
    let s = if b.len() > 0 && b[0] == 0x2b {
        b.skip(1)
    } else {
        b
    };
    if s.len() == 0 || !all_digits(s) {
        None
    } else {
        Some(digits_value(s))
    }
}

/// A number's leading digits stand for no more than the number.
pub proof fn digits_value_prefix(b: Seq<u8>, n: int)
    requires
        0 <= n <= b.len(),
        all_digits(b),
    ensures
        0 <= digits_value(b.take(n)) <= digits_value(b),
    decreases b.len(),
{
    if n == b.len() {
        assert(b.take(n) =~= b);
        if n > 0 {
            digits_value_prefix(b.drop_last(), n - 1);
        }
    } else {
        digits_value_prefix(b.drop_last(), n);
        assert(b.drop_last().take(n) =~= b.take(n));
        assert(0x30 <= b[b.len() - 1] <= 0x39);
    }
}

/// The number that `b` stands for, if it is one and fits 64 bits.
pub fn parse_number(b: &[u8]) -> (r: Option<u64>)
    ensures
        match r {
            Some(v) => parsed_number(b@) == Some(v as int),
            None => parsed_number(b@) is None || parsed_number(b@)->0 > u64::MAX,
        },
{
    let start: usize = if b.len() > 0 && b[0] == 0x2b {
        1
    } else {
        0
    };
    let s = vstd::slice::slice_subrange(b, start, b.len());
    proof {
        if start == 1 {
            assert(s@ =~= b@.skip(1));
        } else {
            assert(s@ =~= b@);
        }
    }
    if s.len() == 0 {
        return None;
    }
    let mut i: usize = 0;
    while i < s.len()
        invariant
            i <= s@.len(),
            s@.len() > 0,
            parsed_number(b@) == if all_digits(s@) {
                Some(digits_value(s@))
            } else {
                None
            },
            forall|k: int| 0 <= k < i ==> 0x30 <= #[trigger] s@[k] <= 0x39,
        decreases s@.len() - i,
    {
        if s[i] < 0x30 || s[i] > 0x39 {
            return None;
        }
        i = i + 1;
    }
    let mut v: u64 = 0;
    let mut j: usize = 0;
    while j < s.len()
        invariant
            j <= s@.len(),
            all_digits(s@),
            s@.len() > 0,
            parsed_number(b@) == if all_digits(s@) {
                Some(digits_value(s@))
            } else {
                None
            },
            v == digits_value(s@.take(j as int)),
        decreases s@.len() - j,
    {
        proof {
            assert(s@.take(j + 1).drop_last() =~= s@.take(j as int));
            digits_value_prefix(s@, j + 1);
        }
        let d: u64 = (s[j] - 0x30) as u64;
        match v.checked_mul(10) {
            Some(t) => match t.checked_add(d) {
                Some(w) => {
                    v = w;
                },
                None => {
                    assert(parsed_number(b@)->0 > u64::MAX);
                    return None;
                },
            },
            None => {
                assert(parsed_number(b@)->0 > u64::MAX);
                return None;
            },
        }
        j = j + 1;
    }
    assert(s@.take(j as int) =~= s@);
    Some(v)
}

/// The UTF-16 units of a character.
pub open spec fn utf16_char(c: char) -> Seq<u16> {
    let u = c as u32;
    if u < 0x1_0000 {
        seq![u as u16]
    } else {
        seq![
            (0xd800 + (u - 0x1_0000) / 0x400) as u16,
            (0xdc00 + (u - 0x1_0000) % 0x400) as u16,
        ]
    }
}

/// The UTF-16 units of text.
pub open spec fn utf16(s: Seq<char>) -> Seq<u16>
    decreases s.len(),
{
    if s.len() == 0 {
        Seq::empty()
    } else {
        utf16_char(s[0]) + utf16(s.drop_first())
    }
}

/// The text that UTF-16 units encode, if they encode any.
pub open spec fn utf16_decoded(units: Seq<u16>) -> Option<Seq<char>> {
    if exists|s: Seq<char>| utf16(s) == units {
        Some(choose|s: Seq<char>| utf16(s) == units)
    } else {
        None
    }
}

/// Text is determined by its UTF-16 units.
pub proof fn utf16_injective(a: Seq<char>, b: Seq<char>)
    requires
        utf16(a) == utf16(b),
    ensures
        a == b,
    decreases a.len(),
{
    let ua = utf16(a);
    let ub = utf16(b);
    if a.len() == 0 || b.len() == 0 {
        if a.len() > 0 {
            assert(ua[0] == utf16_char(a[0])[0]);
        }
        if b.len() > 0 {
            assert(ub[0] == utf16_char(b[0])[0]);
        }
        assert(a =~= b);
    } else {
        vstd::utf8::char_is_scalar(a[0]);
        vstd::utf8::char_is_scalar(b[0]);
        let x = utf16_char(a[0]);
        let y = utf16_char(b[0]);
        assert(ua[0] == x[0]);
        assert(ub[0] == y[0]);
        if x.len() == 2 && y.len() == 2 {
            assert(ua[1] == x[1]);
            assert(ub[1] == y[1]);
        }
        assert(x.len() == y.len());
        let u = a[0] as u32;
        assert(u == b[0] as u32);
        vstd::utf8::char_u32_cast(a[0], u);
        vstd::utf8::char_u32_cast(b[0], u);
        assert(utf16(a.drop_first()) =~= ua.skip(x.len() as int));
        assert(utf16(b.drop_first()) =~= ub.skip(y.len() as int));
        utf16_injective(a.drop_first(), b.drop_first());
        assert(a =~= seq![a[0]] + a.drop_first());
        assert(b =~= seq![b[0]] + b.drop_first());
    }
}

/// Calls `String::from_utf16`. Believed of it: it gives the text whose UTF-16 units these
/// are, and an error exactly when there is no such text.
#[verifier::external_body]
fn from_utf16(units: &Vec<u16>) -> (r: Option<String>)
    ensures
        match r {
            Some(s) => utf16(s@) == units@,
            None => forall|s: Seq<char>| utf16(s) != units@,
        },
{
    String::from_utf16(units).ok()
}

/// The text that UTF-16 units encode; `None` where a surrogate is unpaired.
pub fn utf16_text(units: &Vec<u16>) -> (r: Option<String>)
    ensures
        match r {
            Some(s) => utf16_decoded(units@) == Some(s@),
            None => utf16_decoded(units@) is None,
        },
{
    let r = from_utf16(units);
    proof {
        if r is Some {
            let t = choose|s: Seq<char>| utf16(s) == units@;
            utf16_injective(r->0@, t);
        }
    }
    r
}

} // verus!
