//! What the values of keyed metadata and of number atoms are read as, value by value.

use crate::bytes::be32;
use crate::bytes::be32_bytes;
use crate::bytes::be32_round_trip;
use crate::bytes::be64;
use crate::bytes::be_value;
use crate::mp4::values::be_signed;
use crate::mp4::values::be_signed_value;
use crate::mp4::values::be_units;
use crate::mp4::values::be_unsigned;
use crate::mp4::values::image_mime;
use crate::mp4::values::keyed_text;
use crate::mp4::values::number_total;
use crate::mp4::values::opt_value_view;
use crate::mp4::values::without_mark;
use crate::mp4::values::TagValue;
use crate::mp4::values::ValueModel;
use crate::number_laws::decimal_is_text;
use crate::number_laws::is_decimal_of;
use crate::number_laws::is_signed_decimal_of;
use crate::number_laws::signed_decimal_is_text;
use crate::text::utf16;
use crate::text::utf16_decoded;
use crate::text::utf16_injective;
use crate::text::utf8;
use vstd::prelude::*;
use vstd::utf8::*;

verus! {

/// The `n` big-endian bytes of a number, in two's complement where it is negative.
pub open spec fn big_endian(v: int, n: nat) -> Seq<u8>
    decreases n,
{
    if n == 0 {
        Seq::empty()
    } else {
        big_endian(v / 256, (n - 1) as nat).push((v % 256) as u8)
    }
}

/// How many numbers `n` bytes tell apart.
pub open spec fn reach(n: nat) -> int
    decreases n,
{
    if n == 0 {
        1
    } else {
        256 * reach((n - 1) as nat)
    }
}

/// The number fits `n` bytes of two's complement.
pub open spec fn fits_signed(v: int, n: nat) -> bool {
    n > 0 && -128 * reach((n - 1) as nat) <= v < 128 * reach((n - 1) as nat)
}

/// The number fits `n` bytes without a sign.
pub open spec fn fits_unsigned(v: int, n: nat) -> bool {
    0 <= v < reach(n)
}

pub(crate) proof fn big_endian_len(v: int, n: nat)
    ensures
        big_endian(v, n).len() == n,
    decreases n,
{
    if n > 0 {
        big_endian_len(v / 256, (n - 1) as nat);
    }
}

proof fn signed_bytes_decode(v: int, n: nat)
    requires
        fits_signed(v, n),
    ensures
        be_signed_value(big_endian(v, n)) == v,
    decreases n,
{
    let b = big_endian(v, n);
    big_endian_len(v, n);
    if n == 1 {
        assert(reach(0) == 1);
        assert(b[0] == (v % 256) as u8);
    } else {
        let m = (n - 1) as nat;
        let w = v / 256;
        assert(reach(m) == 256 * reach((m - 1) as nat));
        assert(fits_signed(w, m));
        signed_bytes_decode(w, m);
        assert(b.drop_last() =~= big_endian(w, m));
        assert(v == 256 * w + v % 256);
    }
}

pub(crate) proof fn unsigned_bytes_decode(v: int, n: nat)
    requires
        fits_unsigned(v, n),
    ensures
        be_value(big_endian(v, n)) == v,
    decreases n,
{
    let b = big_endian(v, n);
    big_endian_len(v, n);
    if n > 0 {
        let m = (n - 1) as nat;
        unsigned_bytes_decode(v / 256, m);
        assert(b.drop_last() =~= big_endian(v / 256, m));
    }
}

/// The big-endian bytes of a number, one to eight of them, are read as that number.
pub proof fn integers_are_read(value: &[u8], v: int, n: nat, signed: i64, unsigned: u64)
    requires
        1 <= n <= 8,
        value@ == big_endian(v, n),
        call_ensures(be_signed, (value,), signed),
        call_ensures(be_unsigned, (value,), unsigned),
    ensures
        fits_signed(v, n) ==> signed == v,
        fits_unsigned(v, n) ==> unsigned == v,
{
    if fits_signed(v, n) {
        signed_bytes_decode(v, n);
    }
    if fits_unsigned(v, n) {
        unsigned_bytes_decode(v, n);
    }
}

/// A signed integer of the variable-width type, of one to eight bytes, or of a fixed-width
/// type and its width, is read as the decimal text of the number that its bytes hold.
pub proof fn signed_values_are_read(
    type_code: u32,
    value: &[u8],
    v: int,
    n: nat,
    r: Option<TagValue>,
)
    requires
        fits_signed(v, n),
        value@ == big_endian(v, n),
        (type_code == 21 && 1 <= n <= 8) || (type_code == 65 && n == 1) || (type_code == 66 && n
            == 2) || (type_code == 67 && n == 4) || (type_code == 74 && n == 8),
        call_ensures(keyed_text, (type_code, value), r),
    ensures
        match r {
            Some(TagValue::Text(s)) => is_signed_decimal_of(s@, v),
            _ => false,
        },
{
    big_endian_len(v, n);
    signed_bytes_decode(v, n);
    signed_decimal_is_text(v);
}

/// An unsigned integer of the variable-width type, of one to eight bytes, or of a fixed-width
/// type and its width, is read as the decimal text of the number that its bytes hold.
pub proof fn unsigned_values_are_read(
    type_code: u32,
    value: &[u8],
    v: int,
    n: nat,
    r: Option<TagValue>,
)
    requires
        fits_unsigned(v, n),
        value@ == big_endian(v, n),
        (type_code == 22 && 1 <= n <= 8) || (type_code == 75 && n == 1) || (type_code == 76 && n
            == 2) || (type_code == 77 && n == 4) || (type_code == 78 && n == 8),
        call_ensures(keyed_text, (type_code, value), r),
    ensures
        match r {
            Some(TagValue::Text(s)) => is_decimal_of(s@, v),
            _ => false,
        },
{
    big_endian_len(v, n);
    unsigned_bytes_decode(v, n);
    decimal_is_text(v);
}

/// Text in UTF-8 is read as that text, and bytes that are no UTF-8 as nothing.
pub proof fn utf8_values_are_read(value: &[u8], text: Seq<char>, r: Option<TagValue>)
    requires
        call_ensures(keyed_text, (1u32, value), r),
    ensures
        value@ == utf8(text) ==> match r {
            Some(TagValue::Text(s)) => s@ == text,
            _ => false,
        },
        !valid_utf8(value@) ==> r is None,
{
    if value@ == utf8(text) {
        encode_utf8_valid_utf8(text);
        encode_utf8_decode_utf8(text);
    }
}

/// Units as big-endian pairs of bytes.
pub open spec fn unit_bytes(u: Seq<u16>) -> Seq<u8> {
    Seq::new(
        2 * u.len(),
        |i: int|
            if i % 2 == 0 {
                (u[i / 2] / 256) as u8
            } else {
                (u[i / 2] % 256) as u8
            },
    )
}

/// Text in UTF-16BE, with a byte-order mark in front or without, is read as that text. (Text
/// that itself begins with U+FEFF loses it without a mark in front.)
pub proof fn utf16_values_are_read(
    value: &[u8],
    text: Seq<char>,
    mark: bool,
    r: Option<TagValue>,
)
    requires
        mark || !(utf16(text).len() > 0 && utf16(text)[0] == 0xfeff),
        value@ == unit_bytes(
            (if mark {
                seq![0xfeffu16]
            } else {
                Seq::empty()
            }) + utf16(text),
        ),
        call_ensures(keyed_text, (2u32, value), r),
    ensures
        match r {
            Some(TagValue::Text(s)) => s@ == text,
            _ => false,
        },
{
    let u = (if mark {
        seq![0xfeffu16]
    } else {
        Seq::empty()
    }) + utf16(text);
    let b = value@;
    assert(b.len() == 2 * u.len());
    assert forall|i: int| 0 <= i < u.len() implies #[trigger] be_units(b)[i] == u[i] by {
        assert((2 * i) % 2 == 0 && (2 * i) / 2 == i && (2 * i + 1) % 2 == 1 && (2 * i + 1) / 2 == i);
        assert(b[2 * i] == (u[i] / 256) as u8);
        assert(b[2 * i + 1] == (u[i] % 256) as u8);
    }
    assert(be_units(b) =~= u);
    assert(without_mark(u) =~= utf16(text));
    assert(utf16(text) == utf16(text));
    assert(utf16_decoded(utf16(text)) is Some);
    utf16_injective(utf16_decoded(utf16(text))->0, text);
}

/// An odd number of bytes is no UTF-16.
pub proof fn odd_bytes_are_no_utf16(value: &[u8], r: Option<TagValue>)
    requires
        value@.len() % 2 == 1,
        call_ensures(keyed_text, (2u32, value), r),
    ensures
        r is None,
{
}

/// A finite float is handed out as its bits, and one that is not finite as nothing.
pub proof fn floats_are_read(
    bits: u32,
    wide: u64,
    value: &[u8],
    wide_value: &[u8],
    r: Option<TagValue>,
    s: Option<TagValue>,
)
    requires
        value@ == big_endian(bits as int, 4),
        wide_value@ == big_endian(wide as int, 8),
        call_ensures(keyed_text, (23u32, value), r),
        call_ensures(keyed_text, (24u32, wide_value), s),
    ensures
        bits / 8388608 % 256 != 255 ==> opt_value_view(r) == Some(
            ValueModel::Float32(bits as int),
        ),
        bits / 8388608 % 256 == 255 ==> r is None,
        wide / 4503599627370496 % 2048 != 2047 ==> opt_value_view(s) == Some(
            ValueModel::Float64(wide as int),
        ),
        wide / 4503599627370496 % 2048 == 2047 ==> s is None,
{
    big_endian_len(bits as int, 4);
    big_endian_len(wide as int, 8);
    four_bytes(bits as int);
    eight_bytes(wide as int);
}

proof fn four_bytes(v: int)
    requires
        0 <= v <= u32::MAX,
    ensures
        big_endian(v, 4) == be32_bytes(v),
        be32(big_endian(v, 4), 0) == v,
{
    reveal_with_fuel(big_endian, 5);
    be32_round_trip(v);
    let b = big_endian(v, 4);
    big_endian_len(v, 4);
    assert(v / 256 / 256 == v / 65536 && v / 256 / 256 / 256 == v / 16777216);
    assert(b =~= be32_bytes(v));
}

proof fn eight_bytes(v: int)
    requires
        0 <= v <= u64::MAX,
    ensures
        be64(big_endian(v, 8), 0) == v,
{
    let b = big_endian(v, 8);
    big_endian_len(v, 8);
    assert(reach(8) == 0x1_0000_0000_0000_0000) by {
        reveal_with_fuel(reach, 9);
    }
    unsigned_bytes_decode(v, 8);
    reveal_with_fuel(be_value, 9);
    let b7 = b.drop_last();
    let b6 = b7.drop_last();
    let b5 = b6.drop_last();
    let b4 = b5.drop_last();
    let b3 = b4.drop_last();
    let b2 = b3.drop_last();
    let b1 = b2.drop_last();
    assert(be_value(b1.drop_last()) == 0);
    assert(be_value(b1) == b[0]);
    assert(be_value(b2) == be_value(b1) * 256 + b[1]);
    assert(be_value(b3) == be_value(b2) * 256 + b[2]);
    assert(be_value(b4) == be_value(b3) * 256 + b[3]);
    assert(be_value(b5) == be_value(b4) * 256 + b[4]);
    assert(be_value(b6) == be_value(b5) * 256 + b[5]);
    assert(be_value(b7) == be_value(b6) * 256 + b[6]);
    assert(be_value(b) == be_value(b7) * 256 + b[7]);
    assert(be32(b, 0) == be_value(b4));
}

/// A value of another type, or of a length that does not fit its type, is read as nothing.
pub proof fn other_values_are_left_out(type_code: u32, value: &[u8], r: Option<TagValue>)
    requires
        call_ensures(keyed_text, (type_code, value), r),
    ensures
        r is Some ==> type_code == 1 || type_code == 2 || type_code == 21 || type_code == 22
            || type_code == 23 || type_code == 24 || type_code == 65 || type_code == 66 || type_code
            == 67 || type_code == 74 || type_code == 75 || type_code == 76 || type_code == 77
            || type_code == 78,
        r is Some && (type_code == 21 || type_code == 22) ==> 1 <= value@.len() <= 8,
        r is Some && (type_code == 65 || type_code == 75) ==> value@.len() == 1,
        r is Some && (type_code == 66 || type_code == 76) ==> value@.len() == 2,
        r is Some && (type_code == 67 || type_code == 77 || type_code == 23) ==> value@.len() == 4,
        r is Some && (type_code == 74 || type_code == 78 || type_code == 24) ==> value@.len() == 8,
{
}

/// The image types are JPEG and PNG.
pub proof fn image_types(type_code: u32, r: Option<&'static str>)
    requires
        call_ensures(image_mime, (type_code,), r),
    ensures
        type_code == 13 ==> r is Some && r->0@ == "image/jpeg"@,
        type_code == 14 ==> r is Some && r->0@ == "image/png"@,
        type_code != 13 && type_code != 14 ==> r is None,
{
}

/// A number atom is read as its number, and as number and total where there is a total.
pub proof fn numbers_and_totals_are_read(
    value: &[u8],
    n: int,
    m: int,
    front: Seq<u8>,
    after: Seq<u8>,
    r: String,
)
    requires
        0 <= n < 65536,
        0 <= m < 65536,
        front.len() == 2,
        value@ == front + big_endian(n, 2) + big_endian(m, 2) + after || (m == 0 && value@ == front
            + big_endian(n, 2) + after && after.len() < 2),
        call_ensures(number_total, (value,), r),
    ensures
        m == 0 ==> is_decimal_of(r@, n),
        m > 0 ==> exists|a: Seq<char>, b: Seq<char>|
            is_decimal_of(a, n) && is_decimal_of(b, m) && #[trigger] (a + "/"@ + b) == r@,
{
    reveal_with_fuel(big_endian, 3);
    big_endian_len(n, 2);
    big_endian_len(m, 2);
    let x = big_endian(n, 2);
    let y = big_endian(m, 2);
    let v = value@;
    assert(v[2] == x[0] && v[3] == x[1]);
    assert(x[0] == n / 256 && x[1] == n % 256);
    decimal_is_text(n);
    decimal_is_text(m);
    if v.len() >= 6 && v == front + x + y + after {
        assert(v[4] == y[0] && v[5] == y[1]);
        assert(y[0] == m / 256 && y[1] == m % 256);
    }
    if m > 0 {
        let a = crate::text::decimal(n);
        let b = crate::text::decimal(m);
        assert(a + "/"@ + b == r@);
    }
}

} // verus!
