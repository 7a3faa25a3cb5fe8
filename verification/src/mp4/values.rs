//! Values of metadata items: integers, numbers with a total, keyed values by their type, and
//! image types.

use crate::bytes::be16;
use crate::bytes::be32;
use crate::bytes::be64;
use crate::bytes::be_number;
use crate::bytes::be_value;
use crate::bytes::front_eight;
use crate::bytes::read_u32_be;
use crate::bytes::read_u64_be;
use crate::text::decimal;
use crate::text::decimal_text;
use crate::text::signed_decimal;
use crate::text::signed_decimal_text;
use crate::text::utf16_decoded;
use crate::text::utf16_text;
use crate::text::utf8_text;
use vstd::prelude::*;
use vstd::string::*;
use vstd::utf8::*;

verus! {

/// The value of a text tag. A keyed floating-point value is handed out as its bits, and
/// written as text by whoever shows it.
#[derive(Debug, Clone, PartialEq, Eq)]
pub enum TagValue {
    Text(String),
    /// The bits of a finite 32-bit float.
    Float32(u32),
    /// The bits of a finite 64-bit float.
    Float64(u64),
}

/// The value of a text tag.
pub ghost enum ValueModel {
    Text(Seq<char>),
    Float32(int),
    Float64(int),
}

/// What a value stands for.
pub open spec fn value_view(v: TagValue) -> ValueModel {
    match v {
        TagValue::Text(s) => ValueModel::Text(s@),
        TagValue::Float32(b) => ValueModel::Float32(b as int),
        TagValue::Float64(b) => ValueModel::Float64(b as int),
    }
}

/// A big-endian two's-complement number of any length.
pub open spec fn be_signed_value(b: Seq<u8>) -> int
    decreases b.len(),
{
    if b.len() <= 1 {
        if b[0] >= 0x80 {
            b[0] - 0x100
        } else {
            b[0] as int
        }
    } else {
        be_signed_value(b.drop_last()) * 0x100 + b.last()
    }
}

/// A big-endian unsigned integer of up to 8 bytes.
pub fn be_unsigned(value: &[u8]) -> (r: u64)
    requires
        value@.len() <= 8,
    ensures
        r == be_value(value@),
{
    assert(front_eight(value@) =~= value@);
    be_number(value)
}

/// A big-endian two's-complement integer of 1 to 8 bytes, sign-extended.
pub fn be_signed(value: &[u8]) -> (r: i64)
    requires
        1 <= value@.len() <= 8,
    ensures
        r == be_signed_value(value@),
{
    let n: usize = value.len();
    let mut v: i64 = if value[0] >= 0x80 {
        value[0] as i64 - 0x100
    } else {
        value[0] as i64
    };
    let mut i: usize = 1;
    let ghost mut room: int = 0x80;
    assert(value@.take(1)[0] == value@[0]);
    while i < n
        invariant
            1 <= i <= n <= 8,
            n == value@.len(),
            v == be_signed_value(value@.take(i as int)),
            -room <= v < room,
            i == 1 ==> room == 0x80,
            i == 2 ==> room == 0x8000,
            i == 3 ==> room == 0x80_0000,
            i == 4 ==> room == 0x8000_0000,
            i == 5 ==> room == 0x80_0000_0000,
            i == 6 ==> room == 0x8000_0000_0000,
            i == 7 ==> room == 0x80_0000_0000_0000,
        decreases n - i,
    {
        assert(value@.take(i + 1).drop_last() =~= value@.take(i as int));
        v = v * 0x100 + value[i] as i64;
        proof {
            room = room * 0x100;
        }
        i = i + 1;
    }
    assert(value@.take(n as int) =~= value@);
    v
}

/// Big-endian pairs of bytes as units.
pub open spec fn be_units(b: Seq<u8>) -> Seq<u16> {
    Seq::new((b.len() / 2) as nat, |i: int| be16(b, 2 * i) as u16)
}

/// Units without a leading byte-order mark.
pub open spec fn without_mark(u: Seq<u16>) -> Seq<u16> {
    if u.len() > 0 && u[0] == 0xfeff {
        u.drop_first()
    } else {
        u
    }
}

/// The text of UTF-16BE bytes.
pub open spec fn utf16_be_text(b: Seq<u8>) -> Option<Seq<char>> {
    if b.len() % 2 == 0 {
        utf16_decoded(without_mark(be_units(b)))
    } else {
        None
    }
}

/// Decode UTF-16BE text, dropping a leading byte-order mark. An odd byte count
/// or an unpaired surrogate is not text.
pub fn utf16_be(value: &[u8]) -> (r: Option<String>)
    ensures
        match r {
            Some(s) => utf16_be_text(value@) == Some(s@),
            None => utf16_be_text(value@) is None,
        },
{
    let n: usize = value.len();
    if n % 2 != 0 {
        return None;
    }
    let ghost all = be_units(value@);
    let mut units: Vec<u16> = Vec::new();
    let mut i: usize = 0;
    let ghost mut dropped: int = 0;
    while i < n
        invariant
            i <= n,
            n == value@.len(),
            n % 2 == 0,
            i % 2 == 0,
            all == be_units(value@),
            dropped == 0 || dropped == 1,
            dropped <= i as int / 2,
            dropped == 1 ==> all[0] == 0xfeff,
            dropped == 0 && i > 0 ==> all[0] != 0xfeff,
            units@ == all.subrange(dropped, i as int / 2),
        decreases n - i,
    {
        assert(i + 1 < n);
        let u: u16 = value[i] as u16 * 0x100 + value[i + 1] as u16;
        assert(u == all[i as int / 2]) by {
            assert(2 * (i as int / 2) == i);
        }
        if i == 0 && u == 0xfeff {
            proof {
                dropped = 1;
            }
            assert(units@ =~= all.subrange(1, 1));
        } else {
            units.push(u);
            assert(units@ =~= all.subrange(dropped, i as int / 2 + 1));
        }
        i = i + 2;
    }
    assert(units@ =~= without_mark(all));
    utf16_text(&units)
}

/// The bits are those of a finite 32-bit float: the exponent is not all ones.
pub open spec fn finite32(bits: int) -> bool {
    (bits / 0x80_0000) % 0x100 != 0xff
}

/// The bits are those of a finite 64-bit float: the exponent is not all ones.
pub open spec fn finite64(bits: int) -> bool {
    (bits / 0x10_0000_0000_0000) % 0x800 != 0x7ff
}

/// A value of the type is a signed integer.
pub open spec fn is_signed_type(t: int, n: int) -> bool {
    ||| t == 21 && 1 <= n <= 8
    ||| t == 65 && n == 1
    ||| t == 66 && n == 2
    ||| t == 67 && n == 4
    ||| t == 74 && n == 8
}

/// A value of the type is an unsigned integer.
pub open spec fn is_unsigned_type(t: int, n: int) -> bool {
    ||| t == 22 && 1 <= n <= 8
    ||| t == 75 && n == 1
    ||| t == 76 && n == 2
    ||| t == 77 && n == 4
    ||| t == 78 && n == 8
}

/// The text value of a keyed `data` value of type `t`.
pub open spec fn keyed_value(t: int, v: Seq<u8>) -> Option<ValueModel> {
    let n = v.len() as int;
    if t == 1 {
        if valid_utf8(v) {
            Some(ValueModel::Text(decode_utf8(v)))
        } else {
            None
        }
    } else if t == 2 {
        match utf16_be_text(v) {
            Some(s) => Some(ValueModel::Text(s)),
            None => None,
        }
    } else if is_signed_type(t, n) {
        Some(ValueModel::Text(signed_decimal(be_signed_value(v))))
    } else if is_unsigned_type(t, n) {
        Some(ValueModel::Text(decimal(be_value(v))))
    } else if t == 23 && n == 4 && finite32(be32(v, 0)) {
        Some(ValueModel::Float32(be32(v, 0)))
    } else if t == 24 && n == 8 && finite64(be64(v, 0)) {
        Some(ValueModel::Float64(be64(v, 0)))
    } else {
        None
    }
}

/// What an optional value stands for.
pub open spec fn opt_value_view(v: Option<TagValue>) -> Option<ValueModel> {
    match v {
        Some(x) => Some(value_view(x)),
        None => None,
    }
}

/// A keyed `data` value as a tag value, by its QTFF well-known type: UTF-8
/// (1) and UTF-16BE (2, a leading byte-order mark dropped); the big-endian
/// integers, variable-width signed (21) and unsigned (22), and the fixed-width
/// 8/16/32/64-bit signed (65/66/67/74) and unsigned (75/76/77/78), as decimal;
/// and finite float32 (23) / float64 (24). Every
/// other type (sort-only strings, S/JIS, images, structured types) and every value
/// whose length does not fit its type is not text: `None`.
pub fn keyed_text(type_code: u32, value: &[u8]) -> (r: Option<TagValue>)
    ensures
        opt_value_view(r) == keyed_value(type_code as int, value@),
{
    let n: usize = value.len();
    if type_code == 1 {
        match utf8_text(value) {
            Some(s) => Some(TagValue::Text(s.to_owned())),
            None => None,
        }
    } else if type_code == 2 {
        match utf16_be(value) {
            Some(s) => Some(TagValue::Text(s)),
            None => None,
        }
    } else if (type_code == 21 && 1 <= n && n <= 8) || (type_code == 65 && n == 1) || (type_code
        == 66 && n == 2) || (type_code == 67 && n == 4) || (type_code == 74 && n == 8) {
        Some(TagValue::Text(signed_decimal_text(be_signed(value))))
    } else if (type_code == 22 && 1 <= n && n <= 8) || (type_code == 75 && n == 1) || (type_code
        == 76 && n == 2) || (type_code == 77 && n == 4) || (type_code == 78 && n == 8) {
        Some(TagValue::Text(decimal_text(be_unsigned(value))))
    } else if type_code == 23 && n == 4 {
        match read_u32_be(value, 0) {
            Ok(bits) if (bits / 0x80_0000) % 0x100 != 0xff => Some(TagValue::Float32(bits)),
            _ => None,
        }
    } else if type_code == 24 && n == 8 {
        match read_u64_be(value, 0) {
            Ok(bits) if (bits / 0x10_0000_0000_0000) % 0x800 != 0x7ff => Some(
                TagValue::Float64(bits),
            ),
            _ => None,
        }
    } else {
        None
    }
}

/// The image MIME type for a `covr`/artwork `data` type code.
pub open spec fn image_type(t: int) -> Option<Seq<char>> {
    if t == 13 {
        Some("image/jpeg"@)
    } else if t == 14 {
        Some("image/png"@)
    } else {
        None
    }
}

/// The image MIME type for a `covr`/artwork `data` type code: JPEG (13) and PNG
/// (14) only.
pub fn image_mime(type_code: u32) -> (r: Option<&'static str>)
    ensures
        match r {
            Some(s) => image_type(type_code as int) == Some(s@),
            None => image_type(type_code as int) is None,
        },
{
    if type_code == 13 {
        Some("image/jpeg")
    } else if type_code == 14 {
        Some("image/png")
    } else {
        None
    }
}

/// A `trkn`/`disk` value body `[reserved 2][number 2][total 2]...` as `"N"` or `"N/M"`.
pub open spec fn number_text(v: Seq<u8>) -> Seq<char> {
    if v.len() >= 6 && be16(v, 4) != 0 {
        decimal(be16(v, 2)) + "/"@ + decimal(be16(v, 4))
    } else {
        decimal(be16(v, 2))
    }
}

/// Format a `trkn`/`disk` value body `[reserved 2][number 2][total 2]...` as the
/// canonical `"N"` or `"N/M"` string. The `"N/M"` form matches how ID3
/// `TRCK`/`TPOS` carry the total in the shared `tracknumber`/`discnumber` value;
/// a zero or absent total drops the `/M`.
pub fn number_total(value: &[u8]) -> (r: String)
    requires
        value@.len() >= 4,
    ensures
        r@ == number_text(value@),
{
    let number: u64 = value[2] as u64 * 0x100 + value[3] as u64;
    let total: u64 = if value.len() >= 6 {
        value[4] as u64 * 0x100 + value[5] as u64
    } else {
        0
    };
    let mut s = decimal_text(number);
    if total != 0 {
        s.append("/");
        s.append(decimal_text(total).as_str());
    }
    assert(s@ =~= number_text(value@));
    s
}

} // verus!
