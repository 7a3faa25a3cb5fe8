//! Fixed-width integers in byte sequences: what they are, how they are read with a
//! bounds check, and how they are appended.

use crate::error::FormatError;
use crate::error::Result;
use vstd::prelude::*;

verus! {

/// The big-endian 16-bit value at `p`.
pub open spec fn be16(d: Seq<u8>, p: int) -> int {
    d[p] * 0x100 + d[p + 1]
}

/// The big-endian 24-bit value at `p`.
pub open spec fn be24(d: Seq<u8>, p: int) -> int {
    d[p] * 0x1_0000 + d[p + 1] * 0x100 + d[p + 2]
}

/// The big-endian 32-bit value at `p`.
pub open spec fn be32(d: Seq<u8>, p: int) -> int {
    d[p] * 0x100_0000 + d[p + 1] * 0x1_0000 + d[p + 2] * 0x100 + d[p + 3]
}

/// The big-endian 64-bit value at `p`.
pub open spec fn be64(d: Seq<u8>, p: int) -> int {
    be32(d, p) * 0x1_0000_0000 + be32(d, p + 4)
}

/// The little-endian 32-bit value at `p`.
pub open spec fn le32(d: Seq<u8>, p: int) -> int {
    d[p] + d[p + 1] * 0x100 + d[p + 2] * 0x1_0000 + d[p + 3] * 0x100_0000
}

/// The little-endian 64-bit value at `p`.
pub open spec fn le64(d: Seq<u8>, p: int) -> int {
    le32(d, p) + le32(d, p + 4) * 0x1_0000_0000
}

/// Byte `i`, counted from the least significant, of a non-negative number.
pub open spec fn byte_of(v: int, i: int) -> u8 {
    if i == 0 {
        (v % 0x100) as u8
    } else if i == 1 {
        ((v / 0x100) % 0x100) as u8
    } else if i == 2 {
        ((v / 0x1_0000) % 0x100) as u8
    } else {
        ((v / 0x100_0000) % 0x100) as u8
    }
}

/// A 16-bit value as two big-endian bytes.
pub open spec fn be16_bytes(v: int) -> Seq<u8> {
    seq![byte_of(v, 1), byte_of(v, 0)]
}

/// A 24-bit value as three big-endian bytes.
pub open spec fn be24_bytes(v: int) -> Seq<u8> {
    seq![byte_of(v, 2), byte_of(v, 1), byte_of(v, 0)]
}

/// A 32-bit value as four big-endian bytes.
pub open spec fn be32_bytes(v: int) -> Seq<u8> {
    seq![byte_of(v, 3), byte_of(v, 2), byte_of(v, 1), byte_of(v, 0)]
}

/// A 64-bit value as eight big-endian bytes.
pub open spec fn be64_bytes(v: int) -> Seq<u8> {
    be32_bytes(v / 0x1_0000_0000) + be32_bytes(v % 0x1_0000_0000)
}

/// A 32-bit value as four little-endian bytes.
pub open spec fn le32_bytes(v: int) -> Seq<u8> {
    seq![byte_of(v, 0), byte_of(v, 1), byte_of(v, 2), byte_of(v, 3)]
}

/// A 64-bit value as eight little-endian bytes.
pub open spec fn le64_bytes(v: int) -> Seq<u8> {
    le32_bytes(v % 0x1_0000_0000) + le32_bytes(v / 0x1_0000_0000)
}

/// Reading back a big-endian 32-bit value gives the value that was written.
pub proof fn be32_round_trip(v: int)
    requires
        0 <= v <= u32::MAX,
    ensures
        be32_bytes(v).len() == 4,
        be32(be32_bytes(v), 0) == v,
{
}

/// Reading back a big-endian 64-bit value gives the value that was written.
pub proof fn be64_round_trip(v: int)
    requires
        0 <= v <= u64::MAX,
    ensures
        be64_bytes(v).len() == 8,
        be64(be64_bytes(v), 0) == v,
{
    be32_round_trip(v / 0x1_0000_0000);
    be32_round_trip(v % 0x1_0000_0000);
}

/// Reading back a little-endian 32-bit value gives the value that was written.
pub proof fn le32_round_trip(v: int)
    requires
        0 <= v <= u32::MAX,
    ensures
        le32_bytes(v).len() == 4,
        le32(le32_bytes(v), 0) == v,
{
}

/// Four bytes are the little-endian form of the value they hold.
pub proof fn le32_bytes_of_le32(d: Seq<u8>, p: int)
    requires
        0 <= p,
        p + 4 <= d.len(),
    ensures
        le32_bytes(le32(d, p)) == d.subrange(p, p + 4),
        0 <= le32(d, p) <= u32::MAX,
{
    let a = d[p] as int;
    let b = d[p + 1] as int;
    let c = d[p + 2] as int;
    let e = d[p + 3] as int;
    let v = le32(d, p);
    assert(v == a + 0x100 * (b + 0x100 * (c + 0x100 * e)));
    assert(v % 0x100 == a);
    assert((v / 0x100) % 0x100 == b);
    assert((v / 0x1_0000) % 0x100 == c);
    assert((v / 0x100_0000) % 0x100 == e);
    assert(le32_bytes(v) =~= d.subrange(p, p + 4));
}

/// The 32-bit big-endian value at `pos`, or `Malformed` if the field runs past the
/// end of `data`.
pub fn read_u32_be(data: &[u8], pos: usize) -> (r: Result<u32>)
    ensures
        match r {
            Ok(v) => pos + 4 <= data@.len() && v == be32(data@, pos as int),
            Err(e) => e == FormatError::Malformed && pos + 4 > data@.len(),
        },
{
    if pos > data.len() || data.len() - pos < 4 {
        return Err(FormatError::Malformed);
    }
    Ok(
        data[pos] as u32 * 0x100_0000 + data[pos + 1] as u32 * 0x1_0000 + data[pos + 2] as u32
            * 0x100 + data[pos + 3] as u32,
    )
}

/// The 64-bit big-endian value at `pos`, or `Malformed` if the field runs past the
/// end of `data`.
pub fn read_u64_be(data: &[u8], pos: usize) -> (r: Result<u64>)
    ensures
        match r {
            Ok(v) => pos + 8 <= data@.len() && v == be64(data@, pos as int),
            Err(e) => e == FormatError::Malformed && pos + 8 > data@.len(),
        },
{
    if pos > data.len() || data.len() - pos < 8 {
        return Err(FormatError::Malformed);
    }
    let hi: u32 = data[pos] as u32 * 0x100_0000 + data[pos + 1] as u32 * 0x1_0000 + data[pos
        + 2] as u32 * 0x100 + data[pos + 3] as u32;
    let lo: u32 = data[pos + 4] as u32 * 0x100_0000 + data[pos + 5] as u32 * 0x1_0000 + data[pos
        + 6] as u32 * 0x100 + data[pos + 7] as u32;
    Ok(hi as u64 * 0x1_0000_0000 + lo as u64)
}

/// The 32-bit little-endian value at `pos`, or `Malformed` if the field runs past the
/// end of `data`.
pub fn read_u32_le(data: &[u8], pos: usize) -> (r: Result<u32>)
    ensures
        match r {
            Ok(v) => pos + 4 <= data@.len() && v == le32(data@, pos as int),
            Err(e) => e == FormatError::Malformed && pos + 4 > data@.len(),
        },
{
    if pos > data.len() || data.len() - pos < 4 {
        return Err(FormatError::Malformed);
    }
    Ok(
        data[pos] as u32 + data[pos + 1] as u32 * 0x100 + data[pos + 2] as u32 * 0x1_0000
            + data[pos + 3] as u32 * 0x100_0000,
    )
}

/// Append all of `s`.
pub fn append(out: &mut Vec<u8>, s: &[u8])
    ensures
        final(out)@ == old(out)@ + s@,
{
    out.extend_from_slice(s);
    assert(out@ =~= old(out)@ + s@);
}

/// A copy of `data[start..end]`.
pub fn copy_range(data: &[u8], start: usize, end: usize) -> (r: Vec<u8>)
    requires
        start <= end <= data@.len(),
    ensures
        r@ == data@.subrange(start as int, end as int),
{
    let mut out: Vec<u8> = Vec::new();
    append(&mut out, vstd::slice::slice_subrange(data, start, end));
    assert(out@ =~= data@.subrange(start as int, end as int));
    out
}

/// True when the two byte strings are the same.
pub fn same_bytes(a: &[u8], b: &[u8]) -> (r: bool)
    ensures
        r == (a@ == b@),
{
    if a.len() != b.len() {
        return false;
    }
    let mut i: usize = 0;
    while i < a.len()
        invariant
            i <= a@.len(),
            a@.len() == b@.len(),
            forall|k: int| 0 <= k < i ==> a@[k] == b@[k],
        decreases a@.len() - i,
    {
        if a[i] != b[i] {
            return false;
        }
        i = i + 1;
    }
    assert(a@ =~= b@);
    true
}

/// Append a 16-bit value, most significant byte first.
pub fn push_u16_be(out: &mut Vec<u8>, v: u16)
    ensures
        final(out)@ == old(out)@ + be16_bytes(v as int),
{
    out.push((v / 0x100) as u8);
    out.push((v % 0x100) as u8);
    assert(out@ =~= old(out)@ + be16_bytes(v as int));
}

/// Append a 32-bit value, most significant byte first.
pub fn push_u32_be(out: &mut Vec<u8>, v: u32)
    ensures
        final(out)@ == old(out)@ + be32_bytes(v as int),
{
    out.push((v / 0x100_0000) as u8);
    out.push(((v / 0x1_0000) % 0x100) as u8);
    out.push(((v / 0x100) % 0x100) as u8);
    out.push((v % 0x100) as u8);
    assert(out@ =~= old(out)@ + be32_bytes(v as int));
}

/// Append a 64-bit value, most significant byte first.
pub fn push_u64_be(out: &mut Vec<u8>, v: u64)
    ensures
        final(out)@ == old(out)@ + be64_bytes(v as int),
{
    push_u32_be(out, (v / 0x1_0000_0000) as u32);
    push_u32_be(out, (v % 0x1_0000_0000) as u32);
    assert(out@ =~= old(out)@ + be64_bytes(v as int));
}

/// Append a 32-bit value, least significant byte first.
pub fn push_u32_le(out: &mut Vec<u8>, v: u32)
    ensures
        final(out)@ == old(out)@ + le32_bytes(v as int),
{
    out.push((v % 0x100) as u8);
    out.push(((v / 0x100) % 0x100) as u8);
    out.push(((v / 0x1_0000) % 0x100) as u8);
    out.push((v / 0x100_0000) as u8);
    assert(out@ =~= old(out)@ + le32_bytes(v as int));
}

/// Append a 64-bit value, least significant byte first.
pub fn push_u64_le(out: &mut Vec<u8>, v: u64)
    ensures
        final(out)@ == old(out)@ + le64_bytes(v as int),
{
    push_u32_le(out, (v % 0x1_0000_0000) as u32);
    push_u32_le(out, (v / 0x1_0000_0000) as u32);
    assert(out@ =~= old(out)@ + le64_bytes(v as int));
}

/// Overwrite the four bytes at `pos` with `v`, least significant byte first.
pub fn put_u32_le(out: &mut Vec<u8>, pos: usize, v: u32)
    requires
        pos + 4 <= old(out)@.len(),
    ensures
        final(out)@ == old(out)@.subrange(0, pos as int) + le32_bytes(v as int)
            + old(out)@.subrange(pos + 4, old(out)@.len() as int),
{
    let n: usize = out.len();
    assert(pos + 4 <= n);
    out[pos] = (v % 0x100) as u8;
    out[pos + 1] = ((v / 0x100) % 0x100) as u8;
    out[pos + 2] = ((v / 0x1_0000) % 0x100) as u8;
    out[pos + 3] = (v / 0x100_0000) as u8;
    assert(out@ =~= old(out)@.subrange(0, pos as int) + le32_bytes(v as int) + old(out)@.subrange(
        pos + 4,
        old(out)@.len() as int,
    ));
}

/// Overwrite the four bytes at `pos` with `v`, most significant byte first.
pub fn put_u32_be(out: &mut Vec<u8>, pos: usize, v: u32)
    requires
        pos + 4 <= old(out)@.len(),
    ensures
        final(out)@ == old(out)@.subrange(0, pos as int) + be32_bytes(v as int)
            + old(out)@.subrange(pos + 4, old(out)@.len() as int),
{
    let n: usize = out.len();
    assert(pos + 4 <= n);
    out[pos] = (v / 0x100_0000) as u8;
    out[pos + 1] = ((v / 0x1_0000) % 0x100) as u8;
    out[pos + 2] = ((v / 0x100) % 0x100) as u8;
    out[pos + 3] = (v % 0x100) as u8;
    assert(out@ =~= old(out)@.subrange(0, pos as int) + be32_bytes(v as int) + old(out)@.subrange(
        pos + 4,
        old(out)@.len() as int,
    ));
}

/// Overwrite the eight bytes at `pos` with `v`, most significant byte first.
pub fn put_u64_be(out: &mut Vec<u8>, pos: usize, v: u64)
    requires
        pos + 8 <= old(out)@.len(),
    ensures
        final(out)@ == old(out)@.subrange(0, pos as int) + be64_bytes(v as int)
            + old(out)@.subrange(pos + 8, old(out)@.len() as int),
{
    let n: usize = out.len();
    assert(pos + 8 <= n);
    put_u32_be(out, pos, (v / 0x1_0000_0000) as u32);
    put_u32_be(out, pos + 4, (v % 0x1_0000_0000) as u32);
    assert(out@ =~= old(out)@.subrange(0, pos as int) + be64_bytes(v as int) + old(out)@.subrange(
        pos + 8,
        old(out)@.len() as int,
    ));
}

/// The first place from `from` on where `b` stands in `s`; the end of `s` if there is none.
pub open spec fn find_byte(s: Seq<u8>, b: u8, from: int) -> int
    decreases s.len() - from,
{
    if from >= s.len() {
        s.len() as int
    } else if s[from] == b {
        from
    } else {
        find_byte(s, b, from + 1)
    }
}

/// Nothing before the place found is `b`, and what stands there is.
pub proof fn find_byte_finds(s: Seq<u8>, b: u8, from: int)
    requires
        0 <= from <= s.len(),
    ensures
        from <= find_byte(s, b, from) <= s.len(),
        forall|k: int| from <= k < find_byte(s, b, from) ==> s[k] != b,
        find_byte(s, b, from) < s.len() ==> s[find_byte(s, b, from)] == b,
    decreases s.len() - from,
{
    if from < s.len() && s[from] != b {
        find_byte_finds(s, b, from + 1);
    }
}

/// A place before which `b` does not stand, and where it does, is the place found.
pub proof fn find_byte_is(s: Seq<u8>, b: u8, from: int, at: int)
    requires
        0 <= from <= at < s.len(),
        forall|k: int| from <= k < at ==> s[k] != b,
        s[at] == b,
    ensures
        find_byte(s, b, from) == at,
    decreases at - from,
{
    if from < at {
        find_byte_is(s, b, from + 1, at);
    }
}

/// The first place where `b` stands in `s`, or the length of `s`.
pub fn position_of(s: &[u8], b: u8) -> (r: usize)
    ensures
        r == find_byte(s@, b, 0),
        r <= s@.len(),
{
    let mut i: usize = 0;
    while i < s.len()
        invariant
            i <= s@.len(),
            find_byte(s@, b, 0) == find_byte(s@, b, i as int),
        decreases s@.len() - i,
    {
        if s[i] == b {
            return i;
        }
        i = i + 1;
    }
    i
}

/// Where the front of `b` is `s` followed by `x`, `s` is the front and `x` follows it.
pub proof fn peel(b: Seq<u8>, s: Seq<u8>, x: Seq<u8>)
    requires
        s.len() + x.len() <= b.len(),
        b.take((s.len() + x.len()) as int) == s + x,
    ensures
        b.take(s.len() as int) == s,
        b.subrange(s.len() as int, (s.len() + x.len()) as int) == x,
{
    let n = (s.len() + x.len()) as int;
    assert(b.take(n).take(s.len() as int) =~= b.take(s.len() as int));
    assert((s + x).take(s.len() as int) =~= s);
    assert(b.take(n).subrange(s.len() as int, n) =~= b.subrange(s.len() as int, n));
    assert((s + x).subrange(s.len() as int, n) =~= x);
}

/// A big-endian number of any length.
pub open spec fn be_value(b: Seq<u8>) -> int
    decreases b.len(),
{
    if b.len() == 0 {
        0
    } else {
        be_value(b.drop_last()) * 0x100 + b.last()
    }
}

/// At most eight of the bytes.
pub open spec fn front_eight(b: Seq<u8>) -> Seq<u8> {
    b.take(if b.len() < 8 {
        b.len() as int
    } else {
        8
    })
}

/// The big-endian number that the first eight bytes hold, or all where there are fewer.
pub fn be_number(b: &[u8]) -> (r: u64)
    ensures
        r == be_value(front_eight(b@)),
{
    let n: usize = if b.len() < 8 {
        b.len()
    } else {
        8
    };
    let ghost all = front_eight(b@);
    let mut i: usize = 0;
    let mut v: u64 = 0;
    let ghost mut room: int = 1;
    while i < n
        invariant
            i <= n <= 8,
            n <= b@.len(),
            all == b@.take(n as int),
            v == be_value(all.take(i as int)),
            v < room,
            i == 0 ==> room == 1,
            i == 1 ==> room == 0x100,
            i == 2 ==> room == 0x1_0000,
            i == 3 ==> room == 0x100_0000,
            i == 4 ==> room == 0x1_0000_0000,
            i == 5 ==> room == 0x100_0000_0000,
            i == 6 ==> room == 0x1_0000_0000_0000,
            i == 7 ==> room == 0x100_0000_0000_0000,
        decreases n - i,
    {
        assert(all.take(i + 1).drop_last() =~= all.take(i as int));
        v = v * 0x100 + b[i] as u64;
        proof {
            room = room * 0x100;
        }
        i = i + 1;
    }
    assert(all.take(n as int) =~= all);
    v
}

} // verus!
