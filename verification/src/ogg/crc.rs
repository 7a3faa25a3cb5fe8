//! Ogg page CRC-32: polynomial 0x04c11db7, init 0, no input/output reflection,
//! no final XOR. The caller passes the full page with the 4 CRC bytes (offset
//! 22..26) zeroed.

use vstd::prelude::*;

verus! {

pub const POLY: u32 = 0x04c1_1db7;

/// One bit of polynomial division: shift left, and subtract the polynomial when a bit
/// falls out at the top.
pub open spec fn bit_step(c: u32) -> u32 {
    if c & 0x8000_0000 != 0 {
        (c << 1) ^ POLY
    } else {
        c << 1
    }
}

/// The state after eight bits: what appending one zero byte does to it.
pub open spec fn byte_shift(c: u32) -> u32 {
    bit_step(bit_step(bit_step(bit_step(bit_step(bit_step(bit_step(bit_step(c))))))))
}

/// The state after `n` zero bytes.
pub open spec fn zero_shift(c: u32, n: nat) -> u32
    decreases n,
{
    if n == 0 {
        c
    } else {
        byte_shift(zero_shift(c, (n - 1) as nat))
    }
}

/// The state after one byte.
pub open spec fn crc_byte(c: u32, b: u8) -> u32 {
    byte_shift(c ^ ((b as u32) << 24))
}

/// The state after all of `s`, from state `c`.
pub open spec fn crc_of(c: u32, s: Seq<u8>) -> u32
    decreases s.len(),
{
    if s.len() == 0 {
        c
    } else {
        crc_byte(crc_of(c, s.drop_last()), s.last())
    }
}

/// The Ogg CRC of `s`.
pub open spec fn crc(s: Seq<u8>) -> u32 {
    crc_of(0, s)
}

/// `n` zero bytes.
pub open spec fn zeros(n: nat) -> Seq<u8> {
    Seq::new(n, |i: int| 0u8)
}

/// Two byte strings of one length, combined bit by bit with exclusive or.
pub open spec fn xor_bytes(a: Seq<u8>, b: Seq<u8>) -> Seq<u8> {
    Seq::new(a.len(), |i: int| a[i] ^ b[i])
}

/// Feeding two byte strings one after the other is feeding their concatenation, so a
/// CRC can be computed in windows.
pub proof fn crc_of_concat(c: u32, a: Seq<u8>, b: Seq<u8>)
    ensures
        crc_of(c, a + b) == crc_of(crc_of(c, a), b),
    decreases b.len(),
{
    if b.len() == 0 {
        assert(a + b =~= a);
    } else {
        assert((a + b).drop_last() =~= a + b.drop_last());
        assert((a + b).last() == b.last());
        crc_of_concat(c, a, b.drop_last());
    }
}

proof fn bit_step_linear(a: u32, b: u32)
    ensures
        bit_step(a ^ b) == bit_step(a) ^ bit_step(b),
{
    assert((if (a ^ b) & 0x8000_0000 != 0 {
        ((a ^ b) << 1) ^ 0x04c1_1db7
    } else {
        (a ^ b) << 1
    }) == (if a & 0x8000_0000 != 0 {
        (a << 1) ^ 0x04c1_1db7
    } else {
        a << 1
    }) ^ (if b & 0x8000_0000 != 0 {
        (b << 1) ^ 0x04c1_1db7
    } else {
        b << 1
    })) by (bit_vector);
}

/// Appending a zero byte is linear over exclusive or.
pub proof fn byte_shift_linear(a: u32, b: u32)
    ensures
        byte_shift(a ^ b) == byte_shift(a) ^ byte_shift(b),
{
    let a1 = bit_step(a);
    let b1 = bit_step(b);
    let a2 = bit_step(a1);
    let b2 = bit_step(b1);
    let a3 = bit_step(a2);
    let b3 = bit_step(b2);
    let a4 = bit_step(a3);
    let b4 = bit_step(b3);
    let a5 = bit_step(a4);
    let b5 = bit_step(b4);
    let a6 = bit_step(a5);
    let b6 = bit_step(b5);
    let a7 = bit_step(a6);
    let b7 = bit_step(b6);
    bit_step_linear(a, b);
    bit_step_linear(a1, b1);
    bit_step_linear(a2, b2);
    bit_step_linear(a3, b3);
    bit_step_linear(a4, b4);
    bit_step_linear(a5, b5);
    bit_step_linear(a6, b6);
    bit_step_linear(a7, b7);
}

/// Appending zero bytes is linear over exclusive or.
pub proof fn zero_shift_linear(a: u32, b: u32, n: nat)
    ensures
        zero_shift(a ^ b, n) == zero_shift(a, n) ^ zero_shift(b, n),
    decreases n,
{
    if n > 0 {
        zero_shift_linear(a, b, (n - 1) as nat);
        byte_shift_linear(zero_shift(a, (n - 1) as nat), zero_shift(b, (n - 1) as nat));
    }
}

/// The zero state stays zero.
pub proof fn zero_shift_of_zero(n: nat)
    ensures
        zero_shift(0, n) == 0,
    decreases n,
{
    if n > 0 {
        zero_shift_of_zero((n - 1) as nat);
        assert(0u32 & 0x8000_0000 == 0 && 0u32 << 1 == 0) by (bit_vector);
    }
}

/// Shifts by `m` and then by `n` zero bytes add up.
pub proof fn zero_shift_add(c: u32, m: nat, n: nat)
    ensures
        zero_shift(zero_shift(c, m), n) == zero_shift(c, m + n),
    decreases n,
{
    if n > 0 {
        zero_shift_add(c, m, (n - 1) as nat);
    }
}

/// `crc_shift_zeros(crc32(m), n) == crc32(m ++ zeros)`: shifting the CRC of a message
/// by `n` zero bytes is the CRC of the message with `n` zero bytes appended.
pub proof fn shift_is_appending_zeros(c: u32, m: Seq<u8>, n: nat)
    ensures
        crc_of(c, m + zeros(n)) == zero_shift(crc_of(c, m), n),
    decreases n,
{
    if n == 0 {
        assert(m + zeros(0) =~= m);
    } else {
        shift_is_appending_zeros(c, m, (n - 1) as nat);
        assert((m + zeros(n)).drop_last() =~= m + zeros((n - 1) as nat));
        let x = crc_of(c, m + zeros((n - 1) as nat));
        assert(x ^ ((0u8 as u32) << 24) == x) by (bit_vector);
    }
}

/// The CRC is linear: the CRC of two messages of one length combined by exclusive or is
/// the exclusive or of their CRCs.
pub proof fn crc_linear(c: u32, d: u32, a: Seq<u8>, b: Seq<u8>)
    requires
        a.len() == b.len(),
    ensures
        crc_of(c ^ d, xor_bytes(a, b)) == crc_of(c, a) ^ crc_of(d, b),
    decreases a.len(),
{
    if a.len() > 0 {
        let n = a.len() as int;
        let s = xor_bytes(a, b);
        assert(s.drop_last() =~= xor_bytes(a.drop_last(), b.drop_last()));
        crc_linear(c, d, a.drop_last(), b.drop_last());
        let x = crc_of(c, a.drop_last());
        let y = crc_of(d, b.drop_last());
        let p = a[n - 1];
        let q = b[n - 1];
        assert((x ^ y) ^ (((p ^ q) as u32) << 24) == (x ^ ((p as u32) << 24)) ^ (y ^ ((q as u32)
            << 24))) by (bit_vector);
        byte_shift_linear(x ^ ((p as u32) << 24), y ^ ((q as u32) << 24));
    }
}

/// One bit of division loses nothing.
proof fn bit_step_keeps(c: u32)
    requires
        c != 0,
    ensures
        bit_step(c) != 0,
{
    assert(c != 0 && c & 0x8000_0000 != 0 ==> (c << 1) ^ 0x04c1_1db7u32 != 0) by (bit_vector);
    assert(c != 0 && c & 0x8000_0000 == 0 ==> c << 1 != 0) by (bit_vector);
}

/// A state other than zero stays so over zero bytes.
pub proof fn zero_shift_keeps(c: u32, n: nat)
    requires
        c != 0,
    ensures
        zero_shift(c, n) != 0,
    decreases n,
{
    if n > 0 {
        zero_shift_keeps(c, (n - 1) as nat);
        byte_shift_keeps(zero_shift(c, (n - 1) as nat));
    }
}

proof fn byte_shift_keeps(c: u32)
    requires
        c != 0,
    ensures
        byte_shift(c) != 0,
{
    let c1 = bit_step(c);
    let c2 = bit_step(c1);
    let c3 = bit_step(c2);
    let c4 = bit_step(c3);
    let c5 = bit_step(c4);
    let c6 = bit_step(c5);
    let c7 = bit_step(c6);
    bit_step_keeps(c);
    bit_step_keeps(c1);
    bit_step_keeps(c2);
    bit_step_keeps(c3);
    bit_step_keeps(c4);
    bit_step_keeps(c5);
    bit_step_keeps(c6);
    bit_step_keeps(c7);
}

/// Two bytes fed to one state give different states.
proof fn bytes_tell_apart(c: u32, a: u8, b: u8)
    requires
        a != b,
    ensures
        crc_byte(c, a) != crc_byte(c, b),
{
    let x = c ^ ((a as u32) << 24);
    let y = c ^ ((b as u32) << 24);
    assert(a != b ==> (c ^ ((a as u32) << 24)) ^ (c ^ ((b as u32) << 24)) != 0) by (bit_vector);
    states_stay_apart(x, y, 1);
    assert(zero_shift(x, 1) == byte_shift(zero_shift(x, 0)));
    assert(zero_shift(y, 1) == byte_shift(zero_shift(y, 0)));
}

/// Different states stay different over zero bytes.
proof fn states_stay_apart(x: u32, y: u32, n: nat)
    requires
        x ^ y != 0,
    ensures
        zero_shift(x, n) != zero_shift(y, n),
{
    zero_shift_linear(x, y, n);
    zero_shift_keeps(x ^ y, n);
    let u = zero_shift(x, n);
    assert(u ^ u == 0) by (bit_vector);
}

/// Different states stay different over the same bytes.
proof fn states_stay_apart_over(x: u32, y: u32, s: Seq<u8>)
    requires
        x != y,
    ensures
        crc_of(x, s) != crc_of(y, s),
    decreases s.len(),
{
    if s.len() > 0 {
        states_stay_apart_over(x, y, s.drop_last());
        let u = crc_of(x, s.drop_last());
        let v = crc_of(y, s.drop_last());
        let b = s.last();
        assert(u != v ==> (u ^ ((b as u32) << 24)) ^ (v ^ ((b as u32) << 24)) != 0) by (bit_vector);
        let p = u ^ ((b as u32) << 24);
        let q = v ^ ((b as u32) << 24);
        states_stay_apart(p, q, 1);
        assert(zero_shift(p, 1) == byte_shift(zero_shift(p, 0)));
        assert(zero_shift(q, 1) == byte_shift(zero_shift(q, 0)));
    }
}

/// A change in one byte, of one bit or more, changes the CRC.
pub proof fn changed_byte_changes_crc(s: Seq<u8>, i: int, v: u8)
    requires
        0 <= i < s.len(),
        v != s[i],
    ensures
        crc(s.update(i, v)) != crc(s),
{
    let t = s.update(i, v);
    let front = s.take(i);
    let back = s.skip(i + 1);
    let c = crc_of(0, front);
    assert(s =~= front.push(s[i]) + back);
    assert(t =~= front.push(v) + back);
    crc_of_concat(0, front.push(s[i]), back);
    crc_of_concat(0, front.push(v), back);
    assert(front.push(s[i]).drop_last() =~= front);
    assert(front.push(v).drop_last() =~= front);
    bytes_tell_apart(c, v, s[i]);
    states_stay_apart_over(crc_byte(c, v), crc_byte(c, s[i]), back);
}

/// A state whose top byte is clear is shifted a byte up without meeting the polynomial.
proof fn byte_shift_low(x: u32)
    requires
        x & 0xff00_0000 == 0,
    ensures
        byte_shift(x) == x << 8,
{
    let x1 = x << 1;
    let x2 = x1 << 1;
    let x3 = x2 << 1;
    let x4 = x3 << 1;
    let x5 = x4 << 1;
    let x6 = x5 << 1;
    let x7 = x6 << 1;
    assert(x & 0x8000_0000 == 0 && x1 & 0x8000_0000 == 0 && x2 & 0x8000_0000 == 0 && x3
        & 0x8000_0000 == 0 && x4 & 0x8000_0000 == 0 && x5 & 0x8000_0000 == 0 && x6 & 0x8000_0000
        == 0 && x7 & 0x8000_0000 == 0 && x7 << 1 == x << 8) by (bit_vector)
        requires
            x & 0xff00_0000 == 0,
            x1 == x << 1,
            x2 == x1 << 1,
            x3 == x2 << 1,
            x4 == x3 << 1,
            x5 == x4 << 1,
            x6 == x5 << 1,
            x7 == x6 << 1,
    ;
}

/// One byte by table look-up: the low three bytes move up, and the top byte, combined
/// with the input, selects what the polynomial adds.
proof fn crc_byte_by_table(c: u32, b: u8)
    ensures
        crc_byte(c, b) == (c << 8) ^ byte_shift((((c >> 24) as u8 ^ b) as u32) << 24),
{
    let i: u8 = (c >> 24) as u8 ^ b;
    let low: u32 = c & 0x00ff_ffff;
    let top: u32 = (i as u32) << 24;
    assert(c ^ ((b as u32) << 24) == low ^ top && low & 0xff00_0000 == 0 && low << 8 == c << 8)
        by (bit_vector)
        requires
            i == (c >> 24) as u8 ^ b,
            low == c & 0x00ff_ffff,
            top == (i as u32) << 24,
    ;
    byte_shift_linear(low, top);
    byte_shift_low(low);
}

/// What the polynomial adds for the byte value `i`.
fn table_entry(i: u8) -> (r: u32)
    ensures
        r == byte_shift((i as u32) << 24),
{
    let mut c: u32 = (i as u32) << 24;
    let ghost c0: u32 = c;
    let mut j: u32 = 0;
    while j < 8
        invariant
            j <= 8,
            j == 0 ==> c == c0,
            j == 1 ==> c == bit_step(c0),
            j == 2 ==> c == bit_step(bit_step(c0)),
            j == 3 ==> c == bit_step(bit_step(bit_step(c0))),
            j == 4 ==> c == bit_step(bit_step(bit_step(bit_step(c0)))),
            j == 5 ==> c == bit_step(bit_step(bit_step(bit_step(bit_step(c0))))),
            j == 6 ==> c == bit_step(bit_step(bit_step(bit_step(bit_step(bit_step(c0)))))),
            j == 7 ==> c == bit_step(bit_step(bit_step(bit_step(bit_step(bit_step(bit_step(c0))))))),
            j == 8 ==> c == byte_shift(c0),
        decreases 8 - j,
    {
        c = if c & 0x8000_0000 != 0 {
            (c << 1) ^ POLY
        } else {
            c << 1
        };
        j = j + 1;
    }
    c
}

/// The look-up table: what the polynomial adds, for each byte value.
pub fn build_table() -> (t: Vec<u32>)
    ensures
        t@.len() == 256,
        forall|i: int| 0 <= i < 256 ==> t@[i] == byte_shift((i as u32) << 24),
{
    let mut t: Vec<u32> = Vec::with_capacity(256);
    let mut i: u32 = 0;
    while i < 256
        invariant
            i <= 256,
            t@.len() == i,
            forall|k: int| 0 <= k < i ==> t@[k] == byte_shift((k as u32) << 24),
        decreases 256 - i,
    {
        t.push(table_entry(i as u8));
        i = i + 1;
    }
    t
}

/// Fold `buf` into a running CRC `state`. `crc32(x) == crc32_update(0, x)` and
/// `crc32(a ++ b) == crc32_update(crc32_update(0, &a), &b)`, so a page CRC can be
/// computed in bounded windows without assembling the whole page.
pub fn crc32_update(state: u32, buf: &[u8]) -> (r: u32)
    ensures
        r == crc_of(state, buf@),
{
    let mut c: u32 = state;
    let mut i: usize = 0;
    if buf.len() < 256 {
        // Too short to repay building the table.
        while i < buf.len()
            invariant
                i <= buf@.len(),
                c == crc_of(state, buf@.take(i as int)),
            decreases buf@.len() - i,
        {
            let b: u8 = buf[i];
            proof {
                assert(buf@.take(i + 1).drop_last() =~= buf@.take(i as int));
                crc_byte_by_table(c, b);
            }
            c = (c << 8) ^ table_entry((c >> 24) as u8 ^ b);
            i = i + 1;
        }
    } else {
        let table = build_table();
        while i < buf.len()
            invariant
                i <= buf@.len(),
                c == crc_of(state, buf@.take(i as int)),
                table@.len() == 256,
                forall|k: int| 0 <= k < 256 ==> table@[k] == byte_shift((k as u32) << 24),
            decreases buf@.len() - i,
        {
            let b: u8 = buf[i];
            let k: u8 = (c >> 24) as u8 ^ b;
            proof {
                assert(buf@.take(i + 1).drop_last() =~= buf@.take(i as int));
                crc_byte_by_table(c, b);
            }
            c = (c << 8) ^ table[k as usize];
            i = i + 1;
        }
    }
    assert(buf@.take(i as int) =~= buf@);
    c
}

/// The Ogg CRC of `buf`.
pub fn crc32(buf: &[u8]) -> (r: u32)
    ensures
        r == crc(buf@),
{
    crc32_update(0, buf)
}

/// The first `j` terms of a matrix applied to a state: row `i` counts when bit `i`,
/// counted from the top, is set.
pub open spec fn rows_applied(rows: Seq<u32>, s: u32, j: nat) -> u32
    decreases j,
{
    if j == 0 {
        0
    } else {
        rows_applied(rows, s, (j - 1) as nat) ^ if (s >> ((32 - j) as u32)) & 1 == 1 {
            rows[j - 1]
        } else {
            0
        }
    }
}

/// `rows` is the matrix of a shift by `m` zero bytes: row `i` is the image of the basis
/// vector `1 << (31 - i)`.
pub open spec fn is_shift_matrix(rows: Seq<u32>, m: nat) -> bool {
    &&& rows.len() == 32
    &&& forall|i: int|
        0 <= i < 32 ==> #[trigger] rows[i] == zero_shift(1u32 << ((31 - i) as u32), m)
}

/// The top `j` bits of `s`.
spec fn top_bits(s: u32, j: u32) -> u32 {
    s & !(0xffff_ffffu32 >> j)
}

proof fn top_bits_step(s: u32, j: u32)
    requires
        j < 32,
    ensures
        top_bits(s, (j + 1) as u32) == top_bits(s, j) ^ if (s >> ((31 - j) as u32)) & 1 == 1 {
            1u32 << ((31 - j) as u32)
        } else {
            0u32
        },
{
    let k: u32 = (31 - j) as u32;
    let j1: u32 = (j + 1) as u32;
    assert(s & !(0xffff_ffffu32 >> j1) == (s & !(0xffff_ffffu32 >> j)) ^ (if (s >> k) & 1 == 1 {
        1u32 << k
    } else {
        0u32
    })) by (bit_vector)
        requires
            j < 32,
            k == 31 - j,
            j1 == j + 1,
    ;
}

/// Applying a shift matrix is shifting.
proof fn shift_matrix_shifts(rows: Seq<u32>, m: nat, s: u32, j: u32)
    requires
        is_shift_matrix(rows, m),
        j <= 32,
    ensures
        rows_applied(rows, s, j as nat) == zero_shift(top_bits(s, j), m),
        rows_applied(rows, s, 32) == zero_shift(s, m) || j < 32,
    decreases j,
{
    if j == 0 {
        assert(s & !(0xffff_ffffu32 >> 0) == 0) by (bit_vector);
        zero_shift_of_zero(m);
    } else {
        let i: u32 = (j - 1) as u32;
        shift_matrix_shifts(rows, m, s, i);
        top_bits_step(s, i);
        let k: u32 = (31 - i) as u32;
        let e: u32 = 1u32 << k;
        assert(k == (32 - j) as u32);
        assert(rows[i as int] == zero_shift(e, m));
        zero_shift_linear(top_bits(s, i), e, m);
        zero_shift_linear(top_bits(s, i), 0, m);
        zero_shift_of_zero(m);
        let t = top_bits(s, i);
        assert(t ^ 0 == t) by (bit_vector);
        assert(s & !(0xffff_ffffu32 >> 32) == s) by (bit_vector);
    }
}

/// Apply a matrix to a state vector: XOR the rows its set bits select.
fn apply(mat: &Vec<u32>, state: u32) -> (r: u32)
    requires
        mat@.len() == 32,
    ensures
        r == rows_applied(mat@, state, 32),
{
    let mut out: u32 = 0;
    let mut i: usize = 0;
    while i < 32
        invariant
            i <= 32,
            mat@.len() == 32,
            out == rows_applied(mat@, state, i as nat),
        decreases 32 - i,
    {
        let sh: u32 = 31 - i as u32;
        let row: u32 = if (state >> sh) & 1 == 1 {
            mat[i]
        } else {
            0
        };
        out = out ^ row;
        i = i + 1;
    }
    out
}

/// The matrix of one zero byte. It is byte-granular: `n` zero bytes need the `n`-th
/// power, not the `8n`-th.
fn one_byte_matrix() -> (r: Vec<u32>)
    ensures
        is_shift_matrix(r@, 1),
{
    let mut base: Vec<u32> = Vec::with_capacity(32);
    let mut i: u32 = 0;
    while i < 32
        invariant
            i <= 32,
            base@.len() == i,
            forall|k: int| 0 <= k < i ==> #[trigger] base@[k] == zero_shift(1u32 << ((31 - k) as u32), 1),
        decreases 32 - i,
    {
        let p: u32 = 1u32 << (31 - i);
        proof {
            crc_byte_by_table(p, 0);
            assert(p ^ ((0u8 as u32) << 24) == p) by (bit_vector);
            assert((p >> 24) as u8 ^ 0 == (p >> 24) as u8) by (bit_vector);
            reveal_with_fuel(zero_shift, 2);
        }
        base.push((p << 8) ^ table_entry((p >> 24) as u8));
        i = i + 1;
    }
    base
}

/// Compose two transition matrices: applying the product is applying `first`, then
/// `second`. Row `i` of the product is `first`'s row `i` pushed through `second`.
fn mat_mul(first: &Vec<u32>, second: &Vec<u32>, Ghost(m): Ghost<nat>, Ghost(n): Ghost<nat>) -> (r: Vec<u32>)
    requires
        is_shift_matrix(first@, m),
        is_shift_matrix(second@, n),
    ensures
        is_shift_matrix(r@, m + n),
{
    let mut product: Vec<u32> = Vec::with_capacity(32);
    let mut i: usize = 0;
    while i < 32
        invariant
            i <= 32,
            product@.len() == i,
            is_shift_matrix(first@, m),
            is_shift_matrix(second@, n),
            forall|k: int| 0 <= k < i ==> #[trigger] product@[k] == zero_shift(1u32 << ((31 - k) as u32), m + n),
        decreases 32 - i,
    {
        proof {
            shift_matrix_shifts(second@, n, first@[i as int], 32);
            zero_shift_add(1u32 << ((31 - i) as u32), m, n);
        }
        product.push(apply(second, first[i]));
        i = i + 1;
    }
    product
}

/// Advance a CRC state across `n` zero bytes: `crc_shift_zeros(crc32(m), n)
/// == crc32(m ++ zeros×n)`.
///
/// Appending one zero byte is a fixed linear map on the 32-bit state, so
/// appending `n` of them is that map raised to the `n`-th power over GF(2). The powers
/// are reached by repeated squaring, so the shift costs matrix operations in the number
/// of bits of `n` rather than `n` serially-dependent table steps.
pub fn crc_shift_zeros(crc: u32, n: usize) -> (r: u32)
    ensures
        r == zero_shift(crc, n as nat),
{
    // A zero state stays zero under every power, and it is the common case on the
    // serve path: a page whose sequence number is unchanged has an all-zero delta.
    if crc == 0 {
        proof {
            zero_shift_of_zero(n as nat);
        }
        return 0;
    }
    let mut state: u32 = crc;
    let mut left: usize = n;
    let mut mat: Vec<u32> = one_byte_matrix();
    let ghost mut m: nat = 1;
    while left > 0
        invariant
            is_shift_matrix(mat@, m),
            zero_shift(state, left as nat * m) == zero_shift(crc, n as nat),
        decreases left,
    {
        let ghost half: nat = left as nat / 2;
        proof {
            assert(left as nat * m == (left as nat % 2) * m + half * (m + m)) by (nonlinear_arith)
                requires
                    half == left as nat / 2,
            ;
            shift_matrix_shifts(mat@, m, state, 32);
            zero_shift_add(state, m, half * (m + m));
            assert(left as nat % 2 == 1 ==> (left as nat % 2) * m == m) by (nonlinear_arith);
            assert(left as nat % 2 == 0 ==> (left as nat % 2) * m == 0) by (nonlinear_arith);
            assert(0nat * (m + m) == 0 && 0nat * m == 0) by (nonlinear_arith);
        }
        if left % 2 == 1 {
            state = apply(&mat, state);
        }
        left = left / 2;
        if left > 0 {
            mat = mat_mul(&mat, &mat, Ghost(m), Ghost(m));
            proof {
                m = m + m;
            }
        }
    }
    proof {
        assert(0nat * m == 0) by (nonlinear_arith);
    }
    state
}

} // verus!
