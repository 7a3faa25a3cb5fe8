//! Incremental base64 serving for embedded art: given a requested window of the
//! *output* base64 of an image, compute the bounded raw-input range to read and
//! how to trim the re-encoded result. base64 encodes each 3 input bytes into 4
//! output chars independently, so any output window `[o, o+len)` depends only on
//! input bytes `[⌊o/4⌋·3 .. ⌈(o+len)/4⌉·3)` (clipped to the image length, whose
//! final partial group yields the canonical `=` padding).

use crate::bytes::copy_range;
use base64::Engine;
use vstd::prelude::*;

verus! {

/// The standard alphabet: the character for the six-bit value `v`.
pub open spec fn b64_char(v: int) -> u8 {
    if v < 26 {
        (65 + v) as u8
    } else if v < 52 {
        (71 + v) as u8
    } else if v < 62 {
        (v - 4) as u8
    } else if v == 62 {
        43u8
    } else {
        47u8
    }
}

/// The length of the base64 text of `n` bytes.
pub open spec fn b64_size(n: int) -> int {
    (n + 2) / 3 * 4
}

/// Byte `i` of `s` as a number, 0 past the end.
pub open spec fn byte_or_zero(s: Seq<u8>, i: int) -> int {
    if i < s.len() {
        s[i] as int
    } else {
        0
    }
}

/// Character `i` of the base64 text of `s`: each group of three bytes is four six-bit
/// values, and a place that no input bit reaches holds `=`.
pub open spec fn b64_char_at(s: Seq<u8>, i: int) -> u8 {
    let g = i / 4 * 3;
    let a = byte_or_zero(s, g);
    let b = byte_or_zero(s, g + 1);
    let c = byte_or_zero(s, g + 2);
    if i % 4 == 0 {
        b64_char(a / 4)
    } else if i % 4 == 1 {
        b64_char(a % 4 * 16 + b / 16)
    } else if i % 4 == 2 {
        if g + 1 < s.len() {
            b64_char(b % 16 * 4 + c / 64)
        } else {
            61u8
        }
    } else {
        if g + 2 < s.len() {
            b64_char(c % 64)
        } else {
            61u8
        }
    }
}

/// The padded base64 text of `s` in the standard alphabet.
pub open spec fn b64_text(s: Seq<u8>) -> Seq<u8> {
    Seq::new(b64_size(s.len() as int) as nat, |i: int| b64_char_at(s, i))
}

/// Calls `base64::engine::general_purpose::STANDARD.encode`. Believed of it: the text is
/// the padded encoding in the standard alphabet. It panics where the length of the text
/// is beyond a `usize`, which is left out.
#[verifier::external_body]
pub(crate) fn base64_encode(raw: &[u8]) -> (r: Vec<u8>)
    requires
        b64_size(raw@.len() as int) <= usize::MAX,
    ensures
        r@ == b64_text(raw@),
{
    base64::engine::general_purpose::STANDARD.encode(raw).into_bytes()
}

/// Calls `base64::engine::general_purpose::STANDARD.decode`. Believed of it: it accepts
/// exactly the padded encodings in the standard alphabet, and gives back the bytes.
#[verifier::external_body]
pub(crate) fn base64_decode(text: &[u8]) -> (r: Option<Vec<u8>>)
    ensures
        match r {
            Some(v) => b64_text(v@) == text@,
            None => forall|v: Seq<u8>| #[trigger] b64_text(v) != text@,
        },
{
    base64::engine::general_purpose::STANDARD.decode(text).ok()
}

/// The bytes that a base64 text encodes, if it is one.
pub open spec fn b64_decoded(text: Seq<u8>) -> Option<Seq<u8>> {
    if exists|v: Seq<u8>| #[trigger] b64_text(v) == text {
        Some(choose|v: Seq<u8>| #[trigger] b64_text(v) == text)
    } else {
        None
    }
}

/// Different six-bit values have different characters, and none is `=`.
proof fn b64_char_injective(x: int, y: int)
    requires
        0 <= x < 64,
        0 <= y < 64,
        b64_char(x) == b64_char(y),
    ensures
        x == y,
{
}

/// A base64 text has one source.
pub proof fn b64_text_injective(a: Seq<u8>, b: Seq<u8>)
    requires
        b64_text(a) == b64_text(b),
    ensures
        a == b,
{
    let t = b64_text(a);
    let n = a.len() as int;
    let m = b.len() as int;
    assert(b64_text(a).len() == b64_size(n) && b64_text(b).len() == b64_size(m));
    if n > 0 {
        let g = (n - 1) / 3;
        assert((m - 1) / 3 == g);
        // The last group's padding tells how many bytes are in it.
        let p = g * 4 + 2;
        let q = g * 4 + 3;
        assert(p / 4 == g && p % 4 == 2 && q / 4 == g && q % 4 == 3);
        assert(t[p] == b64_char_at(a, p) && t[p] == b64_char_at(b, p));
        assert(t[q] == b64_char_at(a, q) && t[q] == b64_char_at(b, q));
        assert(n == m);
        assert forall|i: int| 0 <= i < n implies a[i] == b[i] by {
            same_group(a, b, i / 3);
        }
    }
    assert(a =~= b);
}

/// Texts that agree on a group have sources that agree on its bytes.
proof fn same_group(a: Seq<u8>, b: Seq<u8>, g: int)
    requires
        a.len() == b.len(),
        0 <= g,
        g * 3 < a.len(),
        b64_text(a) == b64_text(b),
    ensures
        forall|i: int| g * 3 <= i < g * 3 + 3 && i < a.len() ==> a[i] == b[i],
{
    let t = b64_text(a);
    let k = g * 4;
    let n = a.len() as int;
    assert(k + 3 < b64_size(n));
    assert(k / 4 == g && (k + 1) / 4 == g && (k + 2) / 4 == g && (k + 3) / 4 == g);
    assert(k % 4 == 0 && (k + 1) % 4 == 1 && (k + 2) % 4 == 2 && (k + 3) % 4 == 3);
    assert(t[k] == b64_char_at(a, k) && t[k] == b64_char_at(b, k));
    assert(t[k + 1] == b64_char_at(a, k + 1) && t[k + 1] == b64_char_at(b, k + 1));
    assert(t[k + 2] == b64_char_at(a, k + 2) && t[k + 2] == b64_char_at(b, k + 2));
    assert(t[k + 3] == b64_char_at(a, k + 3) && t[k + 3] == b64_char_at(b, k + 3));
    let i = g * 3;
    let (a0, a1, a2) = (byte_or_zero(a, i), byte_or_zero(a, i + 1), byte_or_zero(a, i + 2));
    let (b0, b1, b2) = (byte_or_zero(b, i), byte_or_zero(b, i + 1), byte_or_zero(b, i + 2));
    b64_char_injective(a0 / 4, b0 / 4);
    b64_char_injective(a0 % 4 * 16 + a1 / 16, b0 % 4 * 16 + b1 / 16);
    if i + 1 < n {
        b64_char_injective(a1 % 16 * 4 + a2 / 64, b1 % 16 * 4 + b2 / 64);
    }
    if i + 2 < n {
        b64_char_injective(a2 % 64, b2 % 64);
    }
}

/// The raw-input read plan for an output base64 window.
#[derive(Debug, Clone, Copy, PartialEq, Eq)]
pub struct B64Window {
    /// First raw input byte to read.
    pub in_start: u64,
    /// Number of raw input bytes to read (clipped to the image length).
    pub in_len: u64,
    /// Leading base64 chars to drop after encoding the read bytes.
    pub skip: usize,
}

/// The read plan for output `[o, o + take)` of an image of `total` bytes.
pub open spec fn window_plan(w: B64Window, o: int, take: int, total: int) -> bool {
    let first = o / 4 * 3;
    let after = ((o + take - 1) / 4 + 1) * 3;
    let end = if after < total {
        after
    } else {
        total
    };
    &&& w.in_start == first
    &&& w.in_len == if end > first {
        end - first
    } else {
        0
    }
    &&& w.skip == o % 4
}

/// Compute the input read plan to serve output base64 chars `[out_offset,
/// out_offset+take)` of `base64(image)`, where the image is `img_total` bytes.
pub fn b64_window(out_offset: u64, take: u64, img_total: u64) -> (w: B64Window)
    requires
        take > 0,
        out_offset + take <= u64::MAX,
    ensures
        window_plan(w, out_offset as int, take as int, img_total as int),
{
    let g0: u64 = out_offset / 4;
    let g1: u64 = (out_offset + take - 1) / 4;
    let in_start: u64 = g0 * 3;
    let after: u64 = (g1 + 1) * 3;
    let in_end: u64 = if after < img_total {
        after
    } else {
        img_total
    };
    B64Window {
        in_start,
        in_len: in_end.saturating_sub(in_start),
        skip: (out_offset - g0 * 4) as usize,
    }
}

/// Encode `raw` (the bytes named by a `B64Window`) and return exactly `take`
/// output chars starting at `skip`. Returns `None` when the encoded output is
/// shorter than `skip + take`, i.e. `raw` was shorter than the window the
/// caller resolved against `art_total` (a truncated art blob).
pub fn encode_b64_slice(raw: &[u8], skip: usize, take: usize) -> (r: Option<Vec<u8>>)
    requires
        b64_size(raw@.len() as int) <= usize::MAX,
    ensures
        match r {
            Some(v) => skip + take <= b64_size(raw@.len() as int) && v@ == b64_text(raw@).subrange(
                skip as int,
                skip + take,
            ),
            None => skip + take > b64_size(raw@.len() as int),
        },
{
    let enc = base64_encode(raw);
    let n: usize = enc.len();
    let end: usize = match skip.checked_add(take) {
        Some(e) => e,
        None => {
            return None;
        },
    };
    if end > n {
        return None;
    }
    Some(copy_range(enc.as_slice(), skip, end))
}

/// Total base64 output length for an image of `img_total` bytes, or `None` if it
/// overflows `u64`. Only an adversarial `img_total` can overflow; every real
/// image is far below this.
pub fn b64_len_checked(img_total: u64) -> (r: Option<u64>)
    ensures
        match r {
            Some(n) => n == b64_size(img_total as int),
            None => b64_size(img_total as int) > u64::MAX,
        },
{
    let groups: u64 = if img_total % 3 == 0 {
        img_total / 3
    } else {
        img_total / 3 + 1
    };
    groups.checked_mul(4)
}

/// Total base64 output length for an image of `img_total` bytes.
pub fn b64_len(img_total: u64) -> (r: u64)
    requires
        b64_size(img_total as int) <= u64::MAX,
    ensures
        r == b64_size(img_total as int),
{
    match b64_len_checked(img_total) {
        Some(n) => n,
        None => 0,
    }
}

/// Any window of the base64 text of an image is what `encode_b64_slice` gives for the
/// raw bytes that `b64_window` names: the plan stays inside the image, the encoded
/// bytes are long enough, and trimming them gives exactly that window.
pub proof fn window_is_substring_of_full_text(image: Seq<u8>, o: int, take: int, w: B64Window)
    requires
        0 <= o,
        0 < take,
        o + take <= b64_size(image.len() as int),
        window_plan(w, o, take, image.len() as int),
    ensures
        w.in_start + w.in_len <= image.len(),
        w.skip + take <= b64_size(w.in_len as int),
        b64_text(image.subrange(w.in_start as int, w.in_start + w.in_len)).subrange(
            w.skip as int,
            w.skip + take,
        ) == b64_text(image).subrange(o, o + take),
{
    let g0 = o / 4;
    let g1 = (o + take - 1) / 4;
    let n = image.len() as int;
    let raw = image.subrange(w.in_start as int, w.in_start + w.in_len);
    assert(g1 * 3 < n);
    assert(w.in_start == g0 * 3);
    let lhs = b64_text(raw).subrange(w.skip as int, w.skip + take);
    let rhs = b64_text(image).subrange(o, o + take);
    assert(w.skip + take <= b64_size(raw.len() as int));
    assert forall|i: int| 0 <= i < take implies lhs[i] == rhs[i] by {
        let j = w.skip + i;
        let k = o + i;
        assert(k == g0 * 4 + j);
        assert(k / 4 == g0 + j / 4);
        assert(k % 4 == j % 4);
        assert(k / 4 <= g1);
        assert(lhs[i] == b64_char_at(raw, j));
        assert(rhs[i] == b64_char_at(image, k));
        let g = j / 4 * 3;
        assert(k / 4 * 3 == g0 * 3 + g);
        assert(byte_or_zero(raw, g) == byte_or_zero(image, g0 * 3 + g));
        assert(byte_or_zero(raw, g + 1) == byte_or_zero(image, g0 * 3 + g + 1));
        assert(byte_or_zero(raw, g + 2) == byte_or_zero(image, g0 * 3 + g + 2));
    }
    assert(lhs =~= rhs);
}

/// base64 text concatenates across a boundary that is a whole number of groups.
pub proof fn text_of_aligned_concat(a: Seq<u8>, b: Seq<u8>)
    requires
        a.len() % 3 == 0,
    ensures
        b64_text(a + b) == b64_text(a) + b64_text(b),
{
    let s = a + b;
    let n = a.len() as int;
    assert(b64_size(s.len() as int) == b64_size(n) + b64_size(b.len() as int));
    assert forall|i: int| 0 <= i < b64_size(s.len() as int) implies b64_text(s)[i] == (b64_text(a)
        + b64_text(b))[i] by {
        let g = i / 4 * 3;
        if i < b64_size(n) {
            assert(g + 2 < n);
        } else {
            let j = i - b64_size(n);
            assert(i / 4 == n / 3 + j / 4);
            assert(i % 4 == j % 4);
            assert(g == n + j / 4 * 3);
        }
    }
    assert(b64_text(s) =~= b64_text(a) + b64_text(b));
}

} // verus!
