//! VorbisComment body build/parse, shared by FLAC's VORBIS_COMMENT block and the
//! Ogg codecs' comment packets. This is the body only: it never holds the
//! Vorbis framing bit or any codec-specific magic.

use crate::bytes::append;
use crate::bytes::find_byte;
use crate::bytes::find_byte_finds;
use crate::bytes::find_byte_is;
use crate::bytes::le32;
use crate::bytes::le32_bytes;
use crate::bytes::le32_round_trip;
use crate::bytes::position_of;
use crate::bytes::push_u32_le;
use crate::bytes::read_u32_le;
use crate::error::FormatError;
use crate::error::Result;
use crate::input::TagInput;
use crate::tagmap::entry_of;
use crate::tagmap::first;
use crate::tagmap::key_at;
use crate::tagmap::key_to_vorbis;
use crate::tagmap::vocab;
use crate::tagmap::vorbis_field_of;
use crate::tagmap::vorbis_is;
use crate::tagmap::vorbis_to_key;
use crate::text::ascii_bytes;
use crate::text::ascii_uppercase;
use crate::text::lower;
use crate::text::upper;
use crate::text::utf8;
use crate::text::utf8_splits_at_ascii;
use crate::text::utf8_text;
use vstd::prelude::*;
use vstd::string::*;
use vstd::utf8::decode_utf8;
use vstd::utf8::is_ascii_chars;
use vstd::utf8::valid_utf8;

verus! {

/// The vendor string written into every body.
pub const VENDOR: &'static str = "musefs";

/// A legal VorbisComment field name.
pub open spec fn valid_key(k: Seq<char>) -> bool {
    &&& k.len() > 0
    &&& forall|i: int| 0 <= i < k.len() ==> ' ' <= #[trigger] k[i] <= '}' && k[i] != '='
}

/// True if `key` is a legal VorbisComment field name: one or more characters in
/// ASCII 0x20..=0x7D, excluding 0x3D (`=`). This is the Vorbis spec grammar and
/// matches what mutagen/TagLib enforce when writing. Non-ASCII, control chars,
/// `=`, and the empty string are all rejected.
pub fn is_valid_key(key: &str) -> (r: bool)
    ensures
        r == valid_key(key@),
{
    if key.is_empty() || !key.is_ascii() {
        proof {
            if valid_key(key@) {
                assert(is_ascii_chars(key@));
            }
        }
        return false;
    }
    let b = key.as_bytes();
    proof {
        ascii_bytes(key@);
    }
    let mut i: usize = 0;
    while i < b.len()
        invariant
            i <= b@.len(),
            b@ == Seq::new(key@.len(), |k: int| key@[k] as u8),
            is_ascii_chars(key@),
            forall|k: int| 0 <= k < i ==> ' ' <= #[trigger] key@[k] <= '}' && key@[k] != '=',
        decreases b@.len() - i,
    {
        let x: u8 = b[i];
        assert('\0' <= key@[i as int] <= '\u{7f}');
        if x < 0x20 || x > 0x7d || x == 0x3d {
            return false;
        }
        i = i + 1;
    }
    true
}

/// The field name that a key is written under: that of the vocabulary, or the key in
/// capital letters.
pub open spec fn field_of(key: Seq<char>) -> Seq<char> {
    match vorbis_field_of(key) {
        Some(f) => f,
        None => upper(key),
    }
}

/// The key that a field name is read as: that of the vocabulary, or the field itself.
pub open spec fn key_of_field(field: Seq<char>) -> Seq<char> {
    match key_at(first(vorbis_is(field))) {
        Some(k) => k,
        None => field,
    }
}

/// The comment of a tag: `FIELD=value`.
pub open spec fn comment_of(t: TagInput) -> Seq<u8> {
    utf8(field_of(t.key@)) + seq![0x3du8] + utf8(t.value@)
}

/// The number of tags with a legal key.
pub open spec fn valid_count(tags: Seq<TagInput>) -> int
    decreases tags.len(),
{
    if tags.len() == 0 {
        0
    } else {
        valid_count(tags.drop_last()) + if valid_key(tags.last().key@) {
            1int
        } else {
            0
        }
    }
}

/// The comments of the tags with a legal key, each behind its length.
pub open spec fn comment_list(tags: Seq<TagInput>) -> Seq<u8>
    decreases tags.len(),
{
    if tags.len() == 0 {
        Seq::empty()
    } else if valid_key(tags.last().key@) {
        comment_list(tags.drop_last()) + le32_bytes(comment_of(tags.last()).len() as int)
            + comment_of(tags.last())
    } else {
        comment_list(tags.drop_last())
    }
}

/// The body: vendor, count, comments.
pub open spec fn comment_body(tags: Seq<TagInput>) -> Seq<u8> {
    le32_bytes(utf8(VENDOR@).len() as int) + utf8(VENDOR@) + le32_bytes(valid_count(tags))
        + comment_list(tags)
}

/// The count and every comment's length fit 32 bits.
pub open spec fn body_fits(tags: Seq<TagInput>) -> bool {
    &&& valid_count(tags) <= u32::MAX
    &&& forall|i: int|
        0 <= i < tags.len() && valid_key(#[trigger] tags[i].key@) ==> comment_of(tags[i]).len()
            <= u32::MAX
}

/// The vendor string has six bytes.
pub proof fn vendor_length()
    ensures
        utf8(VENDOR@).len() == 6,
{
    reveal_strlit("musefs");
    ascii_bytes(VENDOR@);
}

pub proof fn valid_count_prefix(tags: Seq<TagInput>, n: int)
    requires
        0 <= n <= tags.len(),
    ensures
        0 <= valid_count(tags.take(n)) <= valid_count(tags) <= tags.len(),
    decreases tags.len(),
{
    if n == tags.len() {
        assert(tags.take(n) =~= tags);
        if n > 0 {
            valid_count_prefix(tags.drop_last(), n - 1);
        }
    } else {
        valid_count_prefix(tags.drop_last(), n);
        assert(tags.drop_last().take(n) =~= tags.take(n));
    }
}

/// How many tags have a legal key.
pub(crate) fn count_valid(tags: &[TagInput]) -> (r: usize)
    ensures
        r == valid_count(tags@),
{
    let mut n: usize = 0;
    let mut i: usize = 0;
    while i < tags.len()
        invariant
            i <= tags@.len(),
            n <= i,
            n == valid_count(tags@.take(i as int)),
        decreases tags@.len() - i,
    {
        assert(tags@.take(i + 1).drop_last() =~= tags@.take(i as int));
        if is_valid_key(tags[i].key.as_str()) {
            n = n + 1;
        }
        i = i + 1;
    }
    assert(tags@.take(i as int) =~= tags@);
    n
}

/// The comment of one tag.
fn build_comment(t: &TagInput) -> (r: Vec<u8>)
    ensures
        r@ == comment_of(*t),
{
    let mut comment: Vec<u8> = Vec::new();
    match key_to_vorbis(t.key.as_str()) {
        Some(f) => {
            append(&mut comment, f.as_bytes());
        },
        None => {
            let f = ascii_uppercase(t.key.as_str());
            append(&mut comment, f.as_str().as_bytes());
        },
    }
    assert(comment@ =~= utf8(field_of(t.key@)));
    comment.push(0x3d);
    append(&mut comment, t.value.as_str().as_bytes());
    assert(comment@ =~= comment_of(*t));
    comment
}

/// The body for `tags`. Keys outside the Vorbis field-name grammar are skipped (an `=`
/// key would shift the key/value boundary on re-parse), so it stays total for any
/// caller.
pub fn build(tags: &[TagInput]) -> (r: Result<Vec<u8>>)
    ensures
        match r {
            Ok(b) => body_fits(tags@) && b@ == comment_body(tags@),
            Err(e) => e == FormatError::TooLarge && !body_fits(tags@),
        },
{
    proof {
        vendor_length();
    }
    let mut out: Vec<u8> = Vec::new();
    push_u32_le(&mut out, VENDOR.as_bytes().len() as u32);
    append(&mut out, VENDOR.as_bytes());
    let count: usize = count_valid(tags);
    if count > u32::MAX as usize {
        return Err(FormatError::TooLarge);
    }
    push_u32_le(&mut out, count as u32);
    let ghost head = out@;
    assert(head =~= le32_bytes(utf8(VENDOR@).len() as int) + utf8(VENDOR@) + le32_bytes(
        valid_count(tags@),
    ));
    let mut i: usize = 0;
    while i < tags.len()
        invariant
            i <= tags@.len(),
            out@ == head + comment_list(tags@.take(i as int)),
            forall|k: int|
                0 <= k < i && valid_key(#[trigger] tags@[k].key@) ==> comment_of(tags@[k]).len()
                    <= u32::MAX,
        decreases tags@.len() - i,
    {
        assert(tags@.take(i + 1).drop_last() =~= tags@.take(i as int));
        if is_valid_key(tags[i].key.as_str()) {
            let comment = build_comment(&tags[i]);
            if comment.len() > u32::MAX as usize {
                assert(valid_key(tags@[i as int].key@));
                return Err(FormatError::TooLarge);
            }
            let ghost before = out@;
            push_u32_le(&mut out, comment.len() as u32);
            append(&mut out, comment.as_slice());
            assert(out@ =~= head + comment_list(tags@.take(i + 1)));
        }
        i = i + 1;
    }
    assert(tags@.take(i as int) =~= tags@);
    assert(out@ =~= comment_body(tags@));
    Ok(out)
}

/// The pair that a comment holds: nothing without a `=`.
pub open spec fn pair_of(c: Seq<u8>) -> Seq<(Seq<char>, Seq<char>)> {
    let i = find_byte(c, 0x3d, 0);
    if i < c.len() {
        seq![
            (
                key_of_field(decode_utf8(c.subrange(0, i))),
                decode_utf8(c.subrange(i + 1, c.len() as int)),
            ),
        ]
    } else {
        Seq::empty()
    }
}

/// The pairs of `count` comments from `pos` on; `None` where one runs past the end or is
/// not UTF-8.
pub open spec fn pairs_from(b: Seq<u8>, pos: int, count: nat) -> Option<
    Seq<(Seq<char>, Seq<char>)>,
>
    decreases count,
{
    if count == 0 {
        Some(Seq::empty())
    } else if pos + 4 > b.len() {
        None
    } else {
        let end = pos + 4 + le32(b, pos);
        if end > b.len() {
            None
        } else {
            let c = b.subrange(pos + 4, end);
            if !valid_utf8(c) {
                None
            } else {
                match pairs_from(b, end, (count - 1) as nat) {
                    None => None,
                    Some(rest) => Some(pair_of(c) + rest),
                }
            }
        }
    }
}

/// The pairs of a body; `None` where it is malformed. Trailing bytes do not count.
pub open spec fn body_pairs(b: Seq<u8>) -> Option<Seq<(Seq<char>, Seq<char>)>> {
    if b.len() < 4 {
        None
    } else {
        let at = 4 + le32(b, 0);
        if at + 4 > b.len() {
            None
        } else {
            pairs_from(b, at + 4, le32(b, at) as nat)
        }
    }
}

/// A pair as a mathematical value.
pub open spec fn pair_view(p: (String, String)) -> (Seq<char>, Seq<char>) {
    (p.0@, p.1@)
}

/// Pairs as mathematical values.
pub open spec fn pair_views(s: Seq<(String, String)>) -> Seq<(Seq<char>, Seq<char>)> {
    Seq::new(s.len(), |i: int| pair_view(s[i]))
}

/// Append a pair.
pub(crate) fn push_pair(out: &mut Vec<(String, String)>, k: String, v: String)
    ensures
        pair_views(final(out)@) == pair_views(old(out)@).push((k@, v@)),
{
    out.push((k, v));
    assert(pair_views(out@) =~= pair_views(old(out)@).push((k@, v@)));
}

/// Parse a VorbisComment body into `(key, value)` pairs in order. Comments
/// without a `=` are skipped. Known Vorbis field names are folded to their
/// canonical (lowercase) key via the vocabulary; unknown fields are kept verbatim.
/// Trailing bytes after the comment list (e.g. a Vorbis framing bit) are ignored.
pub fn parse(body: &[u8]) -> (r: Result<Vec<(String, String)>>)
    ensures
        match r {
            Ok(v) => body_pairs(body@) == Some(pair_views(v@)),
            Err(e) => e == FormatError::Malformed && body_pairs(body@) is None,
        },
{
    let ghost b = body@;
    let total: usize = body.len();
    let vendor_len: u32 = match read_u32_le(body, 0) {
        Ok(n) => n,
        Err(e) => {
            return Err(e);
        },
    };
    if vendor_len as usize > total - 4 {
        return Err(FormatError::Malformed);
    }
    let mut pos: usize = 4 + vendor_len as usize;
    let count: u32 = match read_u32_le(body, pos) {
        Ok(n) => n,
        Err(e) => {
            return Err(e);
        },
    };
    pos = pos + 4;
    let mut out: Vec<(String, String)> = Vec::new();
    let mut left: u32 = count;
    proof {
        assert(pair_views(out@) =~= Seq::empty());
        if let Some(all) = pairs_from(b, pos as int, left as nat) {
            assert(pair_views(out@) + all =~= all);
        }
    }
    while left > 0
        invariant
            b == body@,
            total == b.len(),
            pos <= total,
            match pairs_from(b, pos as int, left as nat) {
                None => body_pairs(b) is None,
                Some(rest) => body_pairs(b) == Some(pair_views(out@) + rest),
            },
        decreases left,
    {
        let clen: u32 = match read_u32_le(body, pos) {
            Ok(n) => n,
            Err(e) => {
                return Err(e);
            },
        };
        let start: usize = pos + 4;
        if clen as usize > total - start {
            return Err(FormatError::Malformed);
        }
        let end: usize = start + clen as usize;
        let comment = vstd::slice::slice_subrange(body, start, end);
        if utf8_text(comment).is_none() {
            return Err(FormatError::Malformed);
        }
        let eq: usize = position_of(comment, 0x3d);
        let ghost before = pair_views(out@);
        if eq < comment.len() {
            proof {
                find_byte_finds(comment@, 0x3d, 0);
                utf8_splits_at_ascii(comment@, eq as int);
            }
            let field = utf8_text(vstd::slice::slice_subrange(comment, 0, eq));
            let value = utf8_text(vstd::slice::slice_subrange(comment, eq + 1, comment.len()));
            if let (Some(f), Some(v)) = (field, value) {
                let key: String = match vorbis_to_key(f) {
                    Some(k) => k.to_owned(),
                    None => f.to_owned(),
                };
                push_pair(&mut out, key, v.to_owned());
            }
        }
        proof {
            assert(pair_views(out@) =~= before + pair_of(comment@));
            if let Some(rest) = pairs_from(b, end as int, (left - 1) as nat) {
                assert(before + (pair_of(comment@) + rest) =~= pair_views(out@) + rest);
            }
        }
        pos = end;
        left = left - 1;
    }
    proof {
        assert(pair_views(out@) + Seq::<(Seq<char>, Seq<char>)>::empty() =~= pair_views(out@));
    }
    Ok(out)
}

/// What parsing gives back for a list of tags: each legal key as its field is read, with
/// its value.
pub open spec fn read_back(tags: Seq<TagInput>) -> Seq<(Seq<char>, Seq<char>)>
    decreases tags.len(),
{
    if tags.len() == 0 {
        Seq::empty()
    } else if valid_key(tags.last().key@) {
        read_back(tags.drop_last()).push(
            (key_of_field(field_of(tags.last().key@)), tags.last().value@),
        )
    } else {
        read_back(tags.drop_last())
    }
}

/// Where `count` comments from `pos` on end.
pub open spec fn comments_end_from(b: Seq<u8>, pos: int, count: nat) -> int
    decreases count,
{
    if count == 0 || pos + 4 > b.len() {
        pos
    } else {
        comments_end_from(b, pos + 4 + le32(b, pos), (count - 1) as nat)
    }
}

/// Where the comments of a body end.
pub open spec fn comments_end(b: Seq<u8>) -> int {
    let at = 4 + le32(b, 0);
    comments_end_from(b, at + 4, le32(b, at) as nat)
}

/// Lists of tags put one after the other.
proof fn tags_concat(a: Seq<TagInput>, b: Seq<TagInput>)
    ensures
        comment_list(a + b) == comment_list(a) + comment_list(b),
        valid_count(a + b) == valid_count(a) + valid_count(b),
        read_back(a + b) == read_back(a) + read_back(b),
    decreases b.len(),
{
    if b.len() == 0 {
        assert(a + b =~= a);
        assert(comment_list(a) + comment_list(b) =~= comment_list(a));
        assert(read_back(a) + read_back(b) =~= read_back(a));
    } else {
        assert((a + b).drop_last() =~= a + b.drop_last());
        tags_concat(a, b.drop_last());
        assert(comment_list(a + b) =~= comment_list(a) + comment_list(b));
        assert(read_back(a + b) =~= read_back(a) + read_back(b));
    }
}

/// A legal key's field name is ASCII and holds no `=`.
proof fn field_is_plain(key: Seq<char>)
    requires
        valid_key(key),
    ensures
        is_ascii_chars(field_of(key)),
        forall|i: int| 0 <= i < field_of(key).len() ==> #[trigger] field_of(key)[i] != '=',
{
    let f = field_of(key);
    match entry_of(key) {
        Some(e) => {
            crate::tagmap_laws::found_entry(crate::tagmap::key_is(lower(key)), 0);
            crate::tagmap_laws::vorbis_field_is_key_in_capitals(e);
            assert(lower(f) == lower(key));
            assert forall|i: int| 0 <= i < f.len() implies '\0' <= #[trigger] f[i] <= '\u{7f}'
                && f[i] != '=' by {
                assert(lower(f)[i] == lower(key)[i]);
                assert(' ' <= key[i] <= '}' && key[i] != '=');
            }
        },
        None => {
            assert forall|i: int| 0 <= i < f.len() implies '\0' <= #[trigger] f[i] <= '\u{7f}'
                && f[i] != '=' by {
                assert(' ' <= key[i] <= '}' && key[i] != '=');
            }
        },
    }
}

/// The comment of a legal key is UTF-8 and holds the pair it was made from.
proof fn comment_reads_back(t: TagInput)
    requires
        valid_key(t.key@),
    ensures
        valid_utf8(comment_of(t)),
        pair_of(comment_of(t)) == seq![(key_of_field(field_of(t.key@)), t.value@)],
{
    let f = field_of(t.key@);
    let c = comment_of(t);
    field_is_plain(t.key@);
    ascii_bytes(f);
    vstd::utf8::encode_utf8_valid_utf8(f);
    vstd::utf8::encode_utf8_valid_utf8(t.value@);
    vstd::utf8::encode_utf8_decode_utf8(f);
    vstd::utf8::encode_utf8_decode_utf8(t.value@);
    reveal_with_fuel(valid_utf8, 2);
    let eq = seq![0x3du8];
    assert(vstd::utf8::pop_first_scalar(eq) =~= Seq::<u8>::empty());
    assert(valid_utf8(eq));
    vstd::utf8::valid_utf8_concat(utf8(f), eq);
    vstd::utf8::valid_utf8_concat(utf8(f) + eq, utf8(t.value@));
    let n = f.len() as int;
    assert forall|k: int| 0 <= k < n implies c[k] != 0x3d by {
        assert(c[k] == f[k] as u8);
        assert('\0' <= f[k] <= '\u{7f}');
    }
    find_byte_is(c, 0x3d, 0, n);
    assert(c.subrange(0, n) =~= utf8(f));
    assert(c.subrange(n + 1, c.len() as int) =~= utf8(t.value@));
}

/// Where a comment list stands in a body, it reads back as the tags it was made from, and
/// then come the pairs of the `more` comments behind it.
pub proof fn list_reads_back(b: Seq<u8>, pos: int, tags: Seq<TagInput>, more: nat)
    requires
        0 <= pos,
        pos + comment_list(tags).len() <= b.len(),
        b.subrange(pos, pos + comment_list(tags).len()) == comment_list(tags),
        body_fits(tags),
    ensures
        pairs_from(b, pos, (valid_count(tags) + more) as nat) == match pairs_from(
            b,
            pos + comment_list(tags).len(),
            more,
        ) {
            Some(rest) => Some(read_back(tags) + rest),
            None => None,
        },
        comments_end_from(b, pos, (valid_count(tags) + more) as nat) == comments_end_from(
            b,
            pos + comment_list(tags).len(),
            more,
        ),
    decreases tags.len(),
{
    if tags.len() > 0 {
        let t = tags[0];
        let one = seq![t];
        let rest = tags.skip(1);
        assert(tags =~= one + rest);
        tags_concat(one, rest);
        valid_count_prefix(rest, 0);
        assert(one.drop_last() =~= Seq::<TagInput>::empty());
        reveal_with_fuel(comment_list, 2);
        reveal_with_fuel(valid_count, 2);
        reveal_with_fuel(read_back, 2);
        assert(body_fits(rest)) by {
            assert forall|i: int| 0 <= i < rest.len() && valid_key(
                #[trigger] rest[i].key@,
            ) implies comment_of(rest[i]).len() <= u32::MAX by {
                assert(rest[i] == tags[i + 1]);
            }
        }
        let whole = comment_list(tags);
        if valid_key(t.key@) {
            let c = comment_of(t);
            assert(valid_key(tags[0].key@));
            comment_reads_back(t);
            le32_round_trip(c.len() as int);
            let head = le32_bytes(c.len() as int);
            assert(comment_list(one) =~= head + c);
            assert forall|k: int| 0 <= k < whole.len() implies b[pos + k] == #[trigger] whole[k] by {
                assert(b.subrange(pos, pos + whole.len())[k] == b[pos + k]);
            }
            assert(le32(b, pos) == c.len()) by {
                assert(whole[0] == head[0] && whole[1] == head[1] && whole[2] == head[2]
                    && whole[3] == head[3]);
            }
            let end = pos + 4 + c.len();
            assert(b.subrange(pos + 4, end) =~= c) by {
                assert(whole.subrange(4, 4 + c.len() as int) =~= c);
                assert(b.subrange(pos, pos + whole.len()).subrange(4, 4 + c.len() as int)
                    =~= b.subrange(pos + 4, end));
            }
            assert(b.subrange(end, end + comment_list(rest).len()) =~= comment_list(rest)) by {
                assert(b.subrange(pos, pos + whole.len()).skip(4 + c.len() as int) =~= b.subrange(
                    end,
                    end + comment_list(rest).len(),
                ));
                assert(whole.skip(4 + c.len() as int) =~= comment_list(rest));
            }
            list_reads_back(b, end, rest, more);
            assert(valid_count(one) == 1);
            assert(read_back(one) =~= pair_of(c));
            assert(end + comment_list(rest).len() == pos + whole.len());
            if let Some(last) = pairs_from(b, pos + whole.len(), more) {
                assert(pair_of(c) + (read_back(rest) + last) =~= read_back(tags) + last);
            }
        } else {
            assert(comment_list(one) =~= Seq::<u8>::empty());
            assert(whole =~= comment_list(rest));
            list_reads_back(b, pos, rest, more);
            assert(valid_count(one) == 0);
            assert(read_back(one) =~= Seq::empty());
            assert(read_back(tags) =~= read_back(rest));
        }
    } else {
        valid_count_prefix(tags, 0);
        if let Some(last) = pairs_from(b, pos, more) {
            assert(read_back(tags) + last =~= last);
        }
    }
}

/// Parsing undoes building: whatever bytes follow the body, the pairs that come back are
/// the tags with a legal key, in order, each with its value.
pub proof fn parse_undoes_build(tags: Seq<TagInput>, after: Seq<u8>)
    requires
        body_fits(tags),
    ensures
        body_pairs(comment_body(tags) + after) == Some(read_back(tags)),
{
    let b = comment_body(tags) + after;
    vendor_length();
    valid_count_prefix(tags, 0);
    le32_round_trip(6);
    le32_round_trip(valid_count(tags));
    let v = le32_bytes(6);
    let c = le32_bytes(valid_count(tags));
    assert(b[0] == v[0] && b[1] == v[1] && b[2] == v[2] && b[3] == v[3]);
    assert(b[10] == c[0] && b[11] == c[1] && b[12] == c[2] && b[13] == c[3]);
    assert(b.subrange(14, 14 + comment_list(tags).len() as int) =~= comment_list(tags));
    list_reads_back(b, 14, tags, 0);
    assert(read_back(tags) + Seq::<(Seq<char>, Seq<char>)>::empty() =~= read_back(tags));
}

/// A key of the vocabulary, in any case, comes back as the canonical key; any other comes
/// back in capital letters.
pub proof fn key_after_round_trip(key: Seq<char>)
    ensures
        key_of_field(field_of(key)) == match entry_of(key) {
            Some(i) => vocab(i).key,
            None => upper(key),
        },
{
    crate::tagmap_laws::found_entry(crate::tagmap::key_is(lower(key)), 0);
    match entry_of(key) {
        Some(i) => {
            crate::tagmap_laws::vorbis_field_leads_back(i);
        },
        None => {
            crate::tagmap_laws::vorbis_field_known_by_key(upper(key));
            assert(lower(upper(key)) =~= lower(key));
        },
    }
}

} // verus!
