//! VorbisComment bodies as written by anyone: what is read of them, and what is written.

use crate::bytes::find_byte;
use crate::bytes::find_byte_finds;
use crate::bytes::find_byte_is;
use crate::bytes::le32;
use crate::bytes::le32_bytes;
use crate::bytes::le32_round_trip;
use crate::error::FormatError;
use crate::error::Result;
use crate::input::TagInput;
use crate::slot_laws::field_is_the_key;
use crate::slot_laws::is_vocabulary_key;
use crate::slot_laws::key_is_the_field;
use crate::text::ascii_bytes;
use crate::text::lower;
use crate::text::upper;
use crate::text::utf8;
use crate::vorbiscomment::body_fits;
use crate::vorbiscomment::body_pairs;
use crate::vorbiscomment::build;
use crate::vorbiscomment::comment_body;
use crate::vorbiscomment::comment_list;
use crate::vorbiscomment::comment_of;
use crate::vorbiscomment::is_valid_key;
use crate::vorbiscomment::pair_of;
use crate::vorbiscomment::pair_views;
use crate::vorbiscomment::pairs_from;
use crate::vorbiscomment::parse;
use crate::vorbiscomment::valid_count;
use crate::vorbiscomment::valid_key;
use vstd::prelude::*;
use vstd::string::*;
use vstd::utf8::valid_utf8;

verus! {

/// Four bytes, the least significant first.
pub open spec fn little_endian(v: int) -> Seq<u8> {
    seq![
        (v % 256) as u8,
        (v / 256 % 256) as u8,
        (v / 65536 % 256) as u8,
        (v / 16777216 % 256) as u8,
    ]
}

/// Comments in a row, each behind its length.
pub open spec fn in_a_list(comments: Seq<Seq<u8>>) -> Seq<u8>
    decreases comments.len(),
{
    if comments.len() == 0 {
        Seq::empty()
    } else {
        little_endian(comments[0].len() as int) + comments[0] + in_a_list(comments.drop_first())
    }
}

/// A body: the vendor behind its length, the number of comments, the comments.
pub open spec fn body_of(vendor: Seq<u8>, comments: Seq<Seq<u8>>) -> Seq<u8> {
    little_endian(vendor.len() as int) + vendor + little_endian(comments.len() as int)
        + in_a_list(comments)
}

/// Every length and the count fit 32 bits.
pub open spec fn countable(vendor: Seq<u8>, comments: Seq<Seq<u8>>) -> bool {
    &&& vendor.len() <= u32::MAX
    &&& comments.len() <= u32::MAX
    &&& forall|i: int| 0 <= i < comments.len() ==> (#[trigger] comments[i]).len() <= u32::MAX
}

/// A field name is one or more characters of ASCII from the space to `}`, without `=`.
pub open spec fn is_field_name(key: Seq<char>) -> bool {
    &&& key.len() >= 1
    &&& forall|i: int|
        0 <= i < key.len() ==> '\u{20}' <= #[trigger] key[i] <= '\u{7d}' && key[i] != '\u{3d}'
}

/// Which names are legal.
pub proof fn field_names_are_told(key: &str, r: bool)
    requires
        call_ensures(is_valid_key, (key,), r),
    ensures
        r == is_field_name(key@),
{
    names(key@);
}

proof fn names(key: Seq<char>)
    ensures
        valid_key(key) == is_field_name(key),
{
}

/// A comment as text: a field and its value, or text without a `=`.
pub ghost enum Comment {
    Field(Seq<char>, Seq<char>),
    Plain(Seq<char>),
}

/// The bytes of a comment.
pub open spec fn written(c: Comment) -> Seq<u8> {
    match c {
        Comment::Field(f, v) => utf8(f) + seq![0x3du8] + utf8(v),
        Comment::Plain(t) => utf8(t),
    }
}

/// The text in front of the first `=` holds none.
pub open spec fn splits(c: Comment) -> bool {
    match c {
        Comment::Field(f, _) => !f.contains('='),
        Comment::Plain(t) => !t.contains('='),
    }
}

/// The pair of a field: a canonical key is given as such, whatever its case, any other field
/// as it stands.
pub open spec fn pair_read(c: Comment) -> (Seq<char>, Seq<char>) {
    (
        if is_vocabulary_key(lower(c->Field_0)) {
            lower(c->Field_0)
        } else {
            c->Field_0
        },
        c->Field_1,
    )
}

proof fn no_equals_sign(s: Seq<char>)
    requires
        !s.contains('='),
    ensures
        forall|k: int| 0 <= k < utf8(s).len() ==> #[trigger] utf8(s)[k] != 0x3d,
{
    let b = utf8(s);
    vstd::utf8::encode_utf8_valid_utf8(s);
    assert forall|k: int| 0 <= k < b.len() implies #[trigger] b[k] != 0x3d by {
        if b[k] == 0x3d {
            crate::text::utf8_splits_at_ascii(b, k);
            let front = b.subrange(0, k);
            let back = b.subrange(k + 1, b.len() as int);
            let f = vstd::utf8::decode_utf8(front);
            let l = vstd::utf8::decode_utf8(back);
            vstd::utf8::decode_utf8_encode_utf8(front);
            vstd::utf8::decode_utf8_encode_utf8(back);
            let sign = seq!['='];
            ascii_bytes(sign);
            crate::text::utf8_concat(f, sign);
            crate::text::utf8_concat(f + sign, l);
            assert(utf8(f + sign + l) =~= b);
            crate::text::utf8_injective(f + sign + l, s);
            assert((f + sign + l)[f.len() as int] == '=');
        }
    }
}

/// One comment, whatever it says.
proof fn comment_is_read(c: Comment)
    requires
        splits(c),
    ensures
        valid_utf8(written(c)),
        pair_of(written(c)) == if c is Field {
            seq![pair_read(c)]
        } else {
            Seq::empty()
        },
{
    let b = written(c);
    match c {
        Comment::Field(f, v) => {
            let sign = seq!['='];
            ascii_bytes(sign);
            assert(utf8(sign) =~= seq![0x3du8]);
            crate::text::utf8_concat(f, sign);
            crate::text::utf8_concat(f + sign, v);
            vstd::utf8::encode_utf8_valid_utf8(f + sign + v);
            vstd::utf8::encode_utf8_decode_utf8(f);
            vstd::utf8::encode_utf8_decode_utf8(v);
            no_equals_sign(f);
            let n = utf8(f).len() as int;
            assert forall|k: int| 0 <= k < n implies b[k] != 0x3d by {
                assert(b[k] == utf8(f)[k]);
            }
            find_byte_is(b, 0x3d, 0, n);
            assert(b.subrange(0, n) =~= utf8(f));
            assert(b.subrange(n + 1, b.len() as int) =~= utf8(v));
            key_is_the_field(f);
        },
        Comment::Plain(t) => {
            vstd::utf8::encode_utf8_valid_utf8(t);
            no_equals_sign(t);
            find_byte_finds(b, 0x3d, 0);
            let i = find_byte(b, 0x3d, 0);
            if i < b.len() {
                assert(b[i] == 0x3d);
            }
        },
    }
}

/// The pairs of a list of comments that stands in `b` at `pos`.
proof fn list_is_read(b: Seq<u8>, pos: int, comments: Seq<Comment>)
    requires
        0 <= pos,
        pos + in_a_list(comments.map_values(|c: Comment| written(c))).len() <= b.len(),
        b.subrange(pos, pos + in_a_list(comments.map_values(|c: Comment| written(c))).len())
            == in_a_list(comments.map_values(|c: Comment| written(c))),
        forall|i: int| 0 <= i < comments.len() ==> splits(#[trigger] comments[i]),
        forall|i: int| 0 <= i < comments.len() ==> written(#[trigger] comments[i]).len() <= u32::MAX,
    ensures
        pairs_from(b, pos, comments.len()) == Some(
            comments.filter(|c: Comment| c is Field).map_values(|c: Comment| pair_read(c)),
        ),
    decreases comments.len(),
{
    let enc = |c: Comment| written(c);
    let isf = |c: Comment| c is Field;
    let rd = |c: Comment| pair_read(c);
    let all = in_a_list(comments.map_values(enc));
    reveal(Seq::filter);
    if comments.len() == 0 {
        assert(comments.filter(isf).map_values(rd) =~= Seq::empty());
    } else {
        let c = comments[0];
        let rest = comments.drop_first();
        let w = written(c);
        assert(comments.map_values(enc).drop_first() =~= rest.map_values(enc));
        let tail = in_a_list(rest.map_values(enc));
        assert(all == little_endian(w.len() as int) + w + tail);
        comment_is_read(c);
        le32_round_trip(w.len() as int);
        assert(little_endian(w.len() as int) =~= le32_bytes(w.len() as int));
        assert forall|k: int| 0 <= k < all.len() implies b[pos + k] == #[trigger] all[k] by {
            assert(b.subrange(pos, pos + all.len())[k] == b[pos + k]);
        }
        let head = little_endian(w.len() as int);
        assert(all[0] == head[0] && all[1] == head[1] && all[2] == head[2] && all[3] == head[3]);
        assert(le32(b, pos) == w.len());
        let end = pos + 4 + w.len();
        assert(b.subrange(pos + 4, end) =~= w) by {
            assert forall|k: int| 0 <= k < w.len() implies b[pos + 4 + k] == w[k] by {
                assert(all[4 + k] == w[k]);
            }
        }
        assert(b.subrange(end, end + tail.len()) =~= tail) by {
            assert forall|k: int| 0 <= k < tail.len() implies b[end + k] == tail[k] by {
                assert(all[4 + w.len() + k] == tail[k]);
            }
        }
        assert forall|i: int| 0 <= i < rest.len() implies splits(#[trigger] rest[i]) && written(
            rest[i],
        ).len() <= u32::MAX by {
            assert(rest[i] == comments[i + 1]);
        }
        list_is_read(b, end, rest);
        assert(comments =~= seq![c] + rest);
        Seq::filter_distributes_over_add(seq![c], rest, isf);
        assert(seq![c].drop_last() =~= Seq::empty());
        assert(seq![c].filter(isf) =~= if c is Field {
            seq![c]
        } else {
            Seq::empty()
        }) by {
            reveal_with_fuel(Seq::filter, 2);
        }
        assert(comments.filter(isf).map_values(rd) =~= pair_of(w) + rest.filter(isf).map_values(
            rd,
        ));
    }
}

/// A body with any vendor, any comments and anything behind them: each field comes with its
/// value, in order, and text without a `=` is skipped.
pub proof fn any_body_is_parsed(
    vendor: Seq<u8>,
    comments: Seq<Comment>,
    after: Seq<u8>,
    body: &[u8],
    r: Result<Vec<(String, String)>>,
)
    requires
        forall|i: int| 0 <= i < comments.len() ==> splits(#[trigger] comments[i]),
        countable(vendor, comments.map_values(|c: Comment| written(c))),
        body@ == body_of(vendor, comments.map_values(|c: Comment| written(c))) + after,
        call_ensures(parse, (body,), r),
    ensures
        r is Ok && pair_views(r->Ok_0@) == comments.filter(|c: Comment| c is Field).map_values(
            |c: Comment| pair_read(c),
        ),
{
    body_read(vendor, comments, after);
}

proof fn body_read(vendor: Seq<u8>, comments: Seq<Comment>, after: Seq<u8>)
    requires
        forall|i: int| 0 <= i < comments.len() ==> splits(#[trigger] comments[i]),
        countable(vendor, comments.map_values(|c: Comment| written(c))),
    ensures
        body_pairs(body_of(vendor, comments.map_values(|c: Comment| written(c))) + after) == Some(
            comments.filter(|c: Comment| c is Field).map_values(|c: Comment| pair_read(c)),
        ),
{
    let enc = |c: Comment| written(c);
    let list = comments.map_values(enc);
    let b = body_of(vendor, list) + after;
    let n = vendor.len() as int;
    le32_round_trip(n);
    le32_round_trip(list.len() as int);
    let h = little_endian(n);
    let k = little_endian(list.len() as int);
    assert(h =~= le32_bytes(n));
    assert(k =~= le32_bytes(list.len() as int));
    assert(b[0] == h[0] && b[1] == h[1] && b[2] == h[2] && b[3] == h[3]);
    assert(b[4 + n] == k[0] && b[5 + n] == k[1] && b[6 + n] == k[2] && b[7 + n] == k[3]);
    assert(b.subrange(8 + n, 8 + n + in_a_list(list).len()) =~= in_a_list(list));
    assert forall|i: int| 0 <= i < comments.len() implies written(#[trigger] comments[i]).len()
        <= u32::MAX by {
        assert(list[i].len() <= u32::MAX);
    }
    list_is_read(b, 8 + n, comments);
}

/// The first `n` bytes of `whole`, and not all of them.
pub open spec fn is_cut(b: Seq<u8>, whole: Seq<u8>, n: int) -> bool {
    0 <= n < whole.len() && b == whole.take(n)
}

/// Some comment is not UTF-8.
pub open spec fn some_is_no_text(comments: Seq<Seq<u8>>) -> bool {
    exists|i: int| 0 <= i < comments.len() && !valid_utf8(#[trigger] comments[i])
}

/// A list in `b` that is cut, or that holds a comment that is not UTF-8, has no pairs.
proof fn bad_list(b: Seq<u8>, pos: int, comments: Seq<Seq<u8>>)
    requires
        0 <= pos <= b.len(),
        forall|i: int| 0 <= i < comments.len() ==> (#[trigger] comments[i]).len() <= u32::MAX,
        is_cut(b.skip(pos), in_a_list(comments), b.len() - pos) || (pos + in_a_list(comments).len()
            <= b.len() && b.subrange(pos, pos + in_a_list(comments).len()) == in_a_list(comments)
            && some_is_no_text(comments)),
    ensures
        pairs_from(b, pos, comments.len()) is None,
    decreases comments.len(),
{
    let all = in_a_list(comments);
    if comments.len() > 0 {
        let w = comments[0];
        let rest = comments.drop_first();
        let tail = in_a_list(rest);
        let head = little_endian(w.len() as int);
        le32_round_trip(w.len() as int);
        assert(head =~= le32_bytes(w.len() as int));
        assert(all == head + w + tail);
        let m = if b.len() < pos + all.len() {
            b.len() - pos
        } else {
            all.len() as int
        };
        assert forall|k: int| 0 <= k < m implies b[pos + k] == #[trigger] all[k] by {
            if b.len() < pos + all.len() {
                assert(b.skip(pos)[k] == all.take(m)[k]);
            } else {
                assert(b.subrange(pos, pos + all.len())[k] == b[pos + k]);
            }
        }
        if m >= 4 {
            assert(all[0] == head[0] && all[1] == head[1] && all[2] == head[2] && all[3]
                == head[3]);
            assert(le32(b, pos) == w.len());
            let end = pos + 4 + w.len();
            if m >= 4 + w.len() {
                assert(b.subrange(pos + 4, end) =~= w) by {
                    assert forall|k: int| 0 <= k < w.len() implies b[pos + 4 + k] == w[k] by {
                        assert(all[4 + k] == w[k]);
                    }
                }
                if valid_utf8(w) {
                    assert forall|k: int| 0 <= k < m - 4 - w.len() implies b[end + k]
                        == tail[k] by {
                        assert(all[4 + w.len() + k] == tail[k]);
                    }
                    if b.len() < pos + all.len() {
                        assert(b.skip(end) =~= tail.take(b.len() - end));
                    } else {
                        assert(b.subrange(end, end + tail.len()) =~= tail);
                        let i = choose|i: int|
                            0 <= i < comments.len() && !valid_utf8(#[trigger] comments[i]);
                        assert(rest[i - 1] == comments[i]);
                    }
                    assert forall|i: int| 0 <= i < rest.len() implies (#[trigger] rest[i]).len()
                        <= u32::MAX by {
                        assert(rest[i] == comments[i + 1]);
                    }
                    bad_list(b, end, rest);
                }
            }
        }
    }
}

/// A body that is cut anywhere is malformed, and so is one with a comment that is not UTF-8.
pub proof fn broken_body_is_refused(
    vendor: Seq<u8>,
    comments: Seq<Seq<u8>>,
    after: Seq<u8>,
    n: int,
    body: &[u8],
    r: Result<Vec<(String, String)>>,
)
    requires
        countable(vendor, comments),
        is_cut(body@, body_of(vendor, comments), n) || (body@ == body_of(vendor, comments) + after
            && some_is_no_text(comments)),
        call_ensures(parse, (body,), r),
    ensures
        r == Err::<Vec<(String, String)>, FormatError>(FormatError::Malformed),
{
    let b = body@;
    let whole = body_of(vendor, comments);
    let v = vendor.len() as int;
    le32_round_trip(v);
    le32_round_trip(comments.len() as int);
    let h = little_endian(v);
    let k = little_endian(comments.len() as int);
    assert(h =~= le32_bytes(v));
    assert(k =~= le32_bytes(comments.len() as int));
    let all = in_a_list(comments);
    assert(whole[0] == h[0] && whole[1] == h[1] && whole[2] == h[2] && whole[3] == h[3]);
    assert(whole[4 + v] == k[0] && whole[5 + v] == k[1] && whole[6 + v] == k[2] && whole[7 + v]
        == k[3]);
    if b.len() >= 4 {
        assert(le32(b, 0) == v);
        if b.len() >= 8 + v {
            assert(le32(b, 4 + v) == comments.len());
            assert(whole.skip(8 + v) =~= all);
            if b.len() < whole.len() {
                assert(b.skip(8 + v) =~= all.take(b.len() - (8 + v)));
            } else {
                assert(b.subrange(8 + v, 8 + v + all.len()) =~= all);
            }
            bad_list(b, 8 + v, comments);
        }
    }
}

/// The comment of a tag: its key in capital letters, `=`, its value.
pub open spec fn tag_comment(t: TagInput) -> Seq<u8> {
    utf8(upper(t.key@)) + seq![0x3du8] + utf8(t.value@)
}

/// The comments of the tags whose keys are legal.
pub open spec fn tag_comments(tags: Seq<TagInput>) -> Seq<Seq<u8>> {
    tags.filter(|t: TagInput| is_field_name(t.key@)).map_values(|t: TagInput| tag_comment(t))
}

proof fn list_push(comments: Seq<Seq<u8>>, c: Seq<u8>)
    ensures
        in_a_list(comments.push(c)) == in_a_list(comments) + little_endian(c.len() as int) + c,
    decreases comments.len(),
{
    let p = comments.push(c);
    if comments.len() == 0 {
        assert(p.drop_first() =~= Seq::empty());
        reveal_with_fuel(in_a_list, 2);
        assert(in_a_list(p) =~= in_a_list(comments) + little_endian(c.len() as int) + c);
    } else {
        assert(p.drop_first() =~= comments.drop_first().push(c));
        list_push(comments.drop_first(), c);
        assert(in_a_list(p) =~= in_a_list(comments) + little_endian(c.len() as int) + c);
    }
}

/// The comments, listed and counted.
pub(crate) proof fn comments_listed(tags: Seq<TagInput>)
    ensures
        comment_list(tags) == in_a_list(tag_comments(tags)),
        valid_count(tags) == tag_comments(tags).len(),
        body_fits(tags) == countable(Seq::empty(), tag_comments(tags)),
    decreases tags.len(),
{
    let ok = |t: TagInput| is_field_name(t.key@);
    let enc = |t: TagInput| tag_comment(t);
    reveal(Seq::filter);
    let all = tag_comments(tags);
    if tags.len() == 0 {
        assert(all =~= Seq::empty());
    } else {
        let t = tags.last();
        let front = tag_comments(tags.drop_last());
        comments_listed(tags.drop_last());
        names(t.key@);
        field_is_the_key(t.key@);
        assert(comment_of(t) == tag_comment(t));
        if ok(t) {
            assert(all =~= front.push(tag_comment(t)));
            list_push(front, tag_comment(t));
            assert(little_endian(comment_of(t).len() as int) =~= le32_bytes(
                comment_of(t).len() as int,
            ));
        } else {
            assert(all =~= front);
        }
    }
    comments_fit(tags);
}

/// The limits are those of the comments that are written.
proof fn comments_fit(tags: Seq<TagInput>)
    requires
        valid_count(tags) == tag_comments(tags).len(),
    ensures
        body_fits(tags) == countable(Seq::empty(), tag_comments(tags)),
{
    let ok = |t: TagInput| is_field_name(t.key@);
    let picked = tags.filter(ok);
    let all = tag_comments(tags);
    if body_fits(tags) {
        assert forall|i: int| 0 <= i < all.len() implies (#[trigger] all[i]).len() <= u32::MAX by {
            assert(all[i] == tag_comment(picked[i]));
            tags.lemma_filter_pred(ok, i);
            assert(picked.contains(picked[i]));
            tags.lemma_filter_contains_rev(ok, picked[i]);
            let j = tags.index_of(picked[i]);
            assert(tags[j] == picked[i]);
            names(tags[j].key@);
            field_is_the_key(tags[j].key@);
            assert(valid_key(tags[j].key@));
        }
    }
    if countable(Seq::empty(), all) {
        assert forall|i: int| 0 <= i < tags.len() && valid_key(
            #[trigger] tags[i].key@,
        ) implies comment_of(tags[i]).len() <= u32::MAX by {
            names(tags[i].key@);
            field_is_the_key(tags[i].key@);
            tags.lemma_filter_contains(ok, i);
            assert(picked.contains(tags[i]));
            let j = picked.index_of(tags[i]);
            assert(all[j] == tag_comment(tags[i]));
        }
    }
}

/// What is built: the vendor `musefs` and a comment for each tag whose key is legal, in order,
/// if the count and every length fit 32 bits.
pub proof fn tags_are_written(tags: &[TagInput], r: Result<Vec<u8>>)
    requires
        call_ensures(build, (tags,), r),
    ensures
        r is Ok == countable(Seq::empty(), tag_comments(tags@)),
        match r {
            Ok(b) => b@ == body_of(utf8("musefs"@), tag_comments(tags@)),
            Err(e) => e == FormatError::TooLarge,
        },
{
    body_written(tags@);
}

pub(crate) proof fn body_written(tags: Seq<TagInput>)
    ensures
        comment_body(tags) == body_of(utf8("musefs"@), tag_comments(tags)),
        body_fits(tags) == countable(Seq::empty(), tag_comments(tags)),
{
    comments_listed(tags);
    crate::vorbiscomment::vendor_length();
    assert(little_endian(6) =~= le32_bytes(6));
    assert(little_endian(valid_count(tags)) =~= le32_bytes(valid_count(tags)));
    assert(comment_body(tags) =~= body_of(utf8("musefs"@), tag_comments(tags)));
}

} // verus!
