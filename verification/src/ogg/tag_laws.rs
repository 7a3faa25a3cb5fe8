//! The tags and pictures of a regenerated Ogg header read back as they were given.

use super::b64::b64_char_at;
use super::b64::b64_decoded;
use super::b64::b64_size;
use super::b64::b64_text;
use super::b64::b64_text_injective;
use super::b64::text_of_aligned_concat;
use super::chunks::chunk_bytes;
use super::chunks::payload_bytes;
use super::chunks::ChunkModel;
use super::header::begins;
use super::header::codec_of;
use super::header::comment_block_from;
use super::header::comment_pairs;
use super::header::header_of;
use super::header::header_pictures;
use super::header::is_block_of_type;
use super::header::is_space;
use super::header::pictures_in_comments;
use super::header::pictures_in_packets;
use super::header::text_pairs;
use super::header::without_space;
use super::header::Codec;
use super::header::HeaderModel;
use super::header::PicturesModel;
use super::header::OGGFLAC_ID;
use super::header::OPUS_HEAD;
use super::header::PICTURE_FIELD;
use super::header::VORBIS_ID;
use super::header_laws::laced_header_reads_back;
use super::header_laws::whole_header;
use super::page::headers_laced;
use super::page::total_page_count;
use super::synth::after_arts;
use super::synth::art_block_fits;
use super::synth::art_comment_fits;
use super::synth::art_comment_head;
use super::synth::art_packets;
use super::synth::art_value_len;
use super::synth::carried;
use super::synth::comment_chunks;
use super::synth::comment_packet_fits;
use super::synth::flagged;
use super::synth::following_count;
use super::synth::header_packets;
use super::synth::is_carried_block;
use super::synth::literal;
use super::synth::new_mapping;
use super::synth::oggflac_packets;
use super::synth::open_comment_body;
use super::synth::packet_payloads;
use super::synth::packets_error;
use super::synth::padded_description;
use super::synth::padding;
use super::synth::prefix_fits;
use super::synth::prefix_is_aligned;
use super::synth::prefix_of;
use super::synth::written_arts;
use super::synth::METADATA_BLOCK_PICTURE_KEY;
use super::synth::OPUS_TAGS;
use super::synth::VORBIS_COMMENT;
use crate::bytes::find_byte_is;
use crate::bytes::le32;
use crate::bytes::le32_bytes;
use crate::bytes::le32_round_trip;
use crate::flac::block_header;
use crate::flac::clamped_type;
use crate::flac::framing_reads_back;
use crate::flac::picture_of;
use crate::flac::PictureModel;
use crate::input::ArtInput;
use crate::input::TagInput;
use crate::tagmap::first;
use crate::text::ascii_bytes;
use crate::text::lossy_text_of_utf8;
use crate::text::utf8;
use crate::text::utf8_concat;
use crate::vorbiscomment::body_pairs;
use crate::vorbiscomment::comment_body;
use crate::vorbiscomment::comment_list;
use crate::vorbiscomment::comments_end;
use crate::vorbiscomment::comments_end_from;
use crate::vorbiscomment::key_of_field;
use crate::vorbiscomment::list_reads_back;
use crate::vorbiscomment::pair_of;
use crate::vorbiscomment::pairs_from;
use crate::vorbiscomment::parse_undoes_build;
use crate::vorbiscomment::read_back;
use crate::vorbiscomment::valid_count;
use crate::vorbiscomment::vendor_length;
use vstd::prelude::*;
use vstd::utf8::*;

verus! {

/// Images as they are streamed, by id.
pub open spec fn images_hold(images: spec_fn(i64) -> Seq<u8>, arts: Seq<ArtInput>) -> bool {
    forall|i: int|
        0 <= i < arts.len() ==> images((#[trigger] arts[i]).art_id).len() == arts[i].data_len
}

/// A picture as it comes back: the description with the spaces that align it.
pub open spec fn picture_back(images: spec_fn(i64) -> Seq<u8>, art: ArtInput) -> PictureModel {
    let pad = padding(utf8(art.mime@).len() as int, utf8(art.description@).len() as int);
    PictureModel {
        mime: art.mime@,
        picture_type: clamped_type(art.picture_type as int),
        description: art.description@ + Seq::new(pad as nat, |i: int| ' '),
        width: art.width,
        height: art.height,
        data: images(art.art_id),
    }
}

/// The pictures that come back: those that are not empty.
pub open spec fn pictures_back(images: spec_fn(i64) -> Seq<u8>, arts: Seq<ArtInput>) -> Seq<
    PictureModel,
>
    decreases arts.len(),
{
    if arts.len() == 0 {
        Seq::empty()
    } else {
        let before = pictures_back(images, arts.drop_last());
        if arts.last().data_len > 0 {
            before.push(picture_back(images, arts.last()))
        } else {
            before
        }
    }
}

/// The block body parses as this picture.
#[verifier::opaque]
spec fn shows(body: Seq<u8>, picture: PictureModel) -> bool {
    picture_of(body) == Some(picture)
}

/// The picture block body of an image parses.
proof fn picture_block_reads(images: spec_fn(i64) -> Seq<u8>, art: ArtInput)
    requires
        prefix_fits(art),
        images(art.art_id).len() == art.data_len,
    ensures
        shows(prefix_of(art) + images(art.art_id), picture_back(images, art)),
{
    reveal(shows);
    let pad = padding(utf8(art.mime@).len() as int, utf8(art.description@).len() as int);
    let spaces = Seq::new(pad as nat, |i: int| ' ');
    ascii_bytes(spaces);
    utf8_concat(art.description@, spaces);
    assert(utf8(spaces) =~= Seq::new(pad as nat, |i: int| 0x20u8));
    assert(padded_description(art) == utf8(art.description@ + spaces));
    lossy_text_of_utf8(art.description@ + spaces);
    framing_reads_back(
        art.picture_type,
        art.mime@,
        padded_description(art),
        art.width,
        art.height,
        images(art.art_id),
    );
}

/// A base64 character is an ASCII letter, digit or sign.
proof fn b64_char_is_plain(s: Seq<u8>, i: int)
    requires
        0 <= i < b64_text(s).len(),
    ensures
        0x2b <= b64_text(s)[i] < 0x80,
        !is_space(b64_text(s)[i]),
{
    assert(b64_text(s)[i] == b64_char_at(s, i));
}

/// Bytes without white space are left as they are.
proof fn nothing_to_strip(s: Seq<u8>)
    requires
        forall|i: int| 0 <= i < s.len() ==> !is_space(#[trigger] s[i]),
    ensures
        without_space(s) == s,
    decreases s.len(),
{
    if s.len() > 0 {
        let f = s.drop_last();
        assert forall|i: int| 0 <= i < f.len() implies !is_space(#[trigger] f[i]) by {
            assert(f[i] == s[i]);
        }
        nothing_to_strip(f);
        assert(!is_space(s[s.len() - 1]));
        assert(f.push(s.last()) =~= s);
    } else {
        assert(without_space(s) =~= s);
    }
}

/// A base64 text decodes to its source.
proof fn b64_decodes(raw: Seq<u8>)
    ensures
        b64_decoded(b64_text(raw)) == Some(raw),
{
    let t = b64_text(raw);
    assert(b64_text(raw) == t);
    let v = choose|v: Seq<u8>| #[trigger] b64_text(v) == t;
    b64_text_injective(v, raw);
}

/// The comment of an image: field and base64 text.
#[verifier::opaque]
spec fn art_comment(images: spec_fn(i64) -> Seq<u8>, art: ArtInput) -> Seq<u8> {
    METADATA_BLOCK_PICTURE_KEY@ + b64_text(prefix_of(art) + images(art.art_id))
}

/// The comment of an image behind its length.
#[verifier::opaque]
spec fn art_record(images: spec_fn(i64) -> Seq<u8>, art: ArtInput) -> Seq<u8> {
    le32_bytes(art_value_len(art)) + art_comment(images, art)
}

/// The comments of images, each behind its length.
spec fn art_list(images: spec_fn(i64) -> Seq<u8>, arts: Seq<ArtInput>) -> Seq<u8>
    decreases arts.len(),
{
    if arts.len() == 0 {
        Seq::empty()
    } else if arts.last().data_len > 0 {
        art_list(images, arts.drop_last()) + art_record(images, arts.last())
    } else {
        art_list(images, arts.drop_last())
    }
}

/// The pairs of images' comments.
spec fn art_pairs(images: spec_fn(i64) -> Seq<u8>, arts: Seq<ArtInput>) -> Seq<
    (Seq<char>, Seq<char>),
>
    decreases arts.len(),
{
    if arts.len() == 0 {
        Seq::empty()
    } else if arts.last().data_len > 0 {
        art_pairs(images, arts.drop_last()) + pair_of(art_comment(images, arts.last()))
    } else {
        art_pairs(images, arts.drop_last())
    }
}

proof fn art_lists_concat(images: spec_fn(i64) -> Seq<u8>, a: Seq<ArtInput>, b: Seq<ArtInput>)
    ensures
        art_list(images, a + b) == art_list(images, a) + art_list(images, b),
        art_pairs(images, a + b) == art_pairs(images, a) + art_pairs(images, b),
        written_arts(a + b) == written_arts(a) + written_arts(b),
    decreases b.len(),
{
    if b.len() == 0 {
        assert(a + b =~= a);
        assert(art_list(images, a) + art_list(images, b) =~= art_list(images, a));
        assert(art_pairs(images, a) + art_pairs(images, b) =~= art_pairs(images, a));
        assert(written_arts(a) + written_arts(b) =~= written_arts(a));
    } else {
        assert((a + b).drop_last() =~= a + b.drop_last());
        art_lists_concat(images, a, b.drop_last());
        assert(art_list(images, a + b) =~= art_list(images, a) + art_list(images, b));
        assert(art_pairs(images, a + b) =~= art_pairs(images, a) + art_pairs(images, b));
        assert(written_arts(a + b) =~= written_arts(a) + written_arts(b));
    }
}

/// The field's name and its bytes.
proof fn picture_key_bytes()
    ensures
        METADATA_BLOCK_PICTURE_KEY@ == utf8(PICTURE_FIELD@).push(0x3d),
        METADATA_BLOCK_PICTURE_KEY@.len() == 23,
        is_ascii_chars(PICTURE_FIELD@),
        forall|i: int| 0 <= i < 22 ==> #[trigger] METADATA_BLOCK_PICTURE_KEY@[i] != 0x3d
            && METADATA_BLOCK_PICTURE_KEY@[i] < 0x80,
{
    reveal_strlit("METADATA_BLOCK_PICTURE");
    ascii_bytes(PICTURE_FIELD@);
    let k = METADATA_BLOCK_PICTURE_KEY@;
    let f = PICTURE_FIELD@;
    assert(f.len() == 22 && k.len() == 23);
    assert(k =~= utf8(f).push(0x3d));
}

/// The field of a picture is read under its own name.
proof fn picture_key_back()
    ensures
        key_of_field(PICTURE_FIELD@) == PICTURE_FIELD@,
{
    crate::tagmap_laws::picture_field_unknown();
}

/// A picture comment over `raw` is UTF-8 and holds its base64 text.
proof fn picture_comment_reads(raw: Seq<u8>, c: Seq<u8>)
    requires
        c == METADATA_BLOCK_PICTURE_KEY@ + b64_text(raw),
    ensures
        valid_utf8(c),
        pair_of(c).len() == 1,
        pair_of(c)[0].0 == PICTURE_FIELD@,
        utf8(pair_of(c)[0].1) == b64_text(raw),
{
    let t = b64_text(raw);
    let k = METADATA_BLOCK_PICTURE_KEY@;
    picture_key_bytes();
    picture_key_back();
    let value = Seq::new(t.len(), |i: int| t[i] as char);
    assert forall|i: int| 0 <= i < value.len() implies '\0' <= #[trigger] value[i]
        <= '\u{7f}' by {
        b64_char_is_plain(raw, i);
    }
    ascii_bytes(value);
    assert(utf8(value) =~= t);
    let eq = seq!['='];
    ascii_bytes(eq);
    let text = PICTURE_FIELD@ + eq + value;
    utf8_concat(PICTURE_FIELD@, eq);
    utf8_concat(PICTURE_FIELD@ + eq, value);
    assert(utf8(text) =~= c);
    encode_utf8_valid_utf8(text);
    assert forall|i: int| 0 <= i < 22 implies c[i] != 0x3d by {
        assert(c[i] == k[i]);
    }
    assert(c[22] == k[22]);
    find_byte_is(c, 0x3d, 0, 22);
    assert(c.subrange(0, 22) =~= utf8(PICTURE_FIELD@));
    assert(c.subrange(23, c.len() as int) =~= t);
    encode_utf8_decode_utf8(PICTURE_FIELD@);
    encode_utf8_decode_utf8(value);
}

/// The comment of an image is UTF-8 and holds the picture.
proof fn art_comment_reads(images: spec_fn(i64) -> Seq<u8>, art: ArtInput)
    requires
        art_comment_fits(art),
        art.data_len > 0,
        images(art.art_id).len() == art.data_len,
    ensures
        valid_utf8(art_comment(images, art)),
        art_comment(images, art).len() == art_value_len(art),
        pair_of(art_comment(images, art)).len() == 1,
        pair_of(art_comment(images, art))[0].0 == PICTURE_FIELD@,
        utf8(pair_of(art_comment(images, art))[0].1) == b64_text(
            prefix_of(art) + images(art.art_id),
        ),
{
    reveal(art_comment);
    let p = prefix_of(art);
    let raw = p + images(art.art_id);
    picture_comment_reads(raw, art_comment(images, art));
    picture_key_bytes();
    prefix_is_aligned(art);
    sizes_add_up(p.len() as int, art.data_len as int);
}

/// A whole number of groups is followed by the rest.
proof fn sizes_add_up(a: int, b: int)
    requires
        0 <= a,
        0 <= b,
        a % 3 == 0,
    ensures
        b64_size(a + b) == b64_size(a) + b64_size(b),
{
}

/// Where the comments of images stand in a body, they read back.
#[verifier::spinoff_prover]
#[verifier::rlimit(60)]
proof fn art_list_reads(images: spec_fn(i64) -> Seq<u8>, b: Seq<u8>, pos: int, arts: Seq<ArtInput>)
    requires
        0 <= pos,
        pos + art_list(images, arts).len() <= b.len(),
        b.subrange(pos, pos + art_list(images, arts).len()) == art_list(images, arts),
        forall|i: int| 0 <= i < arts.len() ==> art_comment_fits(#[trigger] arts[i]),
        images_hold(images, arts),
    ensures
        pairs_from(b, pos, written_arts(arts).len()) == Some(art_pairs(images, arts)),
        comments_end_from(b, pos, written_arts(arts).len()) == pos + art_list(images, arts).len(),
    decreases arts.len(),
{
    if arts.len() > 0 {
        let a = arts[0];
        let one = seq![a];
        let rest = arts.skip(1);
        assert(arts =~= one + rest);
        art_lists_concat(images, one, rest);
        assert(one.drop_last() =~= Seq::<ArtInput>::empty());
        reveal_with_fuel(art_list, 2);
        reveal_with_fuel(art_pairs, 2);
        reveal_with_fuel(written_arts, 2);
        assert forall|i: int| 0 <= i < rest.len() implies art_comment_fits(#[trigger] rest[i]) by {
            assert(rest[i] == arts[i + 1]);
        }
        assert forall|i: int| 0 <= i < rest.len() implies images(
            (#[trigger] rest[i]).art_id,
        ).len() == rest[i].data_len by {
            assert(rest[i] == arts[i + 1]);
        }
        let whole = art_list(images, arts);
        let tail = art_list(images, rest);
        if a.data_len > 0 {
            let c = art_comment(images, a);
            art_comment_reads(images, a);
            le32_round_trip(c.len() as int);
            let head = le32_bytes(c.len() as int);
            reveal(art_record);
            assert(art_list(images, one) =~= head + c);
            assert(art_pairs(images, one) =~= pair_of(c));
            assert(written_arts(one).len() == 1);
            record_stands(b, pos, head, c, tail);
            let end = pos + 4 + c.len();
            art_list_reads(images, b, end, rest);
        } else {
            assert(art_list(images, one) =~= Seq::<u8>::empty());
            assert(art_pairs(images, one) =~= Seq::empty());
            assert(whole =~= tail);
            assert(art_pairs(images, arts) =~= art_pairs(images, rest));
            assert(written_arts(one).len() == 0);
            art_list_reads(images, b, pos, rest);
        }
    }
}

/// A length and a comment stand where they were written.
proof fn record_stands(b: Seq<u8>, pos: int, head: Seq<u8>, c: Seq<u8>, tail: Seq<u8>)
    requires
        0 <= pos,
        head.len() == 4,
        pos + 4 + c.len() + tail.len() <= b.len(),
        b.subrange(pos, pos + 4 + c.len() + tail.len()) == head + c + tail,
    ensures
        le32(b, pos) == le32(head, 0),
        b.subrange(pos + 4, pos + 4 + c.len()) == c,
        b.subrange(pos + 4 + c.len(), pos + 4 + c.len() + tail.len()) == tail,
{
    let whole = head + c + tail;
    assert forall|k: int| 0 <= k < whole.len() implies b[pos + k] == #[trigger] whole[k] by {
        assert(b.subrange(pos, pos + whole.len())[k] == b[pos + k]);
    }
    assert(whole[0] == head[0] && whole[1] == head[1] && whole[2] == head[2] && whole[3]
        == head[3]);
    assert(b.subrange(pos + 4, pos + 4 + c.len()) =~= c) by {
        assert forall|k: int| 0 <= k < c.len() implies b[pos + 4 + k] == c[k] by {
            assert(whole[4 + k] == c[k]);
        }
    }
    assert(b.subrange(pos + 4 + c.len(), pos + 4 + c.len() + tail.len()) =~= tail) by {
        assert forall|k: int| 0 <= k < tail.len() implies b[pos + 4 + c.len() + k] == tail[k] by {
            assert(whole[4 + c.len() + k] == tail[k]);
        }
    }
}

/// The packet that images are added to is what stood before them, then their comments.
proof fn arts_are_listed(images: spec_fn(i64) -> Seq<u8>, head: Seq<u8>, arts: Seq<ArtInput>)
    requires
        forall|i: int| 0 <= i < arts.len() ==> art_comment_fits(#[trigger] arts[i]),
        images_hold(images, arts),
    ensures
        payload_bytes(images, after_arts(head, arts).0) + after_arts(head, arts).1 == head
            + art_list(images, arts),
    decreases arts.len(),
{
    if arts.len() == 0 {
        assert(payload_bytes(images, Seq::empty()) + head =~= head + Seq::<u8>::empty());
    } else {
        let f = arts.drop_last();
        let a = arts.last();
        assert(a == arts[arts.len() - 1]);
        assert forall|i: int| 0 <= i < f.len() implies art_comment_fits(#[trigger] f[i]) by {
            assert(f[i] == arts[i]);
        }
        assert forall|i: int| 0 <= i < f.len() implies images((#[trigger] f[i]).art_id).len()
            == f[i].data_len by {
            assert(f[i] == arts[i]);
        }
        arts_are_listed(images, head, f);
        if a.data_len > 0 {
            let (done, pending) = after_arts(head, f);
            let x = art_comment_head(a);
            art_added(images, done, pending, x, a.art_id, a.data_len);
            record_in_two(images, a);
            parts_regrouped(
                payload_bytes(images, done),
                pending,
                x,
                b64_text(images(a.art_id)),
                head,
                art_list(images, f),
            );
        }
    }
}

/// An image added behind pending bytes.
proof fn art_added(
    images: spec_fn(i64) -> Seq<u8>,
    done: Seq<ChunkModel>,
    pending: Seq<u8>,
    x: Seq<u8>,
    art_id: i64,
    art_total: u64,
)
    requires
        images(art_id).len() == art_total,
    ensures
        payload_bytes(
            images,
            done.push(ChunkModel::Bytes(pending + x)).push(
                ChunkModel::Art { art_id, base64: true, art_total },
            ),
        ) == payload_bytes(images, done) + (pending + x) + b64_text(images(art_id)),
{
    let image = images(art_id);
    let one = done.push(ChunkModel::Bytes(pending + x));
    let two = one.push(ChunkModel::Art { art_id, base64: true, art_total });
    assert(two.drop_last() =~= one);
    assert(one.drop_last() =~= done);
    assert(image.take(art_total as int) =~= image);
    assert(payload_bytes(images, one) == payload_bytes(images, done) + (pending + x));
    assert(two.last() == ChunkModel::Art { art_id, base64: true, art_total });
    assert(chunk_bytes(images, two.last()) == b64_text(image));
    assert(payload_bytes(images, two) == payload_bytes(images, one) + b64_text(image));
}

/// What stands in front of an image's base64 text, and that text, are its comment.
proof fn record_in_two(images: spec_fn(i64) -> Seq<u8>, art: ArtInput)
    ensures
        art_comment_head(art) + b64_text(images(art.art_id)) == art_record(images, art),
{
    reveal(art_record);
    reveal(art_comment);
    let p = prefix_of(art);
    let image = images(art.art_id);
    prefix_is_aligned(art);
    text_of_aligned_concat(p, image);
    three_and_one(
        le32_bytes(art_value_len(art)),
        METADATA_BLOCK_PICTURE_KEY@,
        b64_text(p),
        b64_text(image),
    );
}

proof fn three_and_one(a: Seq<u8>, b: Seq<u8>, c: Seq<u8>, d: Seq<u8>)
    ensures
        a + b + c + d == a + (b + (c + d)),
{
    assert(a + b + c + d =~= a + (b + (c + d)));
}

proof fn parts_regrouped(
    p: Seq<u8>,
    pending: Seq<u8>,
    x: Seq<u8>,
    y: Seq<u8>,
    head: Seq<u8>,
    list: Seq<u8>,
)
    requires
        p + pending == head + list,
    ensures
        p + (pending + x) + y + Seq::<u8>::empty() == head + (list + (x + y)),
{
    assert(p + (pending + x) + y + Seq::<u8>::empty() =~= (p + pending) + (x + y));
    assert((head + list) + (x + y) =~= head + (list + (x + y)));
}

/// The bytes of a regenerated comment packet.
proof fn comment_packet_bytes(
    images: spec_fn(i64) -> Seq<u8>,
    magic: Seq<u8>,
    tags: Seq<TagInput>,
    arts: Seq<ArtInput>,
    framing_bit: bool,
)
    requires
        comment_packet_fits(tags, arts),
        images_hold(images, arts),
    ensures
        payload_bytes(images, comment_chunks(magic, tags, arts, framing_bit)) == magic + (
        open_comment_body(tags, written_arts(arts).len() as int) + art_list(images, arts)
            + if framing_bit {
            seq![0x01u8]
        } else {
            Seq::empty()
        }),
{
    let body = open_comment_body(tags, written_arts(arts).len() as int);
    let head = magic + body;
    let (done, pending) = after_arts(head, arts);
    arts_are_listed(images, head, arts);
    let bit = if framing_bit {
        seq![0x01u8]
    } else {
        Seq::empty()
    };
    let last = if framing_bit {
        pending.push(0x01u8)
    } else {
        pending
    };
    assert(last =~= pending + bit);
    let p = payload_bytes(images, done);
    let l = art_list(images, arts);
    assert(p + pending + bit =~= magic + (body + l + bit)) by {
        assert(p + pending == magic + body + l);
        assert(magic + body + l + bit =~= magic + (body + l + bit));
    }
    assert(p + last =~= p + pending + bit);
    if last.len() == 0 {
        assert(p + last =~= p);
    } else {
        let all = done.push(ChunkModel::Bytes(last));
        assert(all.drop_last() =~= done);
    }
}

/// The body of a regenerated comment packet reads back: the tags, then the images.
proof fn comment_body_reads(
    images: spec_fn(i64) -> Seq<u8>,
    tags: Seq<TagInput>,
    arts: Seq<ArtInput>,
    after: Seq<u8>,
)
    requires
        comment_packet_fits(tags, arts),
        images_hold(images, arts),
    ensures
        body_pairs(
            open_comment_body(tags, written_arts(arts).len() as int) + art_list(images, arts)
                + after,
        ) == Some(read_back(tags) + art_pairs(images, arts)),
        comments_end(
            open_comment_body(tags, written_arts(arts).len() as int) + art_list(images, arts)
                + after,
        ) == (open_comment_body(tags, written_arts(arts).len() as int) + art_list(images, arts)).len(),
{
    let more = written_arts(arts).len();
    let n = valid_count(tags) + more;
    let list = comment_list(tags);
    let l = art_list(images, arts);
    let b = open_comment_body(tags, more as int) + l + after;
    vendor_length();
    crate::vorbiscomment::valid_count_prefix(tags, 0);
    le32_round_trip(6);
    le32_round_trip(n);
    let v = le32_bytes(6);
    let c = le32_bytes(n);
    assert(b[0] == v[0] && b[1] == v[1] && b[2] == v[2] && b[3] == v[3]);
    assert(b[10] == c[0] && b[11] == c[1] && b[12] == c[2] && b[13] == c[3]);
    assert(b.subrange(14, 14 + list.len() as int) =~= list);
    let at = 14 + list.len() as int;
    assert(b.subrange(at, at + l.len()) =~= l);
    list_reads_back(b, 14, tags, more);
    art_list_reads(images, b, at, arts);
}

/// A base64 text as characters.
pub open spec fn b64_chars(raw: Seq<u8>) -> Seq<char> {
    Seq::new(b64_text(raw).len(), |i: int| b64_text(raw)[i] as char)
}

/// The fields of images: one for each that is not empty, holding the base64 text of the
/// picture block body, prefix and image.
pub open spec fn picture_fields(images: spec_fn(i64) -> Seq<u8>, arts: Seq<ArtInput>) -> Seq<
    (Seq<char>, Seq<char>),
>
    decreases arts.len(),
{
    if arts.len() == 0 {
        Seq::empty()
    } else {
        let before = picture_fields(images, arts.drop_last());
        let a = arts.last();
        if a.data_len > 0 {
            before.push((PICTURE_FIELD@, b64_chars(prefix_of(a) + images(a.art_id))))
        } else {
            before
        }
    }
}

/// The characters of a base64 text are its bytes, and decode to what was encoded.
pub proof fn b64_chars_decode(raw: Seq<u8>)
    ensures
        utf8(b64_chars(raw)) == b64_text(raw),
        b64_decoded(utf8(b64_chars(raw))) == Some(raw),
{
    let value = b64_chars(raw);
    assert forall|i: int| 0 <= i < value.len() implies '\0' <= #[trigger] value[i]
        <= '\u{7f}' by {
        b64_char_is_plain(raw, i);
    }
    ascii_bytes(value);
    assert(utf8(value) =~= b64_text(raw));
    b64_decodes(raw);
}

/// The pairs of images' comments are their fields.
proof fn art_pairs_are_fields(images: spec_fn(i64) -> Seq<u8>, arts: Seq<ArtInput>)
    requires
        forall|i: int| 0 <= i < arts.len() ==> art_comment_fits(#[trigger] arts[i]),
        images_hold(images, arts),
    ensures
        art_pairs(images, arts) == picture_fields(images, arts),
    decreases arts.len(),
{
    if arts.len() > 0 {
        let f = arts.drop_last();
        let a = arts.last();
        assert(a == arts[arts.len() - 1]);
        assert forall|i: int| 0 <= i < f.len() implies art_comment_fits(#[trigger] f[i]) by {
            assert(f[i] == arts[i]);
        }
        assert forall|i: int| 0 <= i < f.len() implies images((#[trigger] f[i]).art_id).len()
            == f[i].data_len by {
            assert(f[i] == arts[i]);
        }
        art_pairs_are_fields(images, f);
        if a.data_len > 0 {
            let raw = prefix_of(a) + images(a.art_id);
            art_comment_reads(images, a);
            b64_chars_decode(raw);
            let one = pair_of(art_comment(images, a));
            crate::text::utf8_injective(one[0].1, b64_chars(raw));
            assert(one =~= seq![(PICTURE_FIELD@, b64_chars(raw))]);
            let before = art_pairs(images, f);
            assert(before + one =~= before.push((PICTURE_FIELD@, b64_chars(raw))));
        }
    }
}

/// A regenerated comment packet reads back. It begins with its magic; the comments behind it
/// are the tags with a legal key, in order, and then one picture field for each image; and
/// behind the last comment stands the framing byte, where there is to be one, and nothing
/// else.
#[verifier::spinoff_prover]
#[verifier::rlimit(60)]
pub proof fn comment_packet_reads_back(
    images: spec_fn(i64) -> Seq<u8>,
    magic: Seq<u8>,
    tags: Seq<TagInput>,
    arts: Seq<ArtInput>,
    framing_bit: bool,
)
    requires
        comment_packet_fits(tags, arts),
        images_hold(images, arts),
    ensures
        ({
            let packet = payload_bytes(images, comment_chunks(magic, tags, arts, framing_bit));
            let body = packet.skip(magic.len() as int);
            &&& begins(packet, magic)
            &&& body_pairs(body) == Some(read_back(tags) + picture_fields(images, arts))
            &&& body.skip(comments_end(body)) == if framing_bit {
                seq![0x01u8]
            } else {
                Seq::empty()
            }
        }),
{
    let bit = if framing_bit {
        seq![0x01u8]
    } else {
        Seq::empty()
    };
    let front = open_comment_body(tags, written_arts(arts).len() as int) + art_list(images, arts);
    let body = front + bit;
    comment_packet_bytes(images, magic, tags, arts, framing_bit);
    comment_body_reads(images, tags, arts, bit);
    art_pairs_are_fields(images, arts);
    assert((magic + body).take(magic.len() as int) =~= magic);
    assert((magic + body).skip(magic.len() as int) =~= body);
    assert(body.skip(front.len() as int) =~= bit);
}

/// Joined pairs are told apart one by one.
proof fn text_pairs_concat(a: Seq<(Seq<char>, Seq<char>)>, b: Seq<(Seq<char>, Seq<char>)>)
    ensures
        text_pairs(a + b) == text_pairs(a) + text_pairs(b),
    decreases b.len(),
{
    if b.len() == 0 {
        assert(a + b =~= a);
        assert(text_pairs(a) + text_pairs(b) =~= text_pairs(a));
    } else {
        assert((a + b).drop_last() =~= a + b.drop_last());
        text_pairs_concat(a, b.drop_last());
        assert(text_pairs(a + b) =~= text_pairs(a) + text_pairs(b));
    }
}

/// The pairs of images hold no text, and each holds its picture.
proof fn art_pairs_read(
    images: spec_fn(i64) -> Seq<u8>,
    before: Seq<(Seq<char>, Seq<char>)>,
    arts: Seq<ArtInput>,
)
    requires
        forall|i: int| 0 <= i < arts.len() ==> art_comment_fits(#[trigger] arts[i]),
        images_hold(images, arts),
    ensures
        text_pairs(before + art_pairs(images, arts)) == text_pairs(before),
        pictures_in_comments(before + art_pairs(images, arts)) == (PicturesModel {
            pictures: pictures_in_comments(before).pictures + pictures_back(images, arts),
            dropped: pictures_in_comments(before).dropped,
        }),
    decreases arts.len(),
{
    let start = pictures_in_comments(before);
    if arts.len() == 0 {
        assert(before + art_pairs(images, arts) =~= before);
        assert(start.pictures + pictures_back(images, arts) =~= start.pictures);
    } else {
        let f = arts.drop_last();
        let a = arts.last();
        assert(a == arts[arts.len() - 1]);
        assert forall|i: int| 0 <= i < f.len() implies art_comment_fits(#[trigger] f[i]) by {
            assert(f[i] == arts[i]);
        }
        assert forall|i: int| 0 <= i < f.len() implies images((#[trigger] f[i]).art_id).len()
            == f[i].data_len by {
            assert(f[i] == arts[i]);
        }
        art_pairs_read(images, before, f);
        if a.data_len > 0 {
            art_comment_reads(images, a);
            let raw = prefix_of(a) + images(a.art_id);
            let one = pair_of(art_comment(images, a));
            let all = before + art_pairs(images, arts);
            assert(all.drop_last() =~= before + art_pairs(images, f));
            assert(all.last() == one[0]);
            assert forall|i: int| 0 <= i < b64_text(raw).len() implies !is_space(
                #[trigger] b64_text(raw)[i],
            ) by {
                b64_char_is_plain(raw, i);
            }
            nothing_to_strip(b64_text(raw));
            b64_decodes(raw);
            picture_block_reads(images, a);
            reveal(shows);
            assert((start.pictures + pictures_back(images, f)).push(picture_back(images, a))
                =~= start.pictures + pictures_back(images, arts));
        }
    }
}

/// A packet of literal bytes is those bytes.
pub proof fn literal_bytes(images: spec_fn(i64) -> Seq<u8>, b: Seq<u8>)
    ensures
        payload_bytes(images, literal(b)) == b,
{
    let l = literal(b);
    assert(l.drop_last() =~= Seq::empty());
    assert(payload_bytes(images, l.drop_last()) =~= Seq::empty());
    assert(payload_bytes(images, l) =~= b);
}

/// A picture packet is block header, prefix and image.
proof fn picture_packet_bytes(images: spec_fn(i64) -> Seq<u8>, head: Seq<u8>, art_id: i64, art_total: u64)
    requires
        images(art_id).len() == art_total,
    ensures
        payload_bytes(
            images,
            seq![ChunkModel::Bytes(head), ChunkModel::Art { art_id, base64: false, art_total }],
        ) == head + images(art_id),
{
    let one = literal(head);
    let run = ChunkModel::Art { art_id, base64: false, art_total };
    let two = seq![ChunkModel::Bytes(head), run];
    literal_bytes(images, head);
    assert(two.drop_last() =~= one);
    assert(two.last() == run);
    assert(images(art_id).take(art_total as int) =~= images(art_id));
}

/// Joined packets are served one by one.
proof fn payloads_concat(
    images: spec_fn(i64) -> Seq<u8>,
    a: Seq<Seq<ChunkModel>>,
    b: Seq<Seq<ChunkModel>>,
)
    ensures
        packet_payloads(images, a + b) == packet_payloads(images, a) + packet_payloads(images, b),
{
    assert(packet_payloads(images, a + b) =~= packet_payloads(images, a) + packet_payloads(
        images,
        b,
    ));
}

/// The blocks that are carried over hold neither comments nor pictures.
proof fn carried_are_other_blocks(images: spec_fn(i64) -> Seq<u8>, packets: Seq<Seq<u8>>)
    ensures
        forall|i: int|
            0 <= i < carried(packets).len() ==> !is_block_of_type(
                #[trigger] packet_payloads(images, carried(packets))[i],
                4,
            ) && !is_block_of_type(packet_payloads(images, carried(packets))[i], 6),
    decreases packets.len(),
{
    if packets.len() > 0 {
        let f = packets.drop_last();
        let l = packets.last();
        carried_are_other_blocks(images, f);
        if is_carried_block(l) {
            let done = packet_payloads(images, carried(f));
            let all = packet_payloads(images, carried(packets));
            let b = flagged(l, false);
            literal_bytes(images, b);
            assert(b[0] % 0x80 == l[0] % 0x80);
            assert forall|i: int| 0 <= i < all.len() implies !is_block_of_type(
                #[trigger] all[i],
                4,
            ) && !is_block_of_type(all[i], 6) by {
                if i < done.len() {
                    assert(all[i] == done[i]);
                } else {
                    assert(all[i] == b);
                }
            }
        }
    }
}

/// Packets that are no pictures give none.
proof fn no_pictures_in(packets: Seq<Seq<u8>>)
    requires
        forall|i: int| 0 <= i < packets.len() ==> !is_block_of_type(#[trigger] packets[i], 6),
    ensures
        pictures_in_packets(packets) == (PicturesModel {
            pictures: Seq::empty(),
            dropped: Seq::empty(),
        }),
    decreases packets.len(),
{
    if packets.len() > 0 {
        let f = packets.drop_last();
        assert forall|i: int| 0 <= i < f.len() implies !is_block_of_type(#[trigger] f[i], 6) by {
            assert(f[i] == packets[i]);
        }
        no_pictures_in(f);
        assert(!is_block_of_type(packets[packets.len() - 1], 6));
    }
}

/// The picture packets give their pictures.
proof fn art_packets_read(
    images: spec_fn(i64) -> Seq<u8>,
    before: Seq<Seq<u8>>,
    arts: Seq<ArtInput>,
    last: bool,
)
    requires
        forall|i: int| 0 <= i < arts.len() ==> art_block_fits(#[trigger] arts[i]),
        images_hold(images, arts),
        pictures_in_packets(before) == (PicturesModel {
            pictures: Seq::empty(),
            dropped: Seq::empty(),
        }),
    ensures
        pictures_in_packets(before + packet_payloads(images, art_packets(arts, last))) == (
        PicturesModel { pictures: pictures_back(images, arts), dropped: Seq::empty() }),
        art_packets(arts, last).len() == written_arts(arts).len(),
    decreases arts.len(),
{
    let all = before + packet_payloads(images, art_packets(arts, last));
    if arts.len() == 0 {
        assert(all =~= before);
    } else {
        let f = arts.drop_last();
        let a = arts.last();
        assert(a == arts[arts.len() - 1]);
        assert forall|i: int| 0 <= i < f.len() implies art_block_fits(#[trigger] f[i]) by {
            assert(f[i] == arts[i]);
        }
        assert forall|i: int| 0 <= i < f.len() implies images((#[trigger] f[i]).art_id).len()
            == f[i].data_len by {
            assert(f[i] == arts[i]);
        }
        if a.data_len == 0 {
            art_packets_read(images, before, f, last);
        } else {
            art_packets_read(images, before, f, false);
            last_art_packet(arts, last);
            let chunks = picture_chunks(a, last);
            picture_chunks_read(images, a, last);
            let m = art_packets(f, false);
            one_more_picture(
                images,
                before,
                m,
                chunks,
                pictures_back(images, f),
                picture_back(images, a),
            );
        }
    }
}

/// A picture packet read behind others.
proof fn one_more_picture(
    images: spec_fn(i64) -> Seq<u8>,
    before: Seq<Seq<u8>>,
    m: Seq<Seq<ChunkModel>>,
    chunks: Seq<ChunkModel>,
    pictures: Seq<PictureModel>,
    picture: PictureModel,
)
    requires
        pictures_in_packets(before + packet_payloads(images, m)) == (PicturesModel {
            pictures,
            dropped: Seq::empty(),
        }),
        is_block_of_type(payload_bytes(images, chunks), 6),
        payload_bytes(images, chunks).len() >= 4,
        shows(payload_bytes(images, chunks).skip(4), picture),
    ensures
        pictures_in_packets(before + packet_payloads(images, m.push(chunks))) == (PicturesModel {
            pictures: pictures.push(picture),
            dropped: Seq::empty(),
        }),
{
    reveal(shows);
    let done = before + packet_payloads(images, m);
    let all = before + packet_payloads(images, m.push(chunks));
    assert(all.len() == done.len() + 1);
    assert(all.last() == payload_bytes(images, chunks));
    assert(all.drop_last() =~= done);
}

/// The chunks of a picture packet.
#[verifier::opaque]
spec fn picture_chunks(art: ArtInput, last: bool) -> Seq<ChunkModel> {
    seq![
        ChunkModel::Bytes(
            block_header(6, prefix_of(art).len() + art.data_len, last) + prefix_of(art),
        ),
        ChunkModel::Art { art_id: art.art_id, base64: false, art_total: art.data_len },
    ]
}

/// The last image's packet comes last.
proof fn last_art_packet(arts: Seq<ArtInput>, last: bool)
    requires
        arts.len() > 0,
        arts.last().data_len > 0,
    ensures
        art_packets(arts, last) == art_packets(arts.drop_last(), false).push(
            picture_chunks(arts.last(), last),
        ),
{
    reveal(picture_chunks);
}

/// A picture packet holds its picture.
proof fn picture_chunks_read(images: spec_fn(i64) -> Seq<u8>, art: ArtInput, last: bool)
    requires
        prefix_fits(art),
        images(art.art_id).len() == art.data_len,
    ensures
        is_block_of_type(payload_bytes(images, picture_chunks(art, last)), 6),
        payload_bytes(images, picture_chunks(art, last)).len() >= 4,
        shows(
            payload_bytes(images, picture_chunks(art, last)).skip(4),
            picture_back(images, art),
        ),
{
    reveal(picture_chunks);
    picture_block_reads(images, art);
    picture_packet_parts(
        images,
        prefix_of(art),
        prefix_of(art).len() + art.data_len,
        last,
        art.art_id,
        art.data_len,
    );
}

/// The parts of a picture packet.
proof fn picture_packet_parts(
    images: spec_fn(i64) -> Seq<u8>,
    p: Seq<u8>,
    len: int,
    last: bool,
    art_id: i64,
    art_total: u64,
)
    requires
        images(art_id).len() == art_total,
    ensures
        ({
            let body = payload_bytes(
                images,
                seq![
                    ChunkModel::Bytes(block_header(6, len, last) + p),
                    ChunkModel::Art { art_id, base64: false, art_total },
                ],
            );
            &&& is_block_of_type(body, 6)
            &&& body.len() >= 4
            &&& body.skip(4) == p + images(art_id)
        }),
{
    let h = block_header(6, len, last);
    picture_packet_bytes(images, h + p, art_id, art_total);
    let body = h + p + images(art_id);
    assert(h.len() == 4);
    assert(body[0] == h[0]);
    assert(body.skip(4) =~= p + images(art_id));
}

/// The first comment block is found behind others.
proof fn comment_block_found(packets: Seq<Seq<u8>>, i: int, at: int)
    requires
        0 <= i <= at < packets.len(),
        is_block_of_type(packets[at], 4),
        forall|k: int| i <= k < at ==> !is_block_of_type(#[trigger] packets[k], 4),
    ensures
        comment_block_from(packets, i) == at,
    decreases at - i,
{
    if i < at {
        assert(!is_block_of_type(packets[i], 4));
        comment_block_found(packets, i + 1, at);
    }
}

/// What comes back of a regenerated header: the text of its tags, and the pictures that its
/// tags hold, then those of its images. (A tag of an OggFLAC stream holds no picture: there
/// a picture is a block of its own.)
pub open spec fn reads_as_given(
    images: spec_fn(i64) -> Seq<u8>,
    h: HeaderModel,
    tags: Seq<TagInput>,
    arts: Seq<ArtInput>,
) -> bool {
    let given = match h.codec {
        Codec::OggFlac => PicturesModel { pictures: Seq::empty(), dropped: Seq::empty() },
        _ => pictures_in_comments(read_back(tags)),
    };
    &&& match comment_pairs(h) {
        Some(pairs) => text_pairs(pairs) == text_pairs(read_back(tags)),
        None => false,
    }
    &&& header_pictures(h) == Some(
        PicturesModel {
            pictures: given.pictures + pictures_back(images, arts),
            dropped: given.dropped,
        },
    )
}

/// An Opus or Vorbis comment packet reads as given.
proof fn comment_packet_reads(
    images: spec_fn(i64) -> Seq<u8>,
    h: HeaderModel,
    magic: Seq<u8>,
    tags: Seq<TagInput>,
    arts: Seq<ArtInput>,
    framing_bit: bool,
)
    requires
        !(h.codec is OggFlac),
        magic.len() == super::header::comment_prefix(h.codec),
        h.packets.len() >= 2,
        h.packets[1] == payload_bytes(images, comment_chunks(magic, tags, arts, framing_bit)),
        comment_packet_fits(tags, arts),
        images_hold(images, arts),
    ensures
        reads_as_given(images, h, tags, arts),
{
    let bit = if framing_bit {
        seq![0x01u8]
    } else {
        Seq::empty()
    };
    let body = open_comment_body(tags, written_arts(arts).len() as int) + art_list(images, arts)
        + bit;
    comment_packet_bytes(images, magic, tags, arts, framing_bit);
    assert((magic + body).skip(magic.len() as int) =~= body);
    comment_body_reads(images, tags, arts, bit);
    art_pairs_read(images, read_back(tags), arts);
}

/// A mapping packet with a new count is still one.
proof fn new_mapping_reads(m: Seq<u8>, count: int)
    requires
        codec_of(m) == Some(Codec::OggFlac),
        m.len() >= 9,
        0 <= count <= u16::MAX,
    ensures
        codec_of(new_mapping(m, count)) == Some(Codec::OggFlac),
        new_mapping(m, count).len() == m.len(),
        crate::bytes::be16(new_mapping(m, count), 7) == count,
{
    let n = new_mapping(m, count);
    let id = OGGFLAC_ID@;
    assert(n.take(5) =~= m.take(5));
    assert(id.len() == 5 && id[0] == 0x7f);
    assert(n[0] == m.take(5)[0]);
    assert(n[0] == 0x7f);
    if begins(n, OPUS_HEAD@) {
        assert(n.take(8)[0] == OPUS_HEAD@[0]);
    }
    if begins(n, VORBIS_ID@) {
        assert(n.take(7)[0] == VORBIS_ID@[0]);
    }
}

/// The header of an OggFLAC stream reads as given.
proof fn oggflac_header_reads(
    images: spec_fn(i64) -> Seq<u8>,
    h: HeaderModel,
    packets: Seq<Seq<u8>>,
    tags: Seq<TagInput>,
    arts: Seq<ArtInput>,
)
    requires
        h.codec is OggFlac,
        packets.len() > 0,
        packets[0].len() >= 9,
        codec_of(packets[0]) == Some(Codec::OggFlac),
        super::synth::oggflac_fits(packets, tags, arts),
        images_hold(images, arts),
        h.packets == packet_payloads(images, oggflac_packets(packets, tags, arts)),
    ensures
        whole_header(h.codec, h.packets),
        reads_as_given(images, h, tags, arts),
{
    let count = following_count(packets, arts);
    let vc = comment_body(tags);
    let bh = block_header(4, vc.len() as int, written_arts(arts).len() == 0);
    let mapping = new_mapping(packets[0], count);
    let c = carried(packets.skip(1));
    let p = art_packets(arts, true);
    let first = seq![literal(mapping)];
    let comment = seq![literal(bh + vc)];
    let cs = packet_payloads(images, c);
    let ps = packet_payloads(images, p);
    literal_bytes(images, mapping);
    literal_bytes(images, bh + vc);
    assert(packet_payloads(images, first) =~= seq![mapping]);
    assert(packet_payloads(images, comment) =~= seq![bh + vc]);
    payloads_concat(images, first, c);
    payloads_concat(images, first + c, comment);
    payloads_concat(images, first + c + comment, p);
    let all = h.packets;
    assert(all == seq![mapping] + cs + seq![bh + vc] + ps);
    carried_are_other_blocks(images, packets.skip(1));
    new_mapping_reads(packets[0], count);
    let front = cs + seq![bh + vc];
    assert((bh + vc)[0] == bh[0]);
    assert(bh[0] % 0x80 == 4);
    assert forall|i: int| 0 <= i < front.len() implies !is_block_of_type(
        #[trigger] front[i],
        6,
    ) by {
        if i < cs.len() {
            assert(front[i] == cs[i]);
        } else {
            assert(front[i] == bh + vc);
        }
    }
    no_pictures_in(front);
    art_packets_read(images, front, arts, true);
    assert(all.skip(1) =~= front + ps);
    let at = 1 + cs.len() as int;
    assert(all[at] == bh + vc);
    assert forall|k: int| 1 <= k < at implies !is_block_of_type(#[trigger] all[k], 4) by {
        assert(all[k] == cs[k - 1]);
    }
    comment_block_found(all, 1, at);
    assert((bh + vc).skip(4) =~= vc);
    parse_undoes_build(tags, Seq::empty());
    assert(vc + Seq::<u8>::empty() =~= vc);
    let none = Seq::<PictureModel>::empty();
    assert(none + pictures_back(images, arts) =~= pictures_back(images, arts));
    assert(all[0] == mapping);
}

/// Reading undoes synthesis: the header region of a synthesized Ogg file comes back with
/// codec, serial and the packets it was made of, its tags and pictures read as they were
/// given, and the audio begins behind it, whatever the audio is.
pub proof fn synthesized_header_reads_back(
    images: spec_fn(i64) -> Seq<u8>,
    codec: Codec,
    serial: u32,
    packets: Seq<Seq<u8>>,
    tags: Seq<TagInput>,
    arts: Seq<ArtInput>,
    audio: Seq<u8>,
)
    requires
        packets.len() > 0,
        codec_of(packets[0]) == Some(codec),
        codec is Vorbis ==> packets.len() >= 3,
        packets_error(codec, packets, tags, arts) is None,
        images_hold(images, arts),
    ensures
        ({
            let made = packet_payloads(images, header_packets(codec, packets, tags, arts));
            let head = headers_laced(serial, made);
            let h = HeaderModel {
                codec,
                serial,
                packets: made,
                header_pages: total_page_count(made),
                audio_offset: head.len() as int,
            };
            &&& header_of(head + audio) == Some(h)
            &&& reads_as_given(images, h, tags, arts)
        }),
{
    let chunks = header_packets(codec, packets, tags, arts);
    let made = packet_payloads(images, chunks);
    let h = HeaderModel {
        codec,
        serial,
        packets: made,
        header_pages: total_page_count(made),
        audio_offset: headers_laced(serial, made).len() as int,
    };
    match codec {
        Codec::OggFlac => {
            oggflac_header_reads(images, h, packets, tags, arts);
        },
        Codec::Opus => {
            literal_bytes(images, packets[0]);
            assert(made.len() == 2);
            assert(made[0] == packets[0]);
            assert(made[1] == payload_bytes(images, chunks[1]));
            comment_packet_reads(images, h, OPUS_TAGS@, tags, arts, false);
        },
        Codec::Vorbis => {
            literal_bytes(images, packets[0]);
            assert(made.len() == 3);
            assert(made[0] == packets[0]);
            assert(made[1] == payload_bytes(images, chunks[1]));
            comment_packet_reads(images, h, VORBIS_COMMENT@, tags, arts, true);
        },
    }
    laced_header_reads_back(codec, serial, made, audio);
}

} // verus!
