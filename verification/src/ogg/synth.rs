//! Synthesizing the header region of an Ogg stream: regenerated header packets, laced into
//! pages in front of the original audio pages.

use super::art_source::ArtSource;
use super::b64::b64_len_checked;
use super::b64::b64_size;
use super::b64::b64_text;
use super::b64::base64_encode;
use super::chunks::arts_available;
use super::chunks::chunk_model;
use super::chunks::chunk_models;
use super::chunks::chunks_len;
use super::chunks::images_of;
use super::chunks::lace_chunks_to_segments;
use super::chunks::first_missing;
use super::chunks::lacing_fits;
use super::chunks::no_art;
use super::chunks::none_missing;
use super::chunks::payload_bytes;
use super::chunks::segments_of;
use super::chunks::served;
use super::chunks::ChunkModel;
use super::chunks::PayloadChunk;
use super::header::byte_strings;
use super::header::is_block_of_type;
use super::header::Codec;
use super::header::OggHeader;
use super::header::OGGFLAC_STREAMINFO_POS;
use super::page::headers_laced;
use super::page::lacing;
use super::page::page_count;
use super::page::total_page_count;
use crate::bytes::append;
use crate::bytes::be16_bytes;
use crate::bytes::copy_range;
use crate::bytes::le32_bytes;
use crate::bytes::push_u32_le;
use crate::bytes::put_u32_le;
use crate::error::FormatError;
use crate::error::Result;
use crate::flac::art_framing;
use crate::flac::block_header;
use crate::flac::framing_fits;
use crate::flac::framing_with;
use crate::flac::push_block_header;
use crate::flac::MAX_BLOCK_BODY;
use crate::input::ArtInput;
use crate::input::TagInput;
use crate::layout::layout_fault;
use crate::layout::push_segment;
use crate::layout::seg_views;
use crate::layout::seg_views_concat;
use crate::layout::RegionLayout;
use crate::layout::SegView;
use crate::layout::Segment;
use crate::text::utf8;
use crate::vorbiscomment::body_fits;
use crate::vorbiscomment::comment_list;
use crate::vorbiscomment::valid_count;
use crate::vorbiscomment::VENDOR;
use vstd::prelude::*;
use vstd::string::*;

verus! {

/// `METADATA_BLOCK_PICTURE=`.
pub const METADATA_BLOCK_PICTURE_KEY: [u8; 23] = [
    0x4d,
    0x45,
    0x54,
    0x41,
    0x44,
    0x41,
    0x54,
    0x41,
    0x5f,
    0x42,
    0x4c,
    0x4f,
    0x43,
    0x4b,
    0x5f,
    0x50,
    0x49,
    0x43,
    0x54,
    0x55,
    0x52,
    0x45,
    0x3d,
];

/// `OpusTags`.
pub const OPUS_TAGS: [u8; 8] = [0x4f, 0x70, 0x75, 0x73, 0x54, 0x61, 0x67, 0x73];

/// `0x03 "vorbis"`.
pub const VORBIS_COMMENT: [u8; 7] = [0x03, 0x76, 0x6f, 0x72, 0x62, 0x69, 0x73];

/// One image to embed: its metadata. Bytes are read from an `ArtSource` only to
/// compute page CRCs at synthesis time; they are never retained in the layout.
#[derive(Clone, Copy)]
pub struct OggArt<'a> {
    pub meta: &'a ArtInput,
}

/// The metadata of a list of images.
pub open spec fn metas(arts: Seq<OggArt<'_>>) -> Seq<ArtInput> {
    Seq::new(arts.len(), |i: int| *arts[i].meta)
}

/// The images that are written: those that are not empty.
pub open spec fn written_arts(arts: Seq<ArtInput>) -> Seq<ArtInput>
    decreases arts.len(),
{
    if arts.len() == 0 {
        Seq::empty()
    } else if arts.last().data_len > 0 {
        written_arts(arts.drop_last()).push(arts.last())
    } else {
        written_arts(arts.drop_last())
    }
}

/// How many spaces bring the unpadded prefix, 32 bytes and the two texts, to a multiple
/// of 3.
pub open spec fn padding(mime_len: int, description_len: int) -> int {
    (3 - (32 + mime_len + description_len) % 3) % 3
}

/// The description, padded with spaces.
pub open spec fn padded_description(art: ArtInput) -> Seq<u8> {
    let pad = padding(utf8(art.mime@).len() as int, utf8(art.description@).len() as int);
    utf8(art.description@) + Seq::new(pad as nat, |i: int| 0x20u8)
}

/// The picture block body in front of the image.
pub open spec fn prefix_of(art: ArtInput) -> Seq<u8> {
    art_framing(art, padded_description(art))
}

/// The prefix's lengths fit their fields.
pub open spec fn prefix_fits(art: ArtInput) -> bool {
    framing_fits(art, padded_description(art))
}

/// The prefix is a whole number of base64 groups, so the image's base64 text follows the
/// prefix's unchanged.
pub proof fn prefix_is_aligned(art: ArtInput)
    ensures
        prefix_of(art).len() % 3 == 0,
        prefix_of(art).len() == 32 + utf8(art.mime@).len() + padded_description(art).len(),
{
}

/// Build the FLAC PICTURE block *body prefix* (everything before the image data:
/// type, mime, description, dimensions, depth, colors, data-length) for `art`,
/// padding the description with spaces so the prefix length is a multiple of 3.
/// This makes `base64(prefix ++ image) == base64(prefix) ++ base64(image)`, so the
/// image's base64 is an independent substring that can be served incrementally.
/// The declared data-length field is the true image length (`art.data_len`).
pub fn picture_prefix(art: &ArtInput) -> (r: Result<Vec<u8>>)
    ensures
        match r {
            Ok(v) => prefix_fits(*art) && v@ == prefix_of(*art),
            Err(e) => e == FormatError::TooLarge && !prefix_fits(*art),
        },
{
    let mime = art.mime.as_str().as_bytes();
    let desc = art.description.as_str().as_bytes();
    let base: usize = 2 + mime.len() % 3 + desc.len() % 3;
    let pad: usize = (3 - base % 3) % 3;
    assert(pad == padding(mime@.len() as int, desc@.len() as int));
    let mut description: Vec<u8> = Vec::new();
    append(&mut description, desc);
    let spaces: Vec<u8> = vec![0x20u8; pad];
    append(&mut description, spaces.as_slice());
    assert(description@ =~= padded_description(*art));
    framing_with(art, description.as_slice())
}

/// The length of an image's comment: key, base64 of the prefix, base64 of the image.
pub open spec fn art_value_len(art: ArtInput) -> int {
    23 + b64_size(prefix_of(art).len() as int) + b64_size(art.data_len as int)
}

/// An image fits a comment, or is not written.
pub open spec fn art_comment_fits(art: ArtInput) -> bool {
    art.data_len > 0 ==> prefix_fits(art) && art_value_len(art) <= u32::MAX
}

/// What stands in front of an image's base64 text in its comment.
pub open spec fn art_comment_head(art: ArtInput) -> Seq<u8> {
    le32_bytes(art_value_len(art)) + METADATA_BLOCK_PICTURE_KEY@ + b64_text(prefix_of(art))
}

/// Chunks and pending bytes of a comment packet, after its images: each image's comment
/// closes the bytes before it and is followed by an art run.
pub open spec fn after_arts(head: Seq<u8>, arts: Seq<ArtInput>) -> (Seq<ChunkModel>, Seq<u8>)
    decreases arts.len(),
{
    if arts.len() == 0 {
        (Seq::empty(), head)
    } else {
        let (done, pending) = after_arts(head, arts.drop_last());
        let a = arts.last();
        if a.data_len == 0 {
            (done, pending)
        } else {
            (
                done.push(ChunkModel::Bytes(pending + art_comment_head(a))).push(
                    ChunkModel::Art { art_id: a.art_id, base64: true, art_total: a.data_len },
                ),
                Seq::empty(),
            )
        }
    }
}

/// The comment body of `tags`, with a count that makes room for `more` comments.
pub open spec fn open_comment_body(tags: Seq<TagInput>, more: int) -> Seq<u8> {
    le32_bytes(utf8(VENDOR@).len() as int) + utf8(VENDOR@) + le32_bytes(valid_count(tags) + more)
        + comment_list(tags)
}

/// The chunks of a comment packet.
pub open spec fn comment_chunks(
    magic: Seq<u8>,
    tags: Seq<TagInput>,
    arts: Seq<ArtInput>,
    framing_bit: bool,
) -> Seq<ChunkModel> {
    let head = magic + open_comment_body(tags, written_arts(arts).len() as int);
    let (done, pending) = after_arts(head, arts);
    let last = if framing_bit {
        pending.push(0x01u8)
    } else {
        pending
    };
    if last.len() == 0 {
        done
    } else {
        done.push(ChunkModel::Bytes(last))
    }
}

/// All lengths and counts of a comment packet fit their fields.
pub open spec fn comment_packet_fits(tags: Seq<TagInput>, arts: Seq<ArtInput>) -> bool {
    &&& body_fits(tags)
    &&& valid_count(tags) + written_arts(arts).len() <= u32::MAX
    &&& forall|i: int| 0 <= i < arts.len() ==> art_comment_fits(#[trigger] arts[i])
}

proof fn written_arts_prefix(arts: Seq<ArtInput>, n: int)
    requires
        0 <= n <= arts.len(),
    ensures
        written_arts(arts.take(n)).len() <= written_arts(arts).len() <= arts.len(),
    decreases arts.len(),
{
    if n == arts.len() {
        assert(arts.take(n) =~= arts);
        if n > 0 {
            written_arts_prefix(arts.drop_last(), n - 1);
        }
    } else {
        written_arts_prefix(arts.drop_last(), n);
        assert(arts.drop_last().take(n) =~= arts.take(n));
    }
}

/// How many of the images are written.
fn count_written(arts: &[OggArt<'_>]) -> (r: usize)
    ensures
        r == written_arts(metas(arts@)).len(),
{
    let ghost all = metas(arts@);
    let mut n: usize = 0;
    let mut i: usize = 0;
    while i < arts.len()
        invariant
            i <= arts@.len(),
            n <= i,
            all == metas(arts@),
            n == written_arts(all.take(i as int)).len(),
        decreases arts@.len() - i,
    {
        assert(all.take(i + 1).drop_last() =~= all.take(i as int));
        if arts[i].meta.data_len > 0 {
            n = n + 1;
        }
        i = i + 1;
    }
    assert(all.take(i as int) =~= all);
    n
}

/// Append a chunk.
fn push_chunk(out: &mut Vec<PayloadChunk>, c: PayloadChunk)
    ensures
        chunk_models(final(out)@) == chunk_models(old(out)@).push(chunk_model(c)),
{
    let ghost m = chunk_model(c);
    out.push(c);
    assert(chunk_models(out@) =~= chunk_models(old(out)@).push(m));
}

/// The length of an image's comment, or `None` where it is beyond its 32-bit field.
fn comment_value_len(art: &ArtInput, prefix_len: usize) -> (r: Option<u32>)
    requires
        prefix_len == prefix_of(*art).len(),
    ensures
        match r {
            Some(n) => n == art_value_len(*art),
            None => art_value_len(*art) > u32::MAX,
        },
{
    let p: u64 = match b64_len_checked(prefix_len as u64) {
        Some(n) => n,
        None => {
            return None;
        },
    };
    let d: u64 = match b64_len_checked(art.data_len) {
        Some(n) => n,
        None => {
            return None;
        },
    };
    let parts: [u64; 3] = [23, p, d];
    proof {
        let s = parts@;
        assert(s.drop_last().drop_last().drop_last() =~= Seq::<u64>::empty());
        reveal_with_fuel(crate::size::sum, 4);
        assert(crate::size::sum(s) == 23 + p + d);
    }
    match crate::size::checked_sum(parts.as_slice()) {
        Ok(n) => if n > 0xffff_ffff {
            None
        } else {
            Some(n as u32)
        },
        Err(_) => None,
    }
}

/// What stands in front of an image's base64 text in its comment.
fn build_art_head(art: &ArtInput) -> (r: Result<Vec<u8>>)
    requires
        art.data_len > 0,
    ensures
        match r {
            Ok(v) => art_comment_fits(*art) && v@ == art_comment_head(*art),
            Err(e) => e == FormatError::TooLarge && !art_comment_fits(*art),
        },
{
    let prefix = match picture_prefix(art) {
        Ok(p) => p,
        Err(e) => {
            return Err(e);
        },
    };
    let value_len: u32 = match comment_value_len(art, prefix.len()) {
        Some(n) => n,
        None => {
            return Err(FormatError::TooLarge);
        },
    };
    let mut head: Vec<u8> = Vec::new();
    push_u32_le(&mut head, value_len);
    append(&mut head, METADATA_BLOCK_PICTURE_KEY.as_slice());
    let max: usize = usize::MAX;
    assert(value_len <= max);
    let b64_prefix = base64_encode(prefix.as_slice());
    append(&mut head, b64_prefix.as_slice());
    assert(head@ =~= art_comment_head(*art));
    Ok(head)
}

/// Build a VorbisComment-style comment packet (Opus `OpusTags` / Vorbis
/// `0x03vorbis`) as chunks: a leading `Bytes` chunk (magic + vendor + count + text
/// comments + each art comment's framing and base64(prefix)), an `Art` chunk per
/// image (base64 of the image), and, for Vorbis, a trailing framing-bit `Bytes`
/// chunk.
fn comment_packet_chunks(
    magic: &[u8],
    tags: &[TagInput],
    arts: &[OggArt<'_>],
    framing_bit: bool,
) -> (r: Result<Vec<PayloadChunk>>)
    ensures
        match r {
            Ok(v) => comment_packet_fits(tags@, metas(arts@)) && chunk_models(v@)
                == comment_chunks(magic@, tags@, metas(arts@), framing_bit),
            Err(e) => e == FormatError::TooLarge && !comment_packet_fits(tags@, metas(arts@)),
        },
{
    let ghost all = metas(arts@);
    let text_body = match crate::vorbiscomment::build(tags) {
        Ok(b) => b,
        Err(e) => {
            return Err(e);
        },
    };
    proof {
        crate::vorbiscomment::vendor_length();
    }
    let vendor_len: usize = VENDOR.as_bytes().len();
    let count_pos: usize = 4 + vendor_len;
    let text_count: usize = crate::vorbiscomment::count_valid(tags);
    let art_count: usize = count_written(arts);
    let max: usize = 0xffff_ffff;
    if art_count > max || text_count > max - art_count {
        return Err(FormatError::TooLarge);
    }
    let mut leading = text_body;
    put_u32_le(&mut leading, count_pos, (text_count + art_count) as u32);
    proof {
        assert(leading@ =~= open_comment_body(tags@, art_count as int));
    }
    let mut chunks: Vec<PayloadChunk> = Vec::new();
    let mut head: Vec<u8> = Vec::new();
    append(&mut head, magic);
    append(&mut head, leading.as_slice());
    let ghost start = magic@ + open_comment_body(tags@, art_count as int);
    assert(head@ =~= start);
    assert(chunk_models(chunks@) =~= Seq::empty());
    let mut i: usize = 0;
    while i < arts.len()
        invariant
            i <= arts@.len(),
            all == metas(arts@),
            after_arts(start, all.take(i as int)) == (chunk_models(chunks@), head@),
            forall|k: int| 0 <= k < i ==> art_comment_fits(#[trigger] all[k]),
        decreases arts@.len() - i,
    {
        assert(all.take(i + 1).drop_last() =~= all.take(i as int));
        assert(all[i as int] == *arts@[i as int].meta);
        let art = arts[i].meta;
        if art.data_len > 0 {
            let art_head = match build_art_head(art) {
                Ok(h) => h,
                Err(e) => {
                    assert(!art_comment_fits(all[i as int]));
                    return Err(e);
                },
            };
            append(&mut head, art_head.as_slice());
            push_chunk(&mut chunks, PayloadChunk::Bytes(head));
            push_chunk(
                &mut chunks,
                PayloadChunk::Art { art_id: art.art_id, base64: true, art_total: art.data_len },
            );
            head = Vec::new();
            assert(head@ =~= Seq::<u8>::empty());
        }
        i = i + 1;
    }
    assert(all.take(i as int) =~= all);
    if framing_bit {
        head.push(0x01);
    }
    if head.len() > 0 {
        push_chunk(&mut chunks, PayloadChunk::Bytes(head));
    }
    Ok(chunks)
}

/// Packets as mathematical values: each a list of chunks.
pub open spec fn packets_view(s: Seq<Vec<PayloadChunk>>) -> Seq<Seq<ChunkModel>> {
    Seq::new(s.len(), |i: int| chunk_models(s[i]@))
}

/// A packet of literal bytes.
pub open spec fn literal(b: Seq<u8>) -> Seq<ChunkModel> {
    seq![ChunkModel::Bytes(b)]
}

/// A block packet with its last-block flag set or cleared.
pub open spec fn flagged(b: Seq<u8>, last: bool) -> Seq<u8> {
    b.update(0, (b[0] % 0x80 + if last { 0x80int } else { 0 }) as u8)
}

/// The FLAC blocks that are carried over: APPLICATION, SEEKTABLE, CUESHEET.
pub open spec fn is_carried_block(p: Seq<u8>) -> bool {
    is_block_of_type(p, 2) || is_block_of_type(p, 3) || is_block_of_type(p, 5)
}

/// The packets carried over, as literal packets with a clear last-block flag: a comment
/// block always follows them.
pub open spec fn carried(packets: Seq<Seq<u8>>) -> Seq<Seq<ChunkModel>>
    decreases packets.len(),
{
    if packets.len() == 0 {
        Seq::empty()
    } else if is_carried_block(packets.last()) {
        carried(packets.drop_last()).push(literal(flagged(packets.last(), false)))
    } else {
        carried(packets.drop_last())
    }
}

/// The packets of the images, each a PICTURE block; `last` flags the final one.
pub open spec fn art_packets(arts: Seq<ArtInput>, last: bool) -> Seq<Seq<ChunkModel>>
    decreases arts.len(),
{
    if arts.len() == 0 {
        Seq::empty()
    } else {
        let a = arts.last();
        if a.data_len == 0 {
            art_packets(arts.drop_last(), last)
        } else {
            art_packets(arts.drop_last(), false).push(
                seq![
                    ChunkModel::Bytes(
                        block_header(6, prefix_of(a).len() + a.data_len, last) + prefix_of(a),
                    ),
                    ChunkModel::Art { art_id: a.art_id, base64: false, art_total: a.data_len },
                ],
            )
        }
    }
}

/// The mapping packet with the count of following packets, and STREAMINFO not flagged
/// last.
pub open spec fn new_mapping(m: Seq<u8>, count: int) -> Seq<u8> {
    let counted = m.take(7) + be16_bytes(count) + m.skip(9);
    if counted.len() > OGGFLAC_STREAMINFO_POS {
        counted.update(
            OGGFLAC_STREAMINFO_POS as int,
            (counted[OGGFLAC_STREAMINFO_POS as int] % 0x80) as u8,
        )
    } else {
        counted
    }
}

/// An image fits a FLAC block, or is not written.
pub open spec fn art_block_fits(art: ArtInput) -> bool {
    art.data_len > 0 ==> prefix_fits(art) && prefix_of(art).len() + art.data_len
        <= MAX_BLOCK_BODY
}

/// How many block packets follow the mapping packet.
pub open spec fn following_count(packets: Seq<Seq<u8>>, arts: Seq<ArtInput>) -> int {
    (carried(packets.skip(1)).len() + 1 + written_arts(arts).len()) as int
}

/// All blocks fit, and so does their count.
pub open spec fn oggflac_fits(
    packets: Seq<Seq<u8>>,
    tags: Seq<TagInput>,
    arts: Seq<ArtInput>,
) -> bool {
    &&& body_fits(tags)
    &&& crate::vorbiscomment::comment_body(tags).len() <= MAX_BLOCK_BODY
    &&& following_count(packets, arts) <= u16::MAX
    &&& forall|i: int| 0 <= i < arts.len() ==> art_block_fits(#[trigger] arts[i])
}

/// The header packets of an OggFLAC stream.
pub open spec fn oggflac_packets(
    packets: Seq<Seq<u8>>,
    tags: Seq<TagInput>,
    arts: Seq<ArtInput>,
) -> Seq<Seq<ChunkModel>> {
    let vc = crate::vorbiscomment::comment_body(tags);
    let comment = block_header(4, vc.len() as int, written_arts(arts).len() == 0) + vc;
    seq![literal(new_mapping(packets[0], following_count(packets, arts)))] + carried(
        packets.skip(1),
    ) + seq![literal(comment)] + art_packets(arts, true)
}

/// Append a packet.
fn push_chunks(out: &mut Vec<Vec<PayloadChunk>>, p: Vec<PayloadChunk>)
    ensures
        packets_view(final(out)@) == packets_view(old(out)@).push(chunk_models(p@)),
{
    let ghost m = chunk_models(p@);
    out.push(p);
    assert(packets_view(out@) =~= packets_view(old(out)@).push(m));
}

/// A packet of literal bytes.
fn literal_packet(b: Vec<u8>) -> (r: Vec<PayloadChunk>)
    ensures
        chunk_models(r@) == literal(b@),
{
    let mut v: Vec<PayloadChunk> = Vec::new();
    let ghost bytes = b@;
    v.push(PayloadChunk::Bytes(b));
    assert(chunk_models(v@) =~= literal(bytes));
    v
}

/// A copy of a byte string.
fn copy_of(b: &Vec<u8>) -> (r: Vec<u8>)
    ensures
        r@ == b@,
{
    let c = copy_range(b.as_slice(), 0, b.len());
    assert(c@ =~= b@);
    c
}

/// Append the blocks carried over.
fn push_carried(out: &mut Vec<Vec<PayloadChunk>>, packets: &Vec<Vec<u8>>)
    requires
        packets@.len() >= 1,
    ensures
        packets_view(final(out)@) == packets_view(old(out)@) + carried(
            byte_strings(packets@).skip(1),
        ),
{
    let ghost all = byte_strings(packets@).skip(1);
    let ghost start = packets_view(out@);
    let mut i: usize = 1;
    assert(packets_view(out@) =~= start + carried(all.take(0)));
    while i < packets.len()
        invariant
            1 <= i <= packets@.len(),
            all == byte_strings(packets@).skip(1),
            packets_view(out@) == start + carried(all.take(i - 1)),
        decreases packets@.len() - i,
    {
        let p = &packets[i];
        proof {
            assert(all.take(i as int).drop_last() =~= all.take(i - 1));
            assert(all.take(i as int).last() == p@);
        }
        if p.len() > 0 && (p[0] % 0x80 == 2 || p[0] % 0x80 == 3 || p[0] % 0x80 == 5) {
            let mut b = copy_of(p);
            let first: u8 = b[0] % 0x80;
            b[0] = first;
            assert(b@ =~= flagged(p@, false));
            push_chunks(out, literal_packet(b));
            assert(packets_view(out@) =~= start + carried(all.take(i as int)));
        }
        i = i + 1;
    }
    assert(all.take(i - 1) =~= all);
}

/// How many blocks are carried over.
fn count_carried(packets: &Vec<Vec<u8>>) -> (r: usize)
    requires
        packets@.len() >= 1,
    ensures
        r == carried(byte_strings(packets@).skip(1)).len(),
        r < packets@.len(),
{
    let ghost all = byte_strings(packets@).skip(1);
    let mut n: usize = 0;
    let mut i: usize = 1;
    assert(carried(all.take(0)).len() == 0);
    while i < packets.len()
        invariant
            1 <= i <= packets@.len(),
            all == byte_strings(packets@).skip(1),
            n < i,
            n == carried(all.take(i - 1)).len(),
        decreases packets@.len() - i,
    {
        let p = &packets[i];
        proof {
            assert(all.take(i as int).drop_last() =~= all.take(i - 1));
            assert(all.take(i as int).last() == p@);
        }
        if p.len() > 0 && (p[0] % 0x80 == 2 || p[0] % 0x80 == 3 || p[0] % 0x80 == 5) {
            n = n + 1;
        }
        i = i + 1;
    }
    assert(all.take(i - 1) =~= all);
    n
}

/// Append the packets of the images.
#[verifier::spinoff_prover]
#[verifier::rlimit(60)]
fn push_art_packets(out: &mut Vec<Vec<PayloadChunk>>, arts: &[OggArt<'_>]) -> (r: Result<()>)
    ensures
        match r {
            Ok(_) => packets_view(final(out)@) == packets_view(old(out)@) + art_packets(
                metas(arts@),
                true,
            ) && forall|i: int|
                0 <= i < arts@.len() ==> art_block_fits(#[trigger] metas(arts@)[i]),
            Err(e) => e == FormatError::TooLarge && exists|i: int|
                0 <= i < arts@.len() && !art_block_fits(#[trigger] metas(arts@)[i]),
        },
{
    let ghost all = metas(arts@);
    let ghost start = packets_view(out@);
    let total: usize = count_written(arts);
    let mut seen: usize = 0;
    let mut i: usize = 0;
    assert(packets_view(out@) =~= start + art_packets(all.take(0), seen == total));
    while i < arts.len()
        invariant
            i <= arts@.len(),
            all == metas(arts@),
            total == written_arts(all).len(),
            seen == written_arts(all.take(i as int)).len(),
            packets_view(out@) == start + art_packets(all.take(i as int), seen == total),
            forall|k: int| 0 <= k < i ==> art_block_fits(#[trigger] all[k]),
        decreases arts@.len() - i,
    {
        proof {
            assert(all.take(i + 1).drop_last() =~= all.take(i as int));
            written_arts_prefix(all, i as int);
            written_arts_prefix(all, i + 1);
            assert(all[i as int] == *arts@[i as int].meta);
        }
        let art = arts[i].meta;
        if art.data_len > 0 {
            let prefix = match picture_prefix(art) {
                Ok(p) => p,
                Err(e) => {
                    assert(!art_block_fits(all[i as int]));
                    return Err(e);
                },
            };
            let body_len: u64 = match crate::size::checked_add(prefix.len() as u64, art.data_len) {
                Ok(n) => n,
                Err(e) => {
                    assert(!art_block_fits(all[i as int]));
                    return Err(e);
                },
            };
            if body_len > MAX_BLOCK_BODY {
                assert(!art_block_fits(all[i as int]));
                return Err(FormatError::TooLarge);
            }
            let last: bool = seen + 1 == total;
            let mut blk: Vec<u8> = Vec::new();
            match push_block_header(&mut blk, 6, body_len as usize, last) {
                Ok(_) => {},
                Err(e) => {
                    return Err(e);
                },
            }
            append(&mut blk, prefix.as_slice());
            let ghost bytes = blk@;
            assert(bytes =~= block_header(6, body_len as int, last) + prefix@);
            let mut packet: Vec<PayloadChunk> = Vec::new();
            packet.push(PayloadChunk::Bytes(blk));
            packet.push(
                PayloadChunk::Art { art_id: art.art_id, base64: false, art_total: art.data_len },
            );
            assert(chunk_models(packet@) =~= seq![
                ChunkModel::Bytes(bytes),
                ChunkModel::Art { art_id: art.art_id, base64: false, art_total: art.data_len },
            ]);
            push_chunks(out, packet);
            seen = seen + 1;
            assert(packets_view(out@) =~= start + art_packets(all.take(i + 1), seen == total));
        }
        i = i + 1;
    }
    assert(all.take(i as int) =~= all);
    Ok(())
}

/// The mapping packet with `count` packets behind it, its STREAMINFO not the last block.
fn recounted(first: &Vec<u8>, count: usize) -> (r: Vec<u8>)
    requires
        first@.len() >= 9,
        count <= 0xffff,
    ensures
        r@ == new_mapping(first@, count as int),
{
    let mut mapping = copy_of(first);
    mapping[7] = (count / 0x100) as u8;
    mapping[8] = (count % 0x100) as u8;
    if mapping.len() > OGGFLAC_STREAMINFO_POS {
        let b: u8 = mapping[OGGFLAC_STREAMINFO_POS] % 0x80;
        mapping[OGGFLAC_STREAMINFO_POS] = b;
    }
    assert(mapping@ =~= new_mapping(first@, count as int));
    mapping
}

/// OggFLAC header packets with art: the text comment packet (no art) plus one
/// native PICTURE block packet per image. The last metadata-block packet carries
/// the last-block flag, and packet 0's 16-bit following-packet count is recomputed.
/// Metadata blocks always follow the mapping packet (the regenerated comment block at
/// minimum), so STREAMINFO is never the last one.
#[verifier::spinoff_prover]
#[verifier::rlimit(60)]
pub fn oggflac_packets_with_art(
    header: &OggHeader,
    tags: &[TagInput],
    arts: &[OggArt<'_>],
) -> (r: Result<Vec<Vec<PayloadChunk>>>)
    ensures
        ({
            let packets = byte_strings(header.packets@);
            match r {
                Ok(v) => packets.len() > 0 && oggflac_fits(packets, tags@, metas(arts@))
                    && packets[0].len() >= 9 && packets_view(v@) == oggflac_packets(
                    packets,
                    tags@,
                    metas(arts@),
                ),
                Err(FormatError::TooLarge) => packets.len() > 0 && !oggflac_fits(
                    packets,
                    tags@,
                    metas(arts@),
                ),
                Err(FormatError::Malformed) => packets.len() == 0 || (oggflac_fits(
                    packets,
                    tags@,
                    metas(arts@),
                ) && packets[0].len() < 9),
                Err(_) => false,
            }
        }),
{
    let ghost packets = byte_strings(header.packets@);
    let ghost all = metas(arts@);
    if header.packets.len() == 0 {
        return Err(FormatError::Malformed);
    }
    let vc = match crate::vorbiscomment::build(tags) {
        Ok(v) => v,
        Err(e) => {
            return Err(e);
        },
    };
    let art_count: usize = count_written(arts);
    let mut comment: Vec<u8> = Vec::new();
    match push_block_header(&mut comment, 4, vc.len(), art_count == 0) {
        Ok(_) => {},
        Err(e) => {
            return Err(e);
        },
    }
    append(&mut comment, vc.as_slice());
    let ghost comment_bytes = comment@;
    assert(comment@ =~= block_header(4, vc@.len() as int, art_count == 0) + vc@);
    let carried_count: usize = count_carried(&header.packets);
    if carried_count > 65_534 || art_count > 65_534 - carried_count {
        return Err(FormatError::TooLarge);
    }
    let count: usize = carried_count + 1 + art_count;
    let mut blocks: Vec<Vec<PayloadChunk>> = Vec::new();
    // The mapping packet is put in front once everything else is known to fit.
    push_carried(&mut blocks, &header.packets);
    push_chunks(&mut blocks, literal_packet(comment));
    match push_art_packets(&mut blocks, arts) {
        Ok(_) => {
            assert forall|i: int| 0 <= i < all.len() implies art_block_fits(
                #[trigger] all[i],
            ) by {}
        },
        Err(e) => {
            return Err(e);
        },
    }
    assert(oggflac_fits(packets, tags@, all));
    if header.packets[0].len() < 9 {
        return Err(FormatError::Malformed);
    }
    let mapping = recounted(&header.packets[0], count);
    let mut out: Vec<Vec<PayloadChunk>> = Vec::new();
    let ghost tail = packets_view(blocks@);
    push_chunks(&mut out, literal_packet(mapping));
    let ghost head = packets_view(out@);
    out.append(&mut blocks);
    proof {
        assert(packets_view(out@) =~= head + tail);
        assert(packets_view(out@) =~= oggflac_packets(packets, tags@, all));
    }
    Ok(out)
}

/// The header packets to synthesize.
pub open spec fn header_packets(
    codec: Codec,
    packets: Seq<Seq<u8>>,
    tags: Seq<TagInput>,
    arts: Seq<ArtInput>,
) -> Seq<Seq<ChunkModel>> {
    match codec {
        Codec::Opus => seq![
            literal(packets[0]),
            comment_chunks(OPUS_TAGS@, tags, arts, false),
        ],
        Codec::Vorbis => seq![
            literal(packets[0]),
            comment_chunks(VORBIS_COMMENT@, tags, arts, true),
            literal(packets[2]),
        ],
        Codec::OggFlac => oggflac_packets(packets, tags, arts),
    }
}

/// The header has the packets that are carried over as they are.
pub open spec fn header_usable(header: OggHeader) -> bool {
    match header.codec {
        Codec::Opus => header.packets@.len() >= 1,
        Codec::Vorbis => header.packets@.len() >= 3,
        Codec::OggFlac => true,
    }
}

/// Why the header packets cannot be built, if they cannot.
pub open spec fn packets_error(
    codec: Codec,
    packets: Seq<Seq<u8>>,
    tags: Seq<TagInput>,
    arts: Seq<ArtInput>,
) -> Option<FormatError> {
    match codec {
        Codec::OggFlac => if packets.len() == 0 {
            Some(FormatError::Malformed)
        } else if !oggflac_fits(packets, tags, arts) {
            Some(FormatError::TooLarge)
        } else if packets[0].len() < 9 {
            Some(FormatError::Malformed)
        } else {
            None
        },
        _ => if comment_packet_fits(tags, arts) {
            None
        } else {
            Some(FormatError::TooLarge)
        },
    }
}

/// Build the regenerated header packets as chunk lists, embedding `arts`.
/// Opus/Vorbis: art goes into the comment packet as `METADATA_BLOCK_PICTURE`
/// comments (last). OggFLAC: each art is a native PICTURE block packet.
pub fn build_packets_with_art(
    header: &OggHeader,
    tags: &[TagInput],
    arts: &[OggArt<'_>],
) -> (r: Result<Vec<Vec<PayloadChunk>>>)
    requires
        header_usable(*header),
    ensures
        ({
            let packets = byte_strings(header.packets@);
            match r {
                Ok(v) => packets_error(header.codec, packets, tags@, metas(arts@)) is None
                    && packets_view(v@) == header_packets(
                    header.codec,
                    packets,
                    tags@,
                    metas(arts@),
                ),
                Err(e) => packets_error(header.codec, packets, tags@, metas(arts@)) == Some(e),
            }
        }),
{
    match header.codec {
        Codec::OggFlac => oggflac_packets_with_art(header, tags, arts),
        Codec::Opus => {
            let comment = match comment_packet_chunks(OPUS_TAGS.as_slice(), tags, arts, false) {
                Ok(c) => c,
                Err(e) => {
                    return Err(e);
                },
            };
            let mut out: Vec<Vec<PayloadChunk>> = Vec::new();
            push_chunks(&mut out, literal_packet(copy_of(&header.packets[0])));
            push_chunks(&mut out, comment);
            assert(packets_view(out@) =~= header_packets(
                header.codec,
                byte_strings(header.packets@),
                tags@,
                metas(arts@),
            ));
            Ok(out)
        },
        Codec::Vorbis => {
            let comment = match comment_packet_chunks(VORBIS_COMMENT.as_slice(), tags, arts, true) {
                Ok(c) => c,
                Err(e) => {
                    return Err(e);
                },
            };
            let mut out: Vec<Vec<PayloadChunk>> = Vec::new();
            push_chunks(&mut out, literal_packet(copy_of(&header.packets[0])));
            push_chunks(&mut out, comment);
            push_chunks(&mut out, literal_packet(copy_of(&header.packets[2])));
            assert(packets_view(out@) =~= header_packets(
                header.codec,
                byte_strings(header.packets@),
                tags@,
                metas(arts@),
            ));
            Ok(out)
        },
    }
}

/// The pages that a list of packets takes.
pub open spec fn pages_of_packets(packets: Seq<Seq<ChunkModel>>) -> int
    decreases packets.len(),
{
    if packets.len() == 0 {
        0
    } else {
        pages_of_packets(packets.drop_last()) + page_count(chunks_len(packets.last()))
    }
}

/// Every packet's length fits, and so do all sequence numbers.
pub open spec fn packets_lace(packets: Seq<Seq<ChunkModel>>) -> bool
    decreases packets.len(),
{
    packets.len() == 0 || (packets_lace(packets.drop_last()) && lacing_fits(
        pages_of_packets(packets.drop_last()) as u32,
        packets.last(),
    ))
}

/// Every image of every packet is stored in full.
pub open spec fn packets_available<S: ArtSource>(src: &S, packets: Seq<Seq<ChunkModel>>) -> bool {
    forall|i: int| 0 <= i < packets.len() ==> arts_available(src, #[trigger] packets[i])
}

/// The first failure of lacing packets one after the other: a packet that does not fit, or
/// an image that is missing.
pub open spec fn first_failure<S: ArtSource>(src: &S, packets: Seq<Seq<ChunkModel>>) -> Option<
    FormatError,
>
    decreases packets.len(),
{
    if packets.len() == 0 {
        None
    } else {
        match first_failure(src, packets.drop_last()) {
            Some(e) => Some(e),
            None => if !lacing_fits(
                pages_of_packets(packets.drop_last()) as u32,
                packets.last(),
            ) {
                Some(FormatError::TooLarge)
            } else {
                match first_missing(src, packets.last()) {
                    Some(art_id) => Some(FormatError::ArtRead { art_id }),
                    None => None,
                }
            },
        }
    }
}

/// A failure among the first packets is the first failure.
proof fn failure_by_prefix<S: ArtSource>(src: &S, packets: Seq<Seq<ChunkModel>>, n: int)
    requires
        0 <= n <= packets.len(),
    ensures
        first_failure(src, packets.take(n)) is Some ==> first_failure(src, packets)
            == first_failure(src, packets.take(n)),
    decreases packets.len(),
{
    if n == packets.len() {
        assert(packets.take(n) =~= packets);
    } else {
        failure_by_prefix(src, packets.drop_last(), n);
        assert(packets.drop_last().take(n) =~= packets.take(n));
    }
}

/// The segments of a list of packets, laced one after the other: numbered from 0, BOS on
/// the first page.
pub open spec fn packet_segments(
    images: spec_fn(i64) -> Seq<u8>,
    serial: u32,
    packets: Seq<Seq<ChunkModel>>,
) -> Seq<SegView>
    decreases packets.len(),
{
    if packets.len() == 0 {
        Seq::empty()
    } else {
        let p = packets.last();
        packet_segments(images, serial, packets.drop_last()) + segments_of(
            serial,
            pages_of_packets(packets.drop_last()) as u32,
            packets.len() == 1,
            true,
            lacing(chunks_len(p)),
            p,
            0,
            payload_bytes(images, p),
        )
    }
}

/// The bytes of a list of packets.
pub open spec fn packet_payloads(
    images: spec_fn(i64) -> Seq<u8>,
    packets: Seq<Seq<ChunkModel>>,
) -> Seq<Seq<u8>> {
    Seq::new(packets.len(), |i: int| payload_bytes(images, packets[i]))
}

/// The segments of a synthesized Ogg file.
pub open spec fn ogg_segments(
    images: spec_fn(i64) -> Seq<u8>,
    serial: u32,
    header_pages: int,
    packets: Seq<Seq<ChunkModel>>,
    audio_offset: int,
    audio_length: int,
) -> Seq<SegView> {
    packet_segments(images, serial, packets).push(
        SegView::OggAudio {
            offset: audio_offset,
            len: audio_length,
            seq_delta: pages_of_packets(packets) - header_pages,
            serial,
        },
    )
}

/// Build the ordered segment layout for a synthesized Ogg file: regenerated header packets
/// laced onto fresh pages, then the original audio pages, renumbered by as much as the
/// header's page count changes. Served with the art of `src`, the header region is the
/// pages of those packets.
pub fn synthesize_layout<S: ArtSource>(
    header: &OggHeader,
    audio_offset: u64,
    audio_length: u64,
    tags: &[TagInput],
    arts: &[OggArt<'_>],
    src: &S,
) -> (r: Result<RegionLayout>)
    requires
        header_usable(*header),
    ensures
        ({
            let images = images_of(src);
            let bytes = byte_strings(header.packets@);
            let error = packets_error(header.codec, bytes, tags@, metas(arts@));
            let packets = header_packets(header.codec, bytes, tags@, metas(arts@));
            let segs = ogg_segments(
                images,
                header.serial,
                header.header_pages as int,
                packets,
                audio_offset as int,
                audio_length as int,
            );
            &&& error is Some ==> r == Err::<RegionLayout, FormatError>(error->0)
            &&& match r {
                Ok(l) => {
                    &&& error is None
                    &&& packets_lace(packets)
                    &&& packets_available(src, packets)
                    &&& layout_fault(segs) is None
                    &&& l.views() == segs
                    &&& served(images, segs.drop_last()) == headers_laced(
                        header.serial,
                        packet_payloads(images, packets),
                    )
                },
                Err(e) => error is Some || !packets_lace(packets) || layout_fault(segs) is Some
                    || !(src.is_reliable() && packets_available(src, packets)),
            }
            &&& error is None && written_arts(metas(arts@)).len() == 0 && packets_lace(packets)
                && layout_fault(segs) is None ==> r is Ok
            &&& error is None && (src.is_reliable() || written_arts(metas(arts@)).len() == 0)
                ==> match first_failure(src, packets) {
                Some(e) => r == Err::<RegionLayout, FormatError>(e),
                None => match layout_fault(segs) {
                    Some(e) => r == Err::<RegionLayout, FormatError>(
                        FormatError::InvalidLayout(e),
                    ),
                    None => r is Ok,
                },
            }
        }),
{
    let ghost images = images_of(src);
    let packet_chunks = match build_packets_with_art(header, tags, arts) {
        Ok(p) => p,
        Err(e) => {
            return Err(e);
        },
    };
    let ghost packets = packets_view(packet_chunks@);
    let ghost payloads = packet_payloads(images, packets);
    let mut segments: Vec<Segment> = Vec::new();
    let mut seq: u32 = 0;
    let mut i: usize = 0;
    assert(seg_views(segments@) =~= Seq::empty());
    assert(payloads.take(0) =~= Seq::empty());
    while i < packet_chunks.len()
        invariant
            i <= packet_chunks@.len(),
            images == images_of(src),
            packets == packets_view(packet_chunks@),
            payloads == packet_payloads(images, packets),
            packets == header_packets(
                header.codec,
                byte_strings(header.packets@),
                tags@,
                metas(arts@),
            ),
            packets_error(header.codec, byte_strings(header.packets@), tags@, metas(arts@)) is None,
            seq == pages_of_packets(packets.take(i as int)),
            seq == total_page_count(payloads.take(i as int)),
            packets_lace(packets.take(i as int)),
            forall|k: int| 0 <= k < i ==> arts_available(src, #[trigger] packets[k]),
            first_failure(src, packets.take(i as int)) is None,
            seg_views(segments@) == packet_segments(
                images,
                header.serial,
                packets.take(i as int),
            ),
            served(images, seg_views(segments@)) == headers_laced(
                header.serial,
                payloads.take(i as int),
            ),
        decreases packet_chunks@.len() - i,
    {
        let ghost p = packets[i as int];
        proof {
            assert(packets.take(i + 1).drop_last() =~= packets.take(i as int));
            assert(packets.take(i + 1).last() == p);
            assert(payloads.take(i + 1).drop_last() =~= payloads.take(i as int));
            assert(payloads.take(i + 1).last() == payload_bytes(images, p));
            laces_by_prefix(packets, i + 1);
            failure_by_prefix(src, packets, i + 1);
            none_missing(src, p);
            if written_arts(metas(arts@)).len() == 0 {
                packets_without_art(
                    header.codec,
                    byte_strings(header.packets@),
                    tags@,
                    metas(arts@),
                );
                assert(no_art(p));
            }
        }
        match lace_chunks_to_segments(
            header.serial,
            seq,
            i == 0,
            packet_chunks[i].as_slice(),
            src,
        ) {
            Ok((segs, used)) => {
                let mut more = segs;
                proof {
                    seg_views_concat(segments@, more@);
                    super::chunks::served_concat(images, seg_views(segments@), seg_views(more@));
                }
                segments.append(&mut more);
                seq = seq + used;
            },
            Err(e) => {
                assert(arts_available(src, p) || !packets_available(src, packets));
                return Err(e);
            },
        }
        i = i + 1;
    }
    assert(packets.take(i as int) =~= packets);
    assert(payloads.take(i as int) =~= payloads);
    let seq_delta: i64 = seq as i64 - header.header_pages as i64;
    let ghost header_segs = seg_views(segments@);
    push_segment(
        &mut segments,
        Segment::OggAudio {
            offset: audio_offset,
            len: audio_length,
            seq_delta,
            serial: header.serial,
        },
    );
    assert(seg_views(segments@).drop_last() =~= header_segs);
    match RegionLayout::validated(segments) {
        Ok(l) => Ok(l),
        Err(e) => Err(FormatError::InvalidLayout(e)),
    }
}

/// Images none of which is written leave a comment as it is.
proof fn no_arts_after(head: Seq<u8>, arts: Seq<ArtInput>)
    requires
        written_arts(arts).len() == 0,
    ensures
        after_arts(head, arts) == (Seq::<ChunkModel>::empty(), head),
    decreases arts.len(),
{
    if arts.len() > 0 {
        assert(arts.last().data_len == 0);
        no_arts_after(head, arts.drop_last());
    }
}

/// Images none of which is written make no packet.
proof fn no_art_packets(arts: Seq<ArtInput>, last: bool)
    requires
        written_arts(arts).len() == 0,
    ensures
        art_packets(arts, last) == Seq::<Seq<ChunkModel>>::empty(),
    decreases arts.len(),
{
    if arts.len() > 0 {
        assert(arts.last().data_len == 0);
        no_art_packets(arts.drop_last(), last);
    }
}

/// Packets carried over hold no art.
proof fn carried_without_art(packets: Seq<Seq<u8>>)
    ensures
        forall|i: int| 0 <= i < carried(packets).len() ==> no_art(#[trigger] carried(packets)[i]),
    decreases packets.len(),
{
    if packets.len() > 0 {
        let f = carried(packets.drop_last());
        carried_without_art(packets.drop_last());
        let all = carried(packets);
        assert forall|i: int| 0 <= i < all.len() implies no_art(#[trigger] all[i]) by {
            if i < f.len() {
                assert(all[i] == f[i]);
            }
        }
    }
}

/// Where no image is written, no header packet holds art.
proof fn packets_without_art(
    codec: Codec,
    packets: Seq<Seq<u8>>,
    tags: Seq<TagInput>,
    arts: Seq<ArtInput>,
)
    requires
        written_arts(arts).len() == 0,
    ensures
        forall|i: int|
            0 <= i < header_packets(codec, packets, tags, arts).len() ==> no_art(
                #[trigger] header_packets(codec, packets, tags, arts)[i],
            ),
{
    let all = header_packets(codec, packets, tags, arts);
    match codec {
        Codec::OggFlac => {
            no_art_packets(arts, true);
            carried_without_art(packets.skip(1));
            let c = carried(packets.skip(1));
            let tail = art_packets(arts, true);
            assert(tail.len() == 0);
            assert forall|i: int| 0 <= i < all.len() implies no_art(#[trigger] all[i]) by {
                if 1 <= i <= c.len() {
                    assert(all[i] == c[i - 1]);
                }
            }
        },
        Codec::Opus => {
            let head = OPUS_TAGS@ + open_comment_body(tags, 0);
            no_arts_after(head, arts);
        },
        Codec::Vorbis => {
            let head = VORBIS_COMMENT@ + open_comment_body(tags, 0);
            no_arts_after(head, arts);
        },
    }
}

/// Packets that lace have prefixes that lace.
proof fn laces_by_prefix(packets: Seq<Seq<ChunkModel>>, n: int)
    requires
        0 <= n <= packets.len(),
    ensures
        packets_lace(packets) ==> packets_lace(packets.take(n)),
    decreases packets.len(),
{
    if n == packets.len() {
        assert(packets.take(n) =~= packets);
    } else {
        laces_by_prefix(packets.drop_last(), n);
        assert(packets.drop_last().take(n) =~= packets.take(n));
    }
}

} // verus!
