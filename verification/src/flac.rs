//! FLAC: reading the metadata blocks of a stream, and laying out a regenerated metadata
//! region in front of its audio.

use crate::bytes::append;
use crate::bytes::be24;
use crate::bytes::be24_bytes;
use crate::bytes::be32;
use crate::bytes::be32_bytes;
use crate::bytes::copy_range;
use crate::bytes::push_u32_be;
use crate::error::FormatError;
use crate::error::Result;
use crate::input::ArtInput;
use crate::input::BinaryTagInput;
use crate::input::BlobLen;
use crate::input::EmbeddedBinaryTag;
use crate::input::EmbeddedPicture;
use crate::input::PictureType;
use crate::input::TagInput;
use crate::layout::drafted;
use crate::layout::empty_draft;
use crate::layout::layout_fault;
use crate::layout::with_bytes;
use crate::layout::with_stream;
use crate::layout::Draft;
use crate::layout::DraftModel;
use crate::layout::RegionLayout;
use crate::layout::SegView;
use crate::layout::Segment;
use crate::probe::Extent;
use crate::text::same_text;
use crate::text::utf8;
use crate::text::lossy_text;
use crate::text::utf8_text_lossy;
use crate::vorbiscomment::body_fits;
use crate::vorbiscomment::body_pairs;
use crate::vorbiscomment::comment_body;
use crate::vorbiscomment::pair_views;
use vstd::prelude::*;
use vstd::string::*;

verus! {

/// `fLaC`.
pub const FLAC_MARKER: [u8; 4] = [0x66, 0x4c, 0x61, 0x43];

pub const BLOCK_STREAMINFO: u8 = 0;

pub const BLOCK_APPLICATION: u8 = 2;

pub const BLOCK_SEEKTABLE: u8 = 3;

pub const BLOCK_VORBIS_COMMENT: u8 = 4;

pub const BLOCK_CUESHEET: u8 = 5;

pub const BLOCK_PICTURE: u8 = 6;

/// Inclusive maximum body length of a FLAC metadata block (24-bit length field).
pub const MAX_BLOCK_BODY: u64 = 0x00FF_FFFF;

/// A preserved FLAC metadata block: its type and its body (excluding the 4-byte header).
#[derive(Debug, Clone, PartialEq, Eq)]
pub struct MetadataBlock {
    pub block_type: u8,
    pub body: Vec<u8>,
}

/// Result of scanning a FLAC file: where audio begins/ends and the structural blocks to preserve.
#[derive(Debug, Clone, PartialEq, Eq)]
pub struct FlacScan {
    pub audio_offset: u64,
    pub audio_length: u64,
    pub preserved: Vec<MetadataBlock>,
}

/// The metadata region of a FLAC file: where audio begins and the structural
/// blocks to carry over. Unlike `FlacScan`, this does not hold `audio_length`
/// (which requires the full file size), so it can be computed from the front alone.
#[derive(Debug, Clone, PartialEq, Eq)]
pub struct FlacMeta {
    pub audio_offset: u64,
    pub preserved: Vec<MetadataBlock>,
}

/// A metadata block as a mathematical value: type and body.
pub open spec fn block_view(b: MetadataBlock) -> (u8, Seq<u8>) {
    (b.block_type, b.body@)
}

/// Metadata blocks as mathematical values.
pub open spec fn block_views(s: Seq<MetadataBlock>) -> Seq<(u8, Seq<u8>)> {
    Seq::new(s.len(), |i: int| block_view(s[i]))
}

/// The stream starts with the marker.
pub open spec fn has_marker(d: Seq<u8>) -> bool {
    d.len() >= 4 && d[0] == 0x66 && d[1] == 0x4c && d[2] == 0x61 && d[3] == 0x43
}

/// The type of the block at `p`.
pub open spec fn block_type_at(d: Seq<u8>, p: int) -> u8 {
    (d[p] % 0x80) as u8
}

/// The block at `p` says that it is the last.
pub open spec fn block_is_last(d: Seq<u8>, p: int) -> bool {
    d[p] >= 0x80
}

/// Where the block at `p` ends.
pub open spec fn block_end(d: Seq<u8>, p: int) -> int {
    p + 4 + be24(d, p + 1)
}

/// The block at `p` is all there.
pub open spec fn block_whole(d: Seq<u8>, p: int) -> bool {
    p + 4 <= d.len() && block_end(d, p) <= d.len()
}

/// The body of the block at `p`.
pub open spec fn block_body(d: Seq<u8>, p: int) -> Seq<u8> {
    d.subrange(p + 4, block_end(d, p))
}

/// Where the metadata from the block at `p` on ends, just behind the last block; or,
/// where a block is not all there, how far the bytes would have to reach for the next
/// step.
pub open spec fn metadata_end(d: Seq<u8>, p: int) -> std::result::Result<int, int>
    decreases d.len() - p,
{
    if p + 4 > d.len() {
        Err(p + 4)
    } else if block_end(d, p) > d.len() {
        Err(block_end(d, p))
    } else if block_is_last(d, p) {
        Ok(block_end(d, p))
    } else {
        metadata_end(d, block_end(d, p))
    }
}

/// A block that is carried over as it is.
pub open spec fn is_preserved_type(t: u8) -> bool {
    t == BLOCK_STREAMINFO || t == BLOCK_APPLICATION || t == BLOCK_SEEKTABLE || t == BLOCK_CUESHEET
}

/// The blocks to carry over, from the block at `p` on.
pub open spec fn preserved_from(d: Seq<u8>, p: int) -> Seq<(u8, Seq<u8>)>
    decreases d.len() - p,
{
    if !block_whole(d, p) {
        Seq::empty()
    } else {
        let here = if is_preserved_type(block_type_at(d, p)) {
            seq![(block_type_at(d, p), block_body(d, p))]
        } else {
            Seq::empty()
        };
        if block_is_last(d, p) {
            here
        } else {
            here + preserved_from(d, block_end(d, p))
        }
    }
}

/// True when the stream starts with the marker.
fn starts_with_marker(data: &[u8]) -> (r: bool)
    ensures
        r == has_marker(data@),
{
    data.len() >= 4 && data[0] == 0x66 && data[1] == 0x4c && data[2] == 0x61 && data[3] == 0x43
}

/// Assemble a 24-bit big-endian block length from its three raw bytes.
fn u24_be(b0: u8, b1: u8, b2: u8) -> (r: usize)
    ensures
        r == b0 * 0x1_0000 + b1 * 0x100 + b2,
{
    b0 as usize * 0x1_0000 + b1 as usize * 0x100 + b2 as usize
}

/// One block's header and extent.
struct BlockAt {
    block_type: u8,
    is_last: bool,
    body_start: usize,
    body_end: usize,
}

/// The block at `pos`, if it is all there.
fn block_at(data: &[u8], pos: usize) -> (r: Option<BlockAt>)
    requires
        pos <= data@.len(),
    ensures
        match r {
            Some(b) => block_whole(data@, pos as int) && b.block_type == block_type_at(
                data@,
                pos as int,
            ) && b.is_last == block_is_last(data@, pos as int) && b.body_start == pos + 4
                && b.body_end == block_end(data@, pos as int),
            None => !block_whole(data@, pos as int),
        },
{
    if data.len() - pos < 4 {
        return None;
    }
    let header: u8 = data[pos];
    let len: usize = u24_be(data[pos + 1], data[pos + 2], data[pos + 3]);
    let body_start: usize = pos + 4;
    if len > data.len() - body_start {
        return None;
    }
    Some(
        BlockAt {
            block_type: header % 0x80,
            is_last: header >= 0x80,
            body_start,
            body_end: body_start + len,
        },
    )
}

/// Append a block.
fn push_block(out: &mut Vec<MetadataBlock>, block_type: u8, body: Vec<u8>)
    ensures
        block_views(final(out)@) == block_views(old(out)@).push((block_type, body@)),
{
    let ghost b = body@;
    out.push(MetadataBlock { block_type, body });
    assert(block_views(out@) =~= block_views(old(out)@).push((block_type, b)));
}

/// Walk the blocks behind the marker: the metadata, or the position of the block that is
/// not all there.
fn walk_blocks(data: &[u8]) -> (r: std::result::Result<FlacMeta, usize>)
    requires
        has_marker(data@),
    ensures
        match r {
            Ok(m) => metadata_end(data@, 4) == Ok::<int, int>(m.audio_offset as int)
                && block_views(m.preserved@) == preserved_from(data@, 4) && m.audio_offset
                <= data@.len(),
            Err(p) => 4 <= p <= data@.len() && !block_whole(data@, p as int) && metadata_end(
                data@,
                4,
            ) == metadata_end(data@, p as int),
        },
{
    let ghost d = data@;
    let mut pos: usize = 4;
    let mut preserved: Vec<MetadataBlock> = Vec::new();
    proof {
        assert(block_views(preserved@) + preserved_from(d, 4) =~= preserved_from(d, 4));
    }
    loop
        invariant
            d == data@,
            4 <= pos <= d.len(),
            metadata_end(d, 4) == metadata_end(d, pos as int),
            preserved_from(d, 4) == block_views(preserved@) + preserved_from(d, pos as int),
        decreases d.len() - pos,
    {
        let b: BlockAt = match block_at(data, pos) {
            Some(b) => b,
            None => {
                return Err(pos);
            },
        };
        let ghost before = block_views(preserved@);
        let t: u8 = b.block_type;
        if t == BLOCK_STREAMINFO || t == BLOCK_APPLICATION || t == BLOCK_SEEKTABLE || t
            == BLOCK_CUESHEET {
            push_block(&mut preserved, t, copy_range(data, b.body_start, b.body_end));
        }
        proof {
            let rest = preserved_from(d, b.body_end as int);
            let here = if is_preserved_type(t) {
                seq![(t, block_body(d, pos as int))]
            } else {
                Seq::empty()
            };
            assert(block_views(preserved@) =~= before + here);
            assert(before + (here + rest) =~= block_views(preserved@) + rest);
        }
        if b.is_last {
            return Ok(FlacMeta { audio_offset: b.body_end as u64, preserved });
        }
        pos = b.body_end;
    }
}

/// `m` is the metadata of the stream `d`.
pub open spec fn is_metadata_of(m: FlacMeta, d: Seq<u8>) -> bool {
    &&& has_marker(d)
    &&& metadata_end(d, 4) == Ok::<int, int>(m.audio_offset as int)
    &&& block_views(m.preserved@) == preserved_from(d, 4)
}

/// Parse the metadata blocks of a stream.
pub fn parse_blocks(data: &[u8]) -> (r: Result<FlacMeta>)
    ensures
        match r {
            Ok(m) => is_metadata_of(m, data@) && m.audio_offset <= data@.len(),
            Err(FormatError::NotFlac) => !has_marker(data@),
            Err(FormatError::Malformed) => has_marker(data@) && metadata_end(data@, 4) is Err,
            Err(_) => false,
        },
{
    if !starts_with_marker(data) {
        return Err(FormatError::NotFlac);
    }
    match walk_blocks(data) {
        Ok(m) => Ok(m),
        Err(_) => Err(FormatError::Malformed),
    }
}

/// Parse just the FLAC metadata region (the front of the file), recovering the
/// audio boundary and structural blocks. Use when the audio length is already
/// known (e.g. stored in a database) and the full file should not be read.
pub fn read_metadata(data: &[u8]) -> (r: Result<FlacMeta>)
    ensures
        match r {
            Ok(m) => is_metadata_of(m, data@) && m.audio_offset <= data@.len(),
            Err(FormatError::NotFlac) => !has_marker(data@),
            Err(FormatError::Malformed) => has_marker(data@) && metadata_end(data@, 4) is Err,
            Err(_) => false,
        },
{
    parse_blocks(data)
}

/// Bounded twin of [`read_metadata`]: walk the metadata blocks present in
/// `prefix` (which may be a front-only window of the file). If a block's declared
/// body runs past the prefix, return `NeedMore { up_to }` with the exact end of
/// that block: the caller widens the window and retries. Otherwise `Complete`.
pub fn read_metadata_bounded(prefix: &[u8]) -> (r: Result<Extent<FlacMeta>>)
    requires
        prefix@.len() <= isize::MAX,
    ensures
        match r {
            Ok(Extent::Complete(m)) => is_metadata_of(m, prefix@) && m.audio_offset
                <= prefix@.len(),
            Ok(Extent::NeedMore { up_to }) => has_marker(prefix@) && metadata_end(prefix@, 4)
                == Err::<int, int>(up_to as int) && up_to > prefix@.len(),
            Err(FormatError::NotFlac) => !has_marker(prefix@),
            Err(_) => false,
        },
{
    if !starts_with_marker(prefix) {
        return Err(FormatError::NotFlac);
    }
    match walk_blocks(prefix) {
        Ok(m) => Ok(Extent::Complete(m)),
        Err(pos) => {
            if prefix.len() - pos < 4 {
                // Need at least the 4-byte block header.
                return Ok(Extent::NeedMore { up_to: pos as u64 + 4 });
            }
            let len: usize = u24_be(prefix[pos + 1], prefix[pos + 2], prefix[pos + 3]);
            Ok(Extent::NeedMore { up_to: pos as u64 + 4 + len as u64 })
        },
    }
}

/// Parse the FLAC metadata section of a complete file, returning the audio
/// boundary, audio length, and the structural blocks to carry over.
pub fn locate_audio(data: &[u8]) -> (r: Result<FlacScan>)
    ensures
        match r {
            Ok(s) => has_marker(data@) && metadata_end(data@, 4) == Ok::<int, int>(
                s.audio_offset as int,
            ) && block_views(s.preserved@) == preserved_from(data@, 4) && s.audio_offset
                + s.audio_length == data@.len(),
            Err(FormatError::NotFlac) => !has_marker(data@),
            Err(FormatError::Malformed) => has_marker(data@) && metadata_end(data@, 4) is Err,
            Err(_) => false,
        },
{
    match parse_blocks(data) {
        Ok(m) => Ok(
            FlacScan {
                audio_offset: m.audio_offset,
                audio_length: data.len() as u64 - m.audio_offset,
                preserved: m.preserved,
            },
        ),
        Err(e) => Err(e),
    }
}

/// A metadata that the front of a file already holds is the metadata of the whole file:
/// what follows changes nothing.
pub proof fn front_decides(front: Seq<u8>, rest: Seq<u8>, p: int)
    requires
        0 <= p,
        metadata_end(front, p) is Ok,
    ensures
        metadata_end(front + rest, p) == metadata_end(front, p),
        preserved_from(front + rest, p) == preserved_from(front, p),
    decreases front.len() - p,
{
    let d = front + rest;
    assert(d[p] == front[p] && d[p + 1] == front[p + 1] && d[p + 2] == front[p + 2] && d[p + 3]
        == front[p + 3]);
    assert(block_body(d, p) =~= block_body(front, p));
    if !block_is_last(front, p) {
        front_decides(front, rest, block_end(front, p));
    }
}

/// What a bounded probe asks for is needed: with fewer bytes than it says, the metadata is
/// still not complete.
pub proof fn probe_asks_for_what_is_needed(front: Seq<u8>, rest: Seq<u8>, p: int, up_to: int)
    requires
        0 <= p,
        metadata_end(front, p) == Err::<int, int>(up_to),
        front.len() + rest.len() < up_to,
    ensures
        metadata_end(front + rest, p) == Err::<int, int>(up_to),
        up_to > front.len(),
    decreases front.len() - p,
{
    let d = front + rest;
    if p + 4 <= front.len() {
        assert(d[p] == front[p] && d[p + 1] == front[p + 1] && d[p + 2] == front[p + 2] && d[p
            + 3] == front[p + 3]);
        if block_end(front, p) <= front.len() && !block_is_last(front, p) {
            probe_asks_for_what_is_needed(front, rest, block_end(front, p), up_to);
        }
    }
}

/// The header of a block.
pub open spec fn block_header(block_type: u8, len: int, last: bool) -> Seq<u8> {
    seq![(block_type % 0x80 + if last { 0x80int } else { 0 }) as u8] + be24_bytes(len)
}

/// Append a block header. A FLAC block length is a 24-bit field; anything larger is
/// refused rather than written as a truncated length.
pub fn push_block_header(
    out: &mut Vec<u8>,
    block_type: u8,
    body_len: usize,
    is_last: bool,
) -> (r: Result<()>)
    ensures
        match r {
            Ok(_) => body_len <= MAX_BLOCK_BODY && final(out)@ == old(out)@ + block_header(
                block_type,
                body_len as int,
                is_last,
            ),
            Err(e) => e == FormatError::TooLarge && body_len > MAX_BLOCK_BODY && final(out)@
                == old(out)@,
        },
{
    if body_len as u64 > MAX_BLOCK_BODY {
        return Err(FormatError::TooLarge);
    }
    let flag: u8 = if is_last {
        0x80
    } else {
        0
    };
    out.push(block_type % 0x80 + flag);
    out.push((body_len / 0x1_0000) as u8);
    out.push(((body_len / 0x100) % 0x100) as u8);
    out.push((body_len % 0x100) as u8);
    assert(out@ =~= old(out)@ + block_header(block_type, body_len as int, is_last));
    Ok(())
}

/// Map a stored structural-block `kind` string back to its FLAC block type.
/// Only STREAMINFO/SEEKTABLE live in the structural store; everything else
/// returns `None` (APPLICATION/CUESHEET are binary tags, not structural).
pub fn structural_block_type(kind: &str) -> (r: Option<u8>)
    ensures
        r == if kind@ == "STREAMINFO"@ {
            Some(BLOCK_STREAMINFO)
        } else if kind@ == "SEEKTABLE"@ {
            Some(BLOCK_SEEKTABLE)
        } else {
            None
        },
{
    if same_text(kind, "STREAMINFO") {
        Some(BLOCK_STREAMINFO)
    } else if same_text(kind, "SEEKTABLE") {
        Some(BLOCK_SEEKTABLE)
    } else {
        None
    }
}

/// The structural blocks, named, in order.
pub open spec fn structural_of(blocks: Seq<(u8, Seq<u8>)>) -> Seq<(Seq<char>, Seq<u8>)>
    decreases blocks.len(),
{
    if blocks.len() == 0 {
        Seq::empty()
    } else {
        let before = structural_of(blocks.drop_last());
        let (t, body) = blocks.last();
        if t == BLOCK_STREAMINFO {
            before.push(("STREAMINFO"@, body))
        } else if t == BLOCK_SEEKTABLE {
            before.push(("SEEKTABLE"@, body))
        } else {
            before
        }
    }
}

/// The blocks that are binary tags, named, in order.
pub open spec fn binary_of(blocks: Seq<(u8, Seq<u8>)>) -> Seq<(Seq<char>, Seq<u8>)>
    decreases blocks.len(),
{
    if blocks.len() == 0 {
        Seq::empty()
    } else {
        let before = binary_of(blocks.drop_last());
        let (t, body) = blocks.last();
        if t == BLOCK_APPLICATION {
            before.push(("APPLICATION"@, body))
        } else if t == BLOCK_CUESHEET {
            before.push(("CUESHEET"@, body))
        } else {
            before
        }
    }
}

/// Named bodies as mathematical values.
pub open spec fn named_views(s: Seq<(String, Vec<u8>)>) -> Seq<(Seq<char>, Seq<u8>)> {
    Seq::new(s.len(), |i: int| (s[i].0@, s[i].1@))
}

/// Binary tags as mathematical values.
pub open spec fn binary_views(s: Seq<EmbeddedBinaryTag>) -> Seq<(Seq<char>, Seq<u8>)> {
    Seq::new(s.len(), |i: int| (s[i].key@, s[i].payload@))
}

/// Append a binary tag.
pub(crate) fn push_binary(out: &mut Vec<EmbeddedBinaryTag>, key: String, payload: Vec<u8>)
    ensures
        binary_views(final(out)@) == binary_views(old(out)@).push((key@, payload@)),
{
    let ghost v = (key@, payload@);
    out.push(EmbeddedBinaryTag { key, payload });
    assert(binary_views(out@) =~= binary_views(old(out)@).push(v));
}

fn push_named(out: &mut Vec<(String, Vec<u8>)>, key: &str, body: Vec<u8>)
    ensures
        named_views(final(out)@) == named_views(old(out)@).push((key@, body@)),
{
    let ghost v = (key@, body@);
    out.push((key.to_owned(), body));
    assert(named_views(out@) =~= named_views(old(out)@).push(v));
}

/// Split a FLAC file's preserved metadata blocks into the read-only structural
/// store (STREAMINFO/SEEKTABLE, as `(kind, body)` pairs in file order) and the
/// editable binary tags (APPLICATION/CUESHEET, as `EmbeddedBinaryTag`s keyed by
/// block name; `payload` is the full block body, including APPLICATION's 4-byte
/// app id). Blocks of any other type are ignored (PICTURE/VORBIS_COMMENT are
/// handled by their own paths and are never in `preserved`).
pub fn split_preserved(blocks: &[MetadataBlock]) -> (r: (
    Vec<(String, Vec<u8>)>,
    Vec<EmbeddedBinaryTag>,
))
    ensures
        named_views(r.0@) == structural_of(block_views(blocks@)),
        binary_views(r.1@) == binary_of(block_views(blocks@)),
{
    let ghost all = block_views(blocks@);
    let mut structural: Vec<(String, Vec<u8>)> = Vec::new();
    let mut binary: Vec<EmbeddedBinaryTag> = Vec::new();
    let mut i: usize = 0;
    proof {
        assert(named_views(structural@) =~= Seq::empty());
        assert(binary_views(binary@) =~= Seq::empty());
    }
    while i < blocks.len()
        invariant
            i <= blocks@.len(),
            all == block_views(blocks@),
            named_views(structural@) == structural_of(all.take(i as int)),
            binary_views(binary@) == binary_of(all.take(i as int)),
        decreases blocks@.len() - i,
    {
        proof {
            assert(all.take(i + 1).drop_last() =~= all.take(i as int));
            assert(all.take(i + 1).last() == block_view(blocks@[i as int]));
        }
        let blk = &blocks[i];
        let body = copy_range(blk.body.as_slice(), 0, blk.body.len());
        assert(body@ =~= blk.body@);
        if blk.block_type == BLOCK_STREAMINFO {
            push_named(&mut structural, "STREAMINFO", body);
        } else if blk.block_type == BLOCK_SEEKTABLE {
            push_named(&mut structural, "SEEKTABLE", body);
        } else if blk.block_type == BLOCK_APPLICATION {
            push_binary(&mut binary, "APPLICATION".to_owned(), body);
        } else if blk.block_type == BLOCK_CUESHEET {
            push_binary(&mut binary, "CUESHEET".to_owned(), body);
        }
        i = i + 1;
    }
    assert(all.take(i as int) =~= all);
    (structural, binary)
}

/// What stands in front of the image bytes in a PICTURE block body.
pub open spec fn picture_framing(
    picture_type: u32,
    mime: Seq<char>,
    description: Seq<u8>,
    width: u32,
    height: u32,
    data_len: int,
) -> Seq<u8> {
    be32_bytes(picture_type as int) + be32_bytes(utf8(mime).len() as int) + utf8(mime)
        + be32_bytes(description.len() as int) + description + be32_bytes(width as int)
        + be32_bytes(height as int) + be32_bytes(0) + be32_bytes(0) + be32_bytes(data_len)
}

/// The framing of an art input with the description `description`.
pub open spec fn art_framing(art: ArtInput, description: Seq<u8>) -> Seq<u8> {
    picture_framing(
        art.picture_type,
        art.mime@,
        description,
        art.width,
        art.height,
        art.data_len as int,
    )
}

/// The lengths in the framing fit 32 bits.
pub open spec fn framing_fits(art: ArtInput, description: Seq<u8>) -> bool {
    &&& utf8(art.mime@).len() <= u32::MAX
    &&& description.len() <= u32::MAX
    &&& art.data_len <= u32::MAX
}

/// The framing of `art` with `description` in place of its own.
pub(crate) fn framing_with(art: &ArtInput, description: &[u8]) -> (r: Result<Vec<u8>>)
    ensures
        match r {
            Ok(v) => framing_fits(*art, description@) && v@ == art_framing(*art, description@),
            Err(e) => e == FormatError::TooLarge && !framing_fits(*art, description@),
        },
{
    let mime = art.mime.as_str().as_bytes();
    let max: usize = 0xffff_ffff;
    if mime.len() > max || description.len() > max || art.data_len > 0xffff_ffff {
        return Err(FormatError::TooLarge);
    }
    let mut out: Vec<u8> = Vec::new();
    push_u32_be(&mut out, art.picture_type);
    push_u32_be(&mut out, mime.len() as u32);
    append(&mut out, mime);
    push_u32_be(&mut out, description.len() as u32);
    append(&mut out, description);
    push_u32_be(&mut out, art.width);
    push_u32_be(&mut out, art.height);
    // Color depth: unknown.
    push_u32_be(&mut out, 0);
    // Number of colors: non-indexed.
    push_u32_be(&mut out, 0);
    push_u32_be(&mut out, art.data_len as u32);
    assert(out@ =~= art_framing(*art, description@));
    Ok(out)
}

/// What stands in front of the image bytes in the PICTURE block body for `art`.
pub fn picture_body_framing(art: &ArtInput) -> (r: Result<Vec<u8>>)
    ensures
        match r {
            Ok(v) => framing_fits(*art, utf8(art.description@)) && v@ == art_framing(
                *art,
                utf8(art.description@),
            ),
            Err(e) => e == FormatError::TooLarge && !framing_fits(*art, utf8(art.description@)),
        },
{
    framing_with(art, art.description.as_str().as_bytes())
}

/// An embedded picture as a mathematical value.
pub struct PictureModel {
    pub mime: Seq<char>,
    pub picture_type: int,
    pub description: Seq<char>,
    pub width: u32,
    pub height: u32,
    pub data: Seq<u8>,
}

/// What an embedded picture stands for.
pub open spec fn picture_view(p: EmbeddedPicture) -> PictureModel {
    PictureModel {
        mime: p.mime@,
        picture_type: p.picture_type.code(),
        description: p.description@,
        width: p.width,
        height: p.height,
        data: p.data@,
    }
}

/// What embedded pictures stand for.
pub open spec fn picture_views(s: Seq<EmbeddedPicture>) -> Seq<PictureModel> {
    Seq::new(s.len(), |i: int| picture_view(s[i]))
}

/// Append a picture.
pub(crate) fn push_embedded(out: &mut Vec<EmbeddedPicture>, p: EmbeddedPicture)
    ensures
        picture_views(final(out)@) == picture_views(old(out)@).push(picture_view(p)),
{
    let ghost v = picture_view(p);
    out.push(p);
    assert(picture_views(out@) =~= picture_views(old(out)@).push(v));
}

/// A picture type out of range counts as "Other".
pub open spec fn clamped_type(t: int) -> int {
    if t > 20 {
        0
    } else {
        t
    }
}

/// The picture that a PICTURE block body holds; `None` where a field runs past the end.
/// Bytes behind the image do not count.
pub open spec fn picture_of(b: Seq<u8>) -> Option<PictureModel> {
    let mime_end = 8 + be32(b, 4);
    let desc_end = mime_end + 4 + be32(b, mime_end);
    let data_at = desc_end + 20;
    let data_end = data_at + be32(b, desc_end + 16);
    if b.len() < 8 || mime_end + 4 > b.len() || data_at > b.len() || data_end > b.len() {
        None
    } else {
        Some(
            PictureModel {
                mime: lossy_text(b.subrange(8, mime_end)),
                picture_type: clamped_type(be32(b, 0)),
                description: lossy_text(b.subrange(mime_end + 4, desc_end)),
                width: be32(b, desc_end) as u32,
                height: be32(b, desc_end + 4) as u32,
                data: b.subrange(data_at, data_end),
            },
        )
    }
}

/// The 32-bit big-endian value at `pos`, or `Malformed` past the end of `data`.
pub fn read_u32_be(data: &[u8], pos: usize) -> (r: Result<u32>)
    ensures
        match r {
            Ok(v) => pos + 4 <= data@.len() && v == be32(data@, pos as int),
            Err(e) => e == FormatError::Malformed && pos + 4 > data@.len(),
        },
{
    crate::bytes::read_u32_be(data, pos)
}

/// The end of a field that starts at `pos`, behind its 32-bit length at `pos - 4`.
fn field_end(body: &[u8], pos: usize) -> (r: Result<usize>)
    requires
        pos <= body@.len(),
    ensures
        match r {
            Ok(e) => pos + 4 <= body@.len() && e == pos + 4 + be32(body@, pos as int) && e
                <= body@.len(),
            Err(e) => e == FormatError::Malformed && (pos + 4 > body@.len() || pos + 4 + be32(
                body@,
                pos as int,
            ) > body@.len()),
        },
{
    match read_u32_be(body, pos) {
        Ok(n) => {
            if n as usize > body.len() - (pos + 4) {
                Err(FormatError::Malformed)
            } else {
                Ok(pos + 4 + n as usize)
            }
        },
        Err(e) => Err(e),
    }
}

/// Parse a PICTURE block body.
pub fn parse_picture_block(body: &[u8]) -> (r: Result<EmbeddedPicture>)
    ensures
        match r {
            Ok(p) => picture_of(body@) == Some(picture_view(p)),
            Err(e) => e == FormatError::Malformed && picture_of(body@) is None,
        },
{
    let picture_type: u32 = match read_u32_be(body, 0) {
        Ok(v) => v,
        Err(e) => {
            return Err(e);
        },
    };
    let mime_end: usize = match field_end(body, 4) {
        Ok(v) => v,
        Err(e) => {
            return Err(e);
        },
    };
    let desc_end: usize = match field_end(body, mime_end) {
        Ok(v) => v,
        Err(e) => {
            return Err(e);
        },
    };
    if body.len() - desc_end < 20 {
        return Err(FormatError::Malformed);
    }
    let data_end: usize = match field_end(body, desc_end + 16) {
        Ok(v) => v,
        Err(e) => {
            return Err(e);
        },
    };
    let width: u32 = match read_u32_be(body, desc_end) {
        Ok(v) => v,
        Err(e) => {
            return Err(e);
        },
    };
    let height: u32 = match read_u32_be(body, desc_end + 4) {
        Ok(v) => v,
        Err(e) => {
            return Err(e);
        },
    };
    let mime = utf8_text_lossy(vstd::slice::slice_subrange(body, 8, mime_end));
    let description = utf8_text_lossy(vstd::slice::slice_subrange(body, mime_end + 4, desc_end));
    let kind: PictureType = match PictureType::new(picture_type) {
        Some(t) => t,
        None => PictureType::zero(),
    };
    Ok(
        EmbeddedPicture {
            mime,
            picture_type: kind,
            description,
            width,
            height,
            data: copy_range(body, desc_end + 20, data_end),
        },
    )
}

/// What the parts of a PICTURE block body parse as, put together.
proof fn picture_parts(
    p0: Seq<u8>,
    p1: Seq<u8>,
    m: Seq<u8>,
    p2: Seq<u8>,
    d: Seq<u8>,
    p3: Seq<u8>,
    p4: Seq<u8>,
    y: Seq<u8>,
    z: Seq<u8>,
    p5: Seq<u8>,
    image: Seq<u8>,
)
    requires
        p0.len() == 4 && p1.len() == 4 && p2.len() == 4 && p3.len() == 4 && p4.len() == 4
            && y.len() == 4 && z.len() == 4 && p5.len() == 4,
        be32(p1, 0) == m.len(),
        be32(p2, 0) == d.len(),
        be32(p5, 0) == image.len(),
    ensures
        picture_of(p0 + p1 + m + p2 + d + p3 + p4 + y + z + p5 + image) == Some(
            PictureModel {
                mime: lossy_text(m),
                picture_type: clamped_type(be32(p0, 0)),
                description: lossy_text(d),
                width: be32(p3, 0) as u32,
                height: be32(p4, 0) as u32,
                data: image,
            },
        ),
        image_end(p0 + p1 + m + p2 + d + p3 + p4 + y + z + p5 + image) == (p0 + p1 + m + p2 + d + p3
            + p4 + y + z + p5 + image).len(),
{
    let s1 = p0 + p1;
    let s2 = s1 + m;
    let s3 = s2 + p2;
    let s4 = s3 + d;
    let s5 = s4 + p3;
    let s6 = s5 + p4;
    let s7 = s6 + y;
    let s8 = s7 + z;
    let s9 = s8 + p5;
    let b = s9 + image;
    assert(b.take(b.len() as int) =~= b);
    crate::bytes::peel(b, s9, image);
    crate::bytes::peel(b, s8, p5);
    crate::bytes::peel(b, s7, z);
    crate::bytes::peel(b, s6, y);
    crate::bytes::peel(b, s5, p4);
    crate::bytes::peel(b, s4, p3);
    crate::bytes::peel(b, s3, d);
    crate::bytes::peel(b, s2, p2);
    crate::bytes::peel(b, s1, m);
    crate::bytes::peel(b, p0, p1);
    assert(b.take(4) =~= b.subrange(0, 4));
    let me: int = 8 + m.len() as int;
    let de: int = me + 4 + d.len();
    be32_of_part(b, 0, p0);
    be32_of_part(b, 4, p1);
    be32_of_part(b, me, p2);
    be32_of_part(b, de, p3);
    be32_of_part(b, de + 4, p4);
    be32_of_part(b, de + 16, p5);
}

/// The framing of a picture, followed by its image, parses as that picture.
#[verifier::spinoff_prover]
#[verifier::rlimit(60)]
pub proof fn framing_reads_back(
    picture_type: u32,
    mime: Seq<char>,
    description: Seq<u8>,
    width: u32,
    height: u32,
    image: Seq<u8>,
)
    requires
        utf8(mime).len() <= u32::MAX,
        description.len() <= u32::MAX,
        image.len() <= u32::MAX,
    ensures
        picture_of(
            picture_framing(
                picture_type,
                mime,
                description,
                width,
                height,
                image.len() as int,
            ) + image,
        ) == Some(
            PictureModel {
                mime,
                picture_type: clamped_type(picture_type as int),
                description: lossy_text(description),
                width,
                height,
                data: image,
            },
        ),
{
    let m = utf8(mime);
    crate::text::lossy_text_of_utf8(mime);
    crate::bytes::be32_round_trip(picture_type as int);
    crate::bytes::be32_round_trip(m.len() as int);
    crate::bytes::be32_round_trip(description.len() as int);
    crate::bytes::be32_round_trip(width as int);
    crate::bytes::be32_round_trip(height as int);
    crate::bytes::be32_round_trip(image.len() as int);
    picture_parts(
        be32_bytes(picture_type as int),
        be32_bytes(m.len() as int),
        m,
        be32_bytes(description.len() as int),
        description,
        be32_bytes(width as int),
        be32_bytes(height as int),
        be32_bytes(0),
        be32_bytes(0),
        be32_bytes(image.len() as int),
        image,
    );
}

/// A whole PICTURE block body, whatever colour depth and number of colours it declares.
pub open spec fn picture_body(
    picture_type: u32,
    mime: Seq<char>,
    description: Seq<char>,
    width: u32,
    height: u32,
    depth: u32,
    colors: u32,
    image: Seq<u8>,
) -> Seq<u8> {
    be32_bytes(picture_type as int) + be32_bytes(utf8(mime).len() as int) + utf8(mime)
        + be32_bytes(utf8(description).len() as int) + utf8(description) + be32_bytes(width as int)
        + be32_bytes(height as int) + be32_bytes(depth as int) + be32_bytes(colors as int)
        + be32_bytes(image.len() as int) + image
}

/// A PICTURE block body parses as its picture, whatever bytes follow it, and no strict prefix
/// of it parses at all.
#[verifier::spinoff_prover]
#[verifier::rlimit(60)]
pub proof fn picture_body_reads_back(
    picture_type: u32,
    mime: Seq<char>,
    description: Seq<char>,
    width: u32,
    height: u32,
    depth: u32,
    colors: u32,
    image: Seq<u8>,
    after: Seq<u8>,
)
    requires
        utf8(mime).len() <= u32::MAX,
        utf8(description).len() <= u32::MAX,
        image.len() <= u32::MAX,
    ensures
        ({
            let body = picture_body(
                picture_type,
                mime,
                description,
                width,
                height,
                depth,
                colors,
                image,
            );
            &&& picture_of(body + after) == Some(
                PictureModel {
                    mime,
                    picture_type: clamped_type(picture_type as int),
                    description,
                    width,
                    height,
                    data: image,
                },
            )
            &&& forall|k: int| 0 <= k < body.len() ==> picture_of(#[trigger] body.take(k)) is None
        }),
{
    let m = utf8(mime);
    let d = utf8(description);
    crate::text::lossy_text_of_utf8(mime);
    crate::text::lossy_text_of_utf8(description);
    crate::bytes::be32_round_trip(picture_type as int);
    crate::bytes::be32_round_trip(m.len() as int);
    crate::bytes::be32_round_trip(d.len() as int);
    crate::bytes::be32_round_trip(width as int);
    crate::bytes::be32_round_trip(height as int);
    crate::bytes::be32_round_trip(depth as int);
    crate::bytes::be32_round_trip(colors as int);
    crate::bytes::be32_round_trip(image.len() as int);
    picture_parts(
        be32_bytes(picture_type as int),
        be32_bytes(m.len() as int),
        m,
        be32_bytes(d.len() as int),
        d,
        be32_bytes(width as int),
        be32_bytes(height as int),
        be32_bytes(depth as int),
        be32_bytes(colors as int),
        be32_bytes(image.len() as int),
        image,
    );
    let body = picture_body(
        picture_type,
        mime,
        description,
        width,
        height,
        depth,
        colors,
        image,
    );
    bytes_behind_do_not_count(body, after);
    assert forall|k: int| 0 <= k < body.len() implies picture_of(#[trigger] body.take(k)) is None by {
        cut_block_is_refused(body, k);
    }
}

/// Where the image of a PICTURE block body ends.
pub open spec fn image_end(b: Seq<u8>) -> int {
    let mime_end = 8 + be32(b, 4);
    let desc_end = mime_end + 4 + be32(b, mime_end);
    desc_end + 20 + be32(b, desc_end + 16)
}

/// Numbers in the front of a byte string.
proof fn be32_in_front(a: Seq<u8>, b: Seq<u8>, p: int)
    requires
        0 <= p,
        p + 4 <= a.len() <= b.len(),
        forall|i: int| 0 <= i < a.len() ==> #[trigger] a[i] == b[i],
    ensures
        be32(a, p) == be32(b, p),
        0 <= be32(a, p),
{
    assert(a[p] == b[p] && a[p + 1] == b[p + 1] && a[p + 2] == b[p + 2] && a[p + 3] == b[p + 3]);
}

/// Bytes behind a picture do not count.
pub proof fn bytes_behind_do_not_count(b: Seq<u8>, after: Seq<u8>)
    requires
        picture_of(b) is Some,
    ensures
        picture_of(b + after) == picture_of(b),
{
    let c = b + after;
    assert forall|i: int| 0 <= i < b.len() implies #[trigger] b[i] == c[i] by {}
    be32_in_front(b, c, 0);
    be32_in_front(b, c, 4);
    let me = 8 + be32(b, 4);
    be32_in_front(b, c, me);
    let de = me + 4 + be32(b, me);
    be32_in_front(b, c, de);
    be32_in_front(b, c, de + 4);
    be32_in_front(b, c, de + 16);
    let end = de + 20 + be32(b, de + 16);
    assert(c.subrange(8, me) =~= b.subrange(8, me));
    assert(c.subrange(me + 4, de) =~= b.subrange(me + 4, de));
    assert(c.subrange(de + 20, end) =~= b.subrange(de + 20, end));
}

/// A PICTURE block body that is cut short is refused.
pub proof fn cut_block_is_refused(b: Seq<u8>, k: int)
    requires
        picture_of(b) is Some,
        0 <= k < image_end(b),
    ensures
        picture_of(b.take(k)) is None,
{
    let c = b.take(k);
    assert forall|i: int| 0 <= i < c.len() implies #[trigger] c[i] == b[i] by {}
    if picture_of(c) is Some {
        be32_in_front(c, b, 4);
        let me = 8 + be32(c, 4);
        be32_in_front(c, b, me);
        let de = me + 4 + be32(c, me);
        be32_in_front(c, b, de + 16);
    }
}

/// A number stands where its bytes stand.
pub proof fn be32_of_part(d: Seq<u8>, p: int, part: Seq<u8>)
    requires
        0 <= p,
        p + 4 <= d.len(),
        d.subrange(p, p + 4) == part,
    ensures
        be32(d, p) == be32(part, 0),
{
    assert(d.subrange(p, p + 4)[0] == d[p]);
    assert(d.subrange(p, p + 4)[1] == d[p + 1]);
    assert(d.subrange(p, p + 4)[2] == d[p + 2]);
    assert(d.subrange(p, p + 4)[3] == d[p + 3]);
}

/// The blocks of type `t`, written out in order.
pub open spec fn blocks_of_type(blocks: Seq<(u8, Seq<u8>)>, t: int) -> Seq<u8>
    decreases blocks.len(),
{
    if blocks.len() == 0 {
        Seq::empty()
    } else {
        let before = blocks_of_type(blocks.drop_last(), t);
        let (bt, body) = blocks.last();
        if bt == t {
            before + block_header(bt, body.len() as int, false) + body
        } else {
            before
        }
    }
}

/// The blocks of types below `t`, written out by type, and in order within a type.
pub open spec fn blocks_below(blocks: Seq<(u8, Seq<u8>)>, t: int) -> Seq<u8>
    decreases t,
{
    if t <= 0 {
        Seq::empty()
    } else {
        blocks_below(blocks, t - 1) + blocks_of_type(blocks, t - 1)
    }
}

/// The type of block that a binary tag is carried in.
pub open spec fn binary_block_type(key: Seq<char>) -> Option<u8> {
    if key == "APPLICATION"@ {
        Some(BLOCK_APPLICATION)
    } else if key == "CUESHEET"@ {
        Some(BLOCK_CUESHEET)
    } else {
        None
    }
}

/// The tag is written: it names a block type, and there is something to write.
pub open spec fn binary_written(bt: BinaryTagInput) -> bool {
    binary_block_type(bt.key@) is Some && bt.len > 0
}

/// How many of the binary tags are written.
pub open spec fn binary_count(tags: Seq<BinaryTagInput>) -> int
    decreases tags.len(),
{
    if tags.len() == 0 {
        0
    } else {
        binary_count(tags.drop_last()) + if binary_written(tags.last()) {
            1int
        } else {
            0
        }
    }
}

/// How many of the pictures are written: those that are not empty.
pub open spec fn art_count(arts: Seq<ArtInput>) -> int
    decreases arts.len(),
{
    if arts.len() == 0 {
        0
    } else {
        art_count(arts.drop_last()) + if arts.last().data_len > 0 {
            1int
        } else {
            0
        }
    }
}

/// A draft followed by the binary tags, each a block header and a streamed body; `last`
/// says whether the final one is the last block of all.
pub open spec fn with_binary(d: DraftModel, tags: Seq<BinaryTagInput>, last: bool) -> DraftModel
    decreases tags.len(),
{
    if tags.len() == 0 {
        d
    } else {
        let bt = tags.last();
        if binary_written(bt) {
            with_stream(
                with_bytes(
                    with_binary(d, tags.drop_last(), false),
                    block_header(binary_block_type(bt.key@)->0, bt.len as int, last),
                ),
                SegView::BinaryTag { payload_id: bt.payload_id, len: bt.len as int },
            )
        } else {
            with_binary(d, tags.drop_last(), last)
        }
    }
}

/// A draft followed by the pictures, each a block header, framing and a streamed image;
/// `last` says whether the final one is the last block of all.
pub open spec fn with_pictures(d: DraftModel, arts: Seq<ArtInput>, last: bool) -> DraftModel
    decreases arts.len(),
{
    if arts.len() == 0 {
        d
    } else {
        let art = arts.last();
        if art.data_len > 0 {
            let framing = art_framing(art, utf8(art.description@));
            with_stream(
                with_bytes(
                    with_pictures(d, arts.drop_last(), false),
                    block_header(BLOCK_PICTURE, framing.len() + art.data_len, last) + framing,
                ),
                SegView::ArtImage { art_id: art.art_id, len: art.data_len as int },
            )
        } else {
            with_pictures(d, arts.drop_last(), last)
        }
    }
}

/// The marker, the structural blocks by type, and the comment block.
pub open spec fn flac_head(
    structural: Seq<(u8, Seq<u8>)>,
    tags: Seq<TagInput>,
    comment_is_last: bool,
) -> Seq<u8> {
    FLAC_MARKER@ + blocks_below(structural, 256) + block_header(
        BLOCK_VORBIS_COMMENT,
        comment_body(tags).len() as int,
        comment_is_last,
    ) + comment_body(tags)
}

/// The draft of a synthesized metadata region.
pub open spec fn flac_draft(
    structural: Seq<(u8, Seq<u8>)>,
    tags: Seq<TagInput>,
    binary_tags: Seq<BinaryTagInput>,
    arts: Seq<ArtInput>,
) -> DraftModel {
    let nb = binary_count(binary_tags);
    let na = art_count(arts);
    with_pictures(
        with_binary(
            with_bytes(empty_draft(), flac_head(structural, tags, nb == 0 && na == 0)),
            binary_tags,
            na == 0,
        ),
        arts,
        true,
    )
}

/// The segments of a synthesized FLAC file.
pub open spec fn flac_segments(
    structural: Seq<(u8, Seq<u8>)>,
    audio_offset: int,
    audio_length: int,
    tags: Seq<TagInput>,
    binary_tags: Seq<BinaryTagInput>,
    arts: Seq<ArtInput>,
) -> Seq<SegView> {
    drafted(
        with_stream(
            flac_draft(structural, tags, binary_tags, arts),
            SegView::BackingAudio { offset: audio_offset, len: audio_length },
        ),
    )
}

/// Every block body fits its 24-bit length.
pub open spec fn flac_fits(
    structural: Seq<(u8, Seq<u8>)>,
    tags: Seq<TagInput>,
    binary_tags: Seq<BinaryTagInput>,
    arts: Seq<ArtInput>,
) -> bool {
    &&& forall|i: int|
        0 <= i < structural.len() ==> (#[trigger] structural[i]).1.len() <= MAX_BLOCK_BODY
    &&& body_fits(tags)
    &&& comment_body(tags).len() <= MAX_BLOCK_BODY
    &&& forall|i: int|
        0 <= i < binary_tags.len() ==> binary_fits(#[trigger] binary_tags[i])
    &&& forall|i: int| 0 <= i < arts.len() ==> art_fits(#[trigger] arts[i])
}

/// A binary tag fits a block, or is not written.
pub open spec fn binary_fits(bt: BinaryTagInput) -> bool {
    binary_written(bt) ==> bt.len <= MAX_BLOCK_BODY
}

/// A picture fits a block, or is not written.
pub open spec fn art_fits(art: ArtInput) -> bool {
    art.data_len > 0 ==> framing_fits(art, utf8(art.description@)) && art_framing(
        art,
        utf8(art.description@),
    ).len() + art.data_len <= MAX_BLOCK_BODY
}

/// Append the blocks of type `t`, in order.
fn push_blocks_of_type(out: &mut Vec<u8>, blocks: &[MetadataBlock], t: u8) -> (r: Result<()>)
    ensures
        match r {
            Ok(_) => final(out)@ == old(out)@ + blocks_of_type(block_views(blocks@), t as int)
                && forall|i: int|
                0 <= i < blocks@.len() && (#[trigger] blocks@[i]).block_type == t
                    ==> blocks@[i].body@.len() <= MAX_BLOCK_BODY,
            Err(e) => e == FormatError::TooLarge && exists|i: int|
                0 <= i < blocks@.len() && (#[trigger] blocks@[i]).body@.len() > MAX_BLOCK_BODY,
        },
{
    let ghost all = block_views(blocks@);
    let ghost start = out@;
    let mut i: usize = 0;
    assert(out@ =~= start + blocks_of_type(all.take(0), t as int));
    while i < blocks.len()
        invariant
            i <= blocks@.len(),
            all == block_views(blocks@),
            out@ == start + blocks_of_type(all.take(i as int), t as int),
            forall|k: int|
                0 <= k < i && (#[trigger] blocks@[k]).block_type == t ==> blocks@[k].body@.len()
                    <= MAX_BLOCK_BODY,
        decreases blocks@.len() - i,
    {
        proof {
            assert(all.take(i + 1).drop_last() =~= all.take(i as int));
            assert(all.take(i + 1).last() == block_view(blocks@[i as int]));
        }
        let blk = &blocks[i];
        if blk.block_type == t {
            match push_block_header(out, t, blk.body.len(), false) {
                Ok(_) => {},
                Err(e) => {
                    assert(blocks@[i as int].body@.len() > MAX_BLOCK_BODY);
                    return Err(e);
                },
            }
            append(out, blk.body.as_slice());
            assert(out@ =~= start + blocks_of_type(all.take(i + 1), t as int));
        }
        i = i + 1;
    }
    assert(all.take(i as int) =~= all);
    Ok(())
}

/// Append the structural blocks, sorted by type.
fn push_structural(out: &mut Vec<u8>, blocks: &[MetadataBlock]) -> (r: Result<()>)
    ensures
        match r {
            Ok(_) => final(out)@ == old(out)@ + blocks_below(block_views(blocks@), 256)
                && forall|i: int|
                0 <= i < blocks@.len() ==> (#[trigger] blocks@[i]).body@.len() <= MAX_BLOCK_BODY,
            Err(e) => e == FormatError::TooLarge && exists|i: int|
                0 <= i < blocks@.len() && (#[trigger] blocks@[i]).body@.len() > MAX_BLOCK_BODY,
        },
{
    let ghost all = block_views(blocks@);
    let ghost start = out@;
    let mut t: u32 = 0;
    assert(out@ =~= start + blocks_below(all, 0));
    while t < 256
        invariant
            t <= 256,
            all == block_views(blocks@),
            out@ == start + blocks_below(all, t as int),
            forall|k: int|
                0 <= k < blocks@.len() && (#[trigger] blocks@[k]).block_type < t
                    ==> blocks@[k].body@.len() <= MAX_BLOCK_BODY,
        decreases 256 - t,
    {
        match push_blocks_of_type(out, blocks, t as u8) {
            Ok(_) => {},
            Err(e) => {
                return Err(e);
            },
        }
        assert(out@ =~= start + blocks_below(all, t + 1));
        t = t + 1;
    }
    Ok(())
}

/// The type of block that a binary tag is carried in.
fn block_type_of_key(key: &str) -> (r: Option<u8>)
    ensures
        r == binary_block_type(key@),
{
    if same_text(key, "APPLICATION") {
        Some(BLOCK_APPLICATION)
    } else if same_text(key, "CUESHEET") {
        Some(BLOCK_CUESHEET)
    } else {
        None
    }
}

proof fn binary_count_prefix(tags: Seq<BinaryTagInput>, n: int)
    requires
        0 <= n <= tags.len(),
    ensures
        0 <= binary_count(tags.take(n)) <= binary_count(tags) <= tags.len(),
    decreases tags.len(),
{
    if n == tags.len() {
        assert(tags.take(n) =~= tags);
        if n > 0 {
            binary_count_prefix(tags.drop_last(), n - 1);
        }
    } else {
        binary_count_prefix(tags.drop_last(), n);
        assert(tags.drop_last().take(n) =~= tags.take(n));
    }
}

proof fn art_count_prefix(arts: Seq<ArtInput>, n: int)
    requires
        0 <= n <= arts.len(),
    ensures
        0 <= art_count(arts.take(n)) <= art_count(arts) <= arts.len(),
    decreases arts.len(),
{
    if n == arts.len() {
        assert(arts.take(n) =~= arts);
        if n > 0 {
            art_count_prefix(arts.drop_last(), n - 1);
        }
    } else {
        art_count_prefix(arts.drop_last(), n);
        assert(arts.drop_last().take(n) =~= arts.take(n));
    }
}

/// How many of the binary tags are written.
fn count_binary(tags: &[BinaryTagInput]) -> (r: usize)
    ensures
        r == binary_count(tags@),
{
    let mut n: usize = 0;
    let mut i: usize = 0;
    while i < tags.len()
        invariant
            i <= tags@.len(),
            n <= i,
            n == binary_count(tags@.take(i as int)),
        decreases tags@.len() - i,
    {
        assert(tags@.take(i + 1).drop_last() =~= tags@.take(i as int));
        if block_type_of_key(tags[i].key.as_str()).is_some() && tags[i].len > 0 {
            n = n + 1;
        }
        i = i + 1;
    }
    assert(tags@.take(i as int) =~= tags@);
    n
}

/// How many of the pictures are written.
fn count_art(arts: &[ArtInput]) -> (r: usize)
    ensures
        r == art_count(arts@),
{
    let mut n: usize = 0;
    let mut i: usize = 0;
    while i < arts.len()
        invariant
            i <= arts@.len(),
            n <= i,
            n == art_count(arts@.take(i as int)),
        decreases arts@.len() - i,
    {
        assert(arts@.take(i + 1).drop_last() =~= arts@.take(i as int));
        if arts[i].data_len > 0 {
            n = n + 1;
        }
        i = i + 1;
    }
    assert(arts@.take(i as int) =~= arts@);
    n
}

/// Draft the binary tags.
fn draft_binary(draft: &mut Draft, tags: &[BinaryTagInput], last: bool) -> (r: Result<()>)
    ensures
        match r {
            Ok(_) => final(draft).model() == with_binary(old(draft).model(), tags@, last)
                && forall|i: int| 0 <= i < tags@.len() ==> binary_fits(#[trigger] tags@[i]),
            Err(e) => e == FormatError::TooLarge && exists|i: int|
                0 <= i < tags@.len() && !binary_fits(#[trigger] tags@[i]),
        },
{
    let ghost start = draft.model();
    let total: usize = count_binary(tags);
    let mut seen: usize = 0;
    let mut i: usize = 0;
    while i < tags.len()
        invariant
            i <= tags@.len(),
            total == binary_count(tags@),
            seen == binary_count(tags@.take(i as int)),
            draft.model() == with_binary(start, tags@.take(i as int), last && seen == total),
            forall|k: int| 0 <= k < i ==> binary_fits(#[trigger] tags@[k]),
        decreases tags@.len() - i,
    {
        proof {
            assert(tags@.take(i + 1).drop_last() =~= tags@.take(i as int));
            binary_count_prefix(tags@, i as int);
            binary_count_prefix(tags@, i + 1);
        }
        let bt = &tags[i];
        if let Some(t) = block_type_of_key(bt.key.as_str()) {
            if let Some(len) = BlobLen::new(bt.len) {
                if bt.len > MAX_BLOCK_BODY {
                    assert(!binary_fits(tags@[i as int]));
                    return Err(FormatError::TooLarge);
                }
                let mut header: Vec<u8> = Vec::new();
                match push_block_header(
                    &mut header,
                    t,
                    bt.len as usize,
                    last && seen + 1 == total,
                ) {
                    Ok(_) => {},
                    Err(e) => {
                        return Err(e);
                    },
                }
                proof {
                    let empty = Seq::<u8>::empty();
                    let h = block_header(t, bt.len as int, last && seen + 1 == total);
                    assert(empty + h =~= h);
                }
                draft.bytes(header.as_slice());
                draft.stream(Segment::BinaryTag { payload_id: bt.payload_id, len });
                seen = seen + 1;
            }
        }
        i = i + 1;
    }
    assert(tags@.take(i as int) =~= tags@);
    Ok(())
}

/// Draft the pictures.
fn draft_pictures(draft: &mut Draft, arts: &[ArtInput], last: bool) -> (r: Result<()>)
    ensures
        match r {
            Ok(_) => final(draft).model() == with_pictures(old(draft).model(), arts@, last)
                && forall|i: int| 0 <= i < arts@.len() ==> art_fits(#[trigger] arts@[i]),
            Err(e) => e == FormatError::TooLarge && exists|i: int|
                0 <= i < arts@.len() && !art_fits(#[trigger] arts@[i]),
        },
{
    let ghost start = draft.model();
    let total: usize = count_art(arts);
    let mut seen: usize = 0;
    let mut i: usize = 0;
    while i < arts.len()
        invariant
            i <= arts@.len(),
            total == art_count(arts@),
            seen == art_count(arts@.take(i as int)),
            draft.model() == with_pictures(start, arts@.take(i as int), last && seen == total),
            forall|k: int| 0 <= k < i ==> art_fits(#[trigger] arts@[k]),
        decreases arts@.len() - i,
    {
        proof {
            assert(arts@.take(i + 1).drop_last() =~= arts@.take(i as int));
            art_count_prefix(arts@, i as int);
            art_count_prefix(arts@, i + 1);
        }
        let art = &arts[i];
        if let Some(len) = BlobLen::new(art.data_len) {
            let framing: Vec<u8> = match picture_body_framing(art) {
                Ok(f) => f,
                Err(e) => {
                    assert(!art_fits(arts@[i as int]));
                    return Err(e);
                },
            };
            let flen: u64 = framing.len() as u64;
            if flen > MAX_BLOCK_BODY || art.data_len > MAX_BLOCK_BODY - flen {
                assert(!art_fits(arts@[i as int]));
                return Err(FormatError::TooLarge);
            }
            let body_len: u64 = flen + art.data_len;
            let mut header: Vec<u8> = Vec::new();
            let is_last: bool = last && seen + 1 == total;
            match push_block_header(&mut header, BLOCK_PICTURE, body_len as usize, is_last) {
                Ok(_) => {},
                Err(e) => {
                    return Err(e);
                },
            }
            append(&mut header, framing.as_slice());
            proof {
                let h = block_header(BLOCK_PICTURE, body_len as int, is_last);
                assert(header@ =~= h + framing@);
            }
            draft.bytes(header.as_slice());
            draft.stream(Segment::ArtImage { art_id: art.art_id, len });
            seen = seen + 1;
        }
        i = i + 1;
    }
    assert(arts@.take(i as int) =~= arts@);
    Ok(())
}

/// Build the ordered segment layout for a synthesized FLAC file:
/// `fLaC` + structural blocks (sorted by type) + a regenerated VORBIS_COMMENT +
/// streamed APPLICATION/CUESHEET binary tags + PICTURE blocks (one `ArtImage`
/// segment each) + the backing audio.  Structural blocks must be only
/// STREAMINFO/SEEKTABLE; APPLICATION/CUESHEET ride through `binary_tags`.
pub fn synthesize_layout(
    structural: &[MetadataBlock],
    audio_offset: u64,
    audio_length: u64,
    tags: &[TagInput],
    binary_tags: &[BinaryTagInput],
    arts: &[ArtInput],
) -> (r: Result<RegionLayout>)
    ensures
        ({
            let fits = flac_fits(block_views(structural@), tags@, binary_tags@, arts@);
            let segs = flac_segments(
                block_views(structural@),
                audio_offset as int,
                audio_length as int,
                tags@,
                binary_tags@,
                arts@,
            );
            match r {
                Ok(l) => fits && layout_fault(segs) is None && l.views() == segs,
                Err(FormatError::TooLarge) => !fits,
                Err(FormatError::InvalidLayout(e)) => fits && layout_fault(segs) == Some(e),
                Err(_) => false,
            }
        }),
{
    let ghost blocks = block_views(structural@);
    let nb: usize = count_binary(binary_tags);
    let na: usize = count_art(arts);
    let mut head: Vec<u8> = Vec::new();
    append(&mut head, FLAC_MARKER.as_slice());
    match push_structural(&mut head, structural) {
        Ok(_) => {
            assert forall|i: int| 0 <= i < blocks.len() implies (#[trigger] blocks[i]).1.len()
                <= MAX_BLOCK_BODY by {
                assert(structural@[i].body@.len() <= MAX_BLOCK_BODY);
            }
        },
        Err(e) => {
            proof {
                let i = choose|i: int|
                    0 <= i < structural@.len() && (#[trigger] structural@[i]).body@.len()
                        > MAX_BLOCK_BODY;
                assert(blocks[i].1.len() > MAX_BLOCK_BODY);
            }
            return Err(e);
        },
    }
    let vc: Vec<u8> = match crate::vorbiscomment::build(tags) {
        Ok(v) => v,
        Err(e) => {
            return Err(e);
        },
    };
    match push_block_header(&mut head, BLOCK_VORBIS_COMMENT, vc.len(), nb == 0 && na == 0) {
        Ok(_) => {},
        Err(e) => {
            return Err(e);
        },
    }
    append(&mut head, vc.as_slice());
    proof {
        assert(head@ =~= flac_head(blocks, tags@, nb == 0 && na == 0));
    }
    let mut draft = Draft::new();
    draft.bytes(head.as_slice());
    match draft_binary(&mut draft, binary_tags, na == 0) {
        Ok(_) => {},
        Err(e) => {
            return Err(e);
        },
    }
    match draft_pictures(&mut draft, arts, true) {
        Ok(_) => {},
        Err(e) => {
            return Err(e);
        },
    }
    draft.stream(Segment::BackingAudio { offset: audio_offset, len: audio_length });
    match RegionLayout::validated(draft.finish()) {
        Ok(l) => Ok(l),
        Err(e) => Err(FormatError::InvalidLayout(e)),
    }
}

/// A synthesized FLAC file serves the backing audio exactly once, whole, and last.
pub proof fn audio_served_once(
    structural: Seq<(u8, Seq<u8>)>,
    audio_offset: int,
    audio_length: int,
    tags: Seq<TagInput>,
    binary_tags: Seq<BinaryTagInput>,
    arts: Seq<ArtInput>,
)
    ensures
        crate::layout::audio_once_at_end(
            flac_segments(structural, audio_offset, audio_length, tags, binary_tags, arts),
            audio_offset,
            audio_length,
        ),
{
    let nb = binary_count(binary_tags);
    let na = art_count(arts);
    let d0 = with_bytes(empty_draft(), flac_head(structural, tags, nb == 0 && na == 0));
    binary_is_no_audio(d0, binary_tags, na == 0);
    pictures_are_no_audio(with_binary(d0, binary_tags, na == 0), arts, true);
    crate::layout::draft_closed_by_audio(
        flac_draft(structural, tags, binary_tags, arts),
        audio_offset,
        audio_length,
    );
}

proof fn binary_is_no_audio(d: DraftModel, tags: Seq<BinaryTagInput>, last: bool)
    requires
        crate::layout::no_audio(d.done),
    ensures
        crate::layout::no_audio(with_binary(d, tags, last).done),
    decreases tags.len(),
{
    if tags.len() > 0 {
        binary_is_no_audio(d, tags.drop_last(), false);
        binary_is_no_audio(d, tags.drop_last(), last);
    }
}

proof fn pictures_are_no_audio(d: DraftModel, arts: Seq<ArtInput>, last: bool)
    requires
        crate::layout::no_audio(d.done),
    ensures
        crate::layout::no_audio(with_pictures(d, arts, last).done),
    decreases arts.len(),
{
    if arts.len() > 0 {
        pictures_are_no_audio(d, arts.drop_last(), false);
        pictures_are_no_audio(d, arts.drop_last(), last);
    }
}

/// What the first comment block from the block at `p` on holds: nothing if there is none,
/// `None` where the walk or the comments are malformed.
pub open spec fn comments_from(d: Seq<u8>, p: int) -> Option<Seq<(Seq<char>, Seq<char>)>>
    decreases d.len() - p,
{
    if !block_whole(d, p) {
        None
    } else if block_type_at(d, p) == BLOCK_VORBIS_COMMENT {
        body_pairs(block_body(d, p))
    } else if block_is_last(d, p) {
        Some(Seq::empty())
    } else {
        comments_from(d, block_end(d, p))
    }
}

/// Read the existing VORBIS_COMMENT block from a complete FLAC file, returning
/// `(FIELD, value)` pairs in order. Comments without a `=` are skipped. Returns
/// an empty vec if there is no comment block. Used by the scanner to seed tags.
pub fn read_vorbis_comments(data: &[u8]) -> (r: Result<Vec<(String, String)>>)
    ensures
        match r {
            Ok(v) => has_marker(data@) && comments_from(data@, 4) == Some(pair_views(v@)),
            Err(FormatError::NotFlac) => !has_marker(data@),
            Err(FormatError::Malformed) => has_marker(data@) && comments_from(data@, 4) is None,
            Err(_) => false,
        },
{
    if !starts_with_marker(data) {
        return Err(FormatError::NotFlac);
    }
    let mut pos: usize = 4;
    loop
        invariant
            4 <= pos <= data@.len(),
            has_marker(data@),
            comments_from(data@, 4) == comments_from(data@, pos as int),
        decreases data@.len() - pos,
    {
        let b: BlockAt = match block_at(data, pos) {
            Some(b) => b,
            None => {
                return Err(FormatError::Malformed);
            },
        };
        if b.block_type == BLOCK_VORBIS_COMMENT {
            return crate::vorbiscomment::parse(
                vstd::slice::slice_subrange(data, b.body_start, b.body_end),
            );
        }
        if b.is_last {
            let none: Vec<(String, String)> = Vec::new();
            assert(pair_views(none@) =~= Seq::empty());
            return Ok(none);
        }
        pos = b.body_end;
    }
}

/// The pictures of the PICTURE blocks from the block at `p` on; `None` where the walk or a
/// picture is malformed.
pub open spec fn pictures_from(d: Seq<u8>, p: int) -> Option<Seq<PictureModel>>
    decreases d.len() - p,
{
    if !block_whole(d, p) {
        None
    } else {
        let here = if block_type_at(d, p) == BLOCK_PICTURE {
            match picture_of(block_body(d, p)) {
                Some(pic) => Some(seq![pic]),
                None => None,
            }
        } else {
            Some(Seq::empty())
        };
        let rest = if block_is_last(d, p) {
            Some(Seq::empty())
        } else {
            pictures_from(d, block_end(d, p))
        };
        match (here, rest) {
            (Some(a), Some(b)) => Some(a + b),
            _ => None,
        }
    }
}

/// Extract all PICTURE blocks from a complete FLAC file as embedded pictures, for
/// scan-time art ingestion. Returns an empty vec if there are none.
pub fn read_pictures(data: &[u8]) -> (r: Result<Vec<EmbeddedPicture>>)
    ensures
        match r {
            Ok(v) => has_marker(data@) && pictures_from(data@, 4) == Some(picture_views(v@)),
            Err(FormatError::NotFlac) => !has_marker(data@),
            Err(FormatError::Malformed) => has_marker(data@) && pictures_from(data@, 4) is None,
            Err(_) => false,
        },
{
    if !starts_with_marker(data) {
        return Err(FormatError::NotFlac);
    }
    let ghost d = data@;
    let mut pos: usize = 4;
    let mut out: Vec<EmbeddedPicture> = Vec::new();
    proof {
        if let Some(all) = pictures_from(d, 4) {
            assert(picture_views(out@) + all =~= all);
        }
    }
    loop
        invariant
            d == data@,
            4 <= pos <= d.len(),
            has_marker(d),
            match pictures_from(d, pos as int) {
                None => pictures_from(d, 4) is None,
                Some(rest) => pictures_from(d, 4) == Some(picture_views(out@) + rest),
            },
        decreases d.len() - pos,
    {
        let b: BlockAt = match block_at(data, pos) {
            Some(b) => b,
            None => {
                return Err(FormatError::Malformed);
            },
        };
        let ghost before = picture_views(out@);
        let ghost p = pos as int;
        if b.block_type == BLOCK_PICTURE {
            match parse_picture_block(
                vstd::slice::slice_subrange(data, b.body_start, b.body_end),
            ) {
                Ok(pic) => {
                    push_embedded(&mut out, pic);
                },
                Err(e) => {
                    return Err(e);
                },
            }
        }
        proof {
            let here = if block_type_at(d, p) == BLOCK_PICTURE {
                seq![picture_of(block_body(d, p))->0]
            } else {
                Seq::empty()
            };
            assert(picture_views(out@) =~= before + here);
            if let Some(rest) = pictures_from(d, b.body_end as int) {
                assert(before + (here + rest) =~= picture_views(out@) + rest);
            }
            assert(before + (here + Seq::<PictureModel>::empty()) =~= picture_views(out@));
        }
        if b.is_last {
            return Ok(out);
        }
        pos = b.body_end;
    }
}

} // verus!
