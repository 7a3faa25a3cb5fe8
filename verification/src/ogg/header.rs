//! Reading an Ogg stream: its header packets, the tags and pictures in them, and where
//! the audio lies.

use super::b64::b64_decoded;
use super::b64::b64_text;
use super::b64::b64_text_injective;
use super::b64::base64_decode;
use super::page::crc_matches;
use super::page::lace_sum_range;
use super::page::packet_model;
use super::page::packet_models;
use super::page::packets_of;
use super::page::page_starts;
use super::page::page_table;
use super::page::page_total_len;
use super::page::pages_countable;
use super::page::parse_page;
use super::page::push_packet;
use super::page::read_packets;
use super::page::verify_page_crc;
use super::page::PacketModel;
use super::page::PacketReader;
use super::page::ReadPacket;
use super::page::MAX_PAGE_BYTES;
use crate::bytes::be16;
use crate::bytes::copy_range;
use crate::bytes::le32;
use crate::bytes::same_bytes;
use crate::error::FormatError;
use crate::error::Result;
use crate::flac::parse_picture_block;
use crate::flac::picture_of;
use crate::flac::picture_views;
use crate::flac::push_embedded;
use crate::flac::PictureModel;
use crate::input::EmbeddedPicture;
use crate::probe::Extent;
use crate::text::equal_ignoring_case;
use crate::text::same_ignoring_case;
use crate::text::utf8;
use crate::vorbiscomment::body_pairs;
use crate::vorbiscomment::pair_views;
use crate::vorbiscomment::parse;
use crate::vorbiscomment::push_pair;
use vstd::prelude::*;
use vstd::string::*;

verus! {

/// The codec carried inside an Ogg logical bitstream that we synthesize.
#[derive(Debug, Clone, Copy, PartialEq, Eq, Structural)]
pub enum Codec {
    Opus,
    Vorbis,
    OggFlac,
}

/// `OpusHead`.
pub const OPUS_HEAD: [u8; 8] = [0x4f, 0x70, 0x75, 0x73, 0x48, 0x65, 0x61, 0x64];

/// `0x01 "vorbis"`.
pub const VORBIS_ID: [u8; 7] = [0x01, 0x76, 0x6f, 0x72, 0x62, 0x69, 0x73];

/// `0x7F "FLAC"`.
pub const OGGFLAC_ID: [u8; 5] = [0x7f, 0x46, 0x4c, 0x41, 0x43];

/// Byte offset of the STREAMINFO block header within the OggFLAC mapping packet:
/// `0x7F "FLAC"` (5) + major + minor (2) + count (2) + `"fLaC"` (4).
pub const OGGFLAC_STREAMINFO_POS: usize = 13;

/// The last-metadata-block flag, the high bit of a FLAC block header's first byte.
pub const FLAC_LAST_BLOCK: u8 = 0x80;

/// The reserved-invalid FLAC block type. A native FLAC audio packet opens with the
/// `0xFF` frame sync, whose low seven bits are exactly this value, which is what
/// makes the low bits the discriminator the Ogg mapping names for telling a
/// metadata packet from the first audio packet.
pub const FLAC_BLOCK_TYPE_INVALID: u8 = 127;

/// The comment field that carries a picture.
pub const PICTURE_FIELD: &'static str = "METADATA_BLOCK_PICTURE";

/// `d` starts with `p`.
pub open spec fn begins(d: Seq<u8>, p: Seq<u8>) -> bool {
    p.len() <= d.len() && d.take(p.len() as int) == p
}

/// True when `data` starts with `prefix`.
fn starts_with(data: &[u8], prefix: &[u8]) -> (r: bool)
    ensures
        r == begins(data@, prefix@),
{
    if data.len() < prefix.len() {
        return false;
    }
    let front = vstd::slice::slice_subrange(data, 0, prefix.len());
    assert(front@ =~= data@.take(prefix@.len() as int));
    same_bytes(front, prefix)
}

/// The codec that a first packet names.
pub open spec fn codec_of(p: Seq<u8>) -> Option<Codec> {
    if begins(p, OPUS_HEAD@) {
        Some(Codec::Opus)
    } else if begins(p, VORBIS_ID@) {
        Some(Codec::Vorbis)
    } else if begins(p, OGGFLAC_ID@) {
        Some(Codec::OggFlac)
    } else {
        None
    }
}

/// The codec of a stream, told from its first packet.
pub fn detect_codec(first_packet: &[u8]) -> (r: Result<Codec>)
    ensures
        match r {
            Ok(c) => codec_of(first_packet@) == Some(c),
            Err(e) => e == FormatError::Malformed && codec_of(first_packet@) is None,
        },
{
    if starts_with(first_packet, OPUS_HEAD.as_slice()) {
        Ok(Codec::Opus)
    } else if starts_with(first_packet, VORBIS_ID.as_slice()) {
        Ok(Codec::Vorbis)
    } else if starts_with(first_packet, OGGFLAC_ID.as_slice()) {
        Ok(Codec::OggFlac)
    } else {
        Err(FormatError::Malformed)
    }
}

/// For OggFLAC, packet 0 is `0x7F "FLAC" major minor count(2, BE) "fLaC" STREAMINFO`.
/// The 16-bit big-endian count is the number of metadata-block packets that follow
/// packet 0, or, when it is zero, that the number is *unknown*. See
/// [`oggflac_header_packets`].
pub fn oggflac_following_packets(first_packet: &[u8]) -> (r: Result<usize>)
    ensures
        match r {
            Ok(n) => first_packet@.len() >= 9 && n == be16(first_packet@, 7),
            Err(e) => e == FormatError::Malformed && first_packet@.len() < 9,
        },
{
    if first_packet.len() < 9 {
        return Err(FormatError::Malformed);
    }
    Ok(first_packet[7] as usize * 0x100 + first_packet[8] as usize)
}

/// A packet that is a FLAC metadata block, not an audio frame.
pub open spec fn is_metadata_packet(p: Seq<u8>) -> bool {
    p.len() > 0 && p[0] % 0x80 != FLAC_BLOCK_TYPE_INVALID
}

/// A packet flagged as the last metadata block.
pub open spec fn is_last_packet(p: Seq<u8>) -> bool {
    p.len() > 0 && p[0] >= FLAC_LAST_BLOCK
}

/// How many packets a run of metadata blocks ends after, looking from packet `i` on: the
/// run ends with the first block flagged last, and there is none if an audio packet, or
/// the end of the data, comes before it.
pub open spec fn flagged_run(pk: Seq<PacketModel>, i: int) -> Option<int>
    decreases pk.len() - i,
{
    if i < 0 || i >= pk.len() || !is_metadata_packet(pk[i].data) {
        None
    } else if is_last_packet(pk[i].data) {
        Some(i + 1)
    } else {
        flagged_run(pk, i + 1)
    }
}

/// How many header packets an OggFLAC stream has. A nonzero count is taken at its word;
/// zero means unknown, and the run is found by the last-block flag.
pub open spec fn oggflac_run(pk: Seq<PacketModel>) -> Option<int> {
    let m = pk[0].data;
    if m.len() < 9 {
        None
    } else if be16(m, 7) > 0 {
        Some(1 + be16(m, 7))
    } else if m.len() > OGGFLAC_STREAMINFO_POS && m[OGGFLAC_STREAMINFO_POS as int]
        >= FLAC_LAST_BLOCK {
        Some(1)
    } else {
        flagged_run(pk, 1)
    }
}

/// How many header packets a stream has, if all of them are there.
pub open spec fn header_run(pk: Seq<PacketModel>) -> Option<int> {
    if pk.len() == 0 {
        None
    } else {
        let n = match codec_of(pk[0].data) {
            Some(Codec::Opus) => Some(2int),
            Some(Codec::Vorbis) => Some(3int),
            Some(Codec::OggFlac) => oggflac_run(pk),
            None => None,
        };
        match n {
            Some(k) => if k <= pk.len() {
                Some(k)
            } else {
                None
            },
            None => None,
        }
    }
}

/// A run found by the flag lies within the packets there are.
pub proof fn flagged_run_range(pk: Seq<PacketModel>, i: int)
    requires
        0 <= i,
    ensures
        match flagged_run(pk, i) {
            Some(n) => i < n <= pk.len(),
            None => true,
        },
    decreases pk.len() - i,
{
    if i < pk.len() && is_metadata_packet(pk[i].data) && !is_last_packet(pk[i].data) {
        flagged_run_range(pk, i + 1);
    }
}

/// Reassemble an OggFLAC header run: the mapping packet plus the metadata-block
/// packets that follow it.
///
/// A nonzero count is taken at its word: the mapping requires a count it gives to
/// be the true number of following packets, and zero is its escape hatch for
/// *unknown*, not a statement that there are none. Metadata packets still follow.
///
/// So an unknown count discovers the run by the rule the format defines: metadata
/// blocks run until one carries the last-block flag. STREAMINFO is itself a
/// metadata block, so a mapping packet that flags it as the last one ends the run
/// at packet 0. A run that reaches the audio packet without ever flagging its last
/// block has no discoverable end: malformed, rather than something to guess at.
fn oggflac_header_packets(data: &[u8], mapping: &[u8]) -> (r: Result<Vec<ReadPacket>>)
    requires
        pages_countable(data@),
        packets_of(data@).len() > 0,
        mapping@ == packets_of(data@)[0].data,
    ensures
        ({
            let pk = packets_of(data@);
            match r {
                Ok(v) => match oggflac_run(pk) {
                    Some(n) => n <= pk.len() && packet_models(v@) == pk.take(n),
                    None => false,
                },
                Err(e) => e == FormatError::Malformed && match oggflac_run(pk) {
                    Some(n) => n > pk.len(),
                    None => true,
                },
            }
        }),
{
    let ghost pk = packets_of(data@);
    let declared: usize = match oggflac_following_packets(mapping) {
        Ok(n) => n,
        Err(e) => {
            return Err(e);
        },
    };
    if declared > 0 {
        return read_packets(data, 1 + declared);
    }
    if mapping.len() > OGGFLAC_STREAMINFO_POS && mapping[OGGFLAC_STREAMINFO_POS]
        >= FLAC_LAST_BLOCK {
        return read_packets(data, 1);
    }
    let mut reader = PacketReader::new(data);
    let mut out: Vec<ReadPacket> = Vec::new();
    assert(packet_models(out@) + reader.rest() =~= pk);
    proof {
        flagged_run_range(pk, 1);
    }
    loop
        invariant
            reader.wf(),
            pk == packets_of(data@),
            pk.len() > 0,
            packet_models(out@) + reader.rest() == pk,
            oggflac_run(pk) == flagged_run(pk, 1),
            out@.len() >= 1 ==> flagged_run(pk, 1) == flagged_run(pk, out@.len() as int),
        decreases pk.len() - out@.len(),
    {
        let ghost before = packet_models(out@);
        match reader.next() {
            Some(p) => {
                let ghost m = packet_model(p);
                let first: bool = out.len() == 0;
                let metadata: bool = p.data.len() > 0 && p.data[0] % 0x80
                    != FLAC_BLOCK_TYPE_INVALID;
                let last: bool = p.data.len() > 0 && p.data[0] >= FLAC_LAST_BLOCK;
                push_packet(&mut out, p);
                proof {
                    assert(before + (seq![m] + reader.rest()) =~= packet_models(out@)
                        + reader.rest());
                    assert(pk[before.len() as int] == m);
                    assert(packet_models(out@) =~= pk.take(out@.len() as int));
                }
                if !first {
                    if !metadata {
                        return Err(FormatError::Malformed);
                    }
                    if last {
                        return Ok(out);
                    }
                }
            },
            None => {
                return Err(FormatError::Malformed);
            },
        }
    }
}

/// The parsed Ogg header region: codec, serial, the reassembled header packets,
/// the number of header pages, and where audio begins.
#[derive(Debug, Clone, PartialEq, Eq)]
pub struct OggHeader {
    pub codec: Codec,
    pub serial: u32,
    pub packets: Vec<Vec<u8>>,
    pub header_pages: u32,
    pub audio_offset: u64,
}

/// A header region as a mathematical value.
pub struct HeaderModel {
    pub codec: Codec,
    pub serial: u32,
    pub packets: Seq<Seq<u8>>,
    pub header_pages: int,
    pub audio_offset: int,
}

/// Byte strings as mathematical values.
pub open spec fn byte_strings(s: Seq<Vec<u8>>) -> Seq<Seq<u8>> {
    Seq::new(s.len(), |i: int| s[i]@)
}

/// What a header region stands for.
pub open spec fn header_model(h: OggHeader) -> HeaderModel {
    HeaderModel {
        codec: h.codec,
        serial: h.serial,
        packets: byte_strings(h.packets@),
        header_pages: h.header_pages as int,
        audio_offset: h.audio_offset as int,
    }
}

/// From the page at `p` up to `end`, every page belongs to `serial`, and none but the
/// first may start a bitstream.
pub open spec fn single_stream(d: Seq<u8>, p: int, end: int, serial: int, first: bool) -> bool
    decreases
            if p < end {
                end - p
            } else {
                0
            },
{
    if p >= end {
        true
    } else {
        &&& page_starts(d, p)
        &&& le32(d, p + 14) == serial
        &&& first || (d[p + 5] / 2) % 2 == 0
        &&& page_total_len(d, p) > 0
        &&& single_stream(d, p + page_total_len(d, p), end, serial, false)
    }
}

/// Reject multiplexed/chained Ogg: within the header region every page must share
/// the first page's serial and only the first page may carry BOS.
fn validate_single_bitstream(data: &[u8], audio_offset: u64, serial: u32) -> (r: Result<()>)
    requires
        pages_countable(data@),
        audio_offset <= data@.len() + MAX_PAGE_BYTES,
    ensures
        match r {
            Ok(_) => single_stream(data@, 0, audio_offset as int, serial as int, true),
            Err(e) => e == FormatError::Malformed && !single_stream(
                data@,
                0,
                audio_offset as int,
                serial as int,
                true,
            ),
        },
{
    let mut pos: usize = 0;
    let mut first: bool = true;
    while (pos as u64) < audio_offset
        invariant
            pages_countable(data@),
            audio_offset <= data@.len() + MAX_PAGE_BYTES,
            pos <= data@.len() + MAX_PAGE_BYTES,
            single_stream(data@, 0, audio_offset as int, serial as int, true) == single_stream(
                data@,
                pos as int,
                audio_offset as int,
                serial as int,
                first,
            ),
        decreases
                if pos < audio_offset {
                    audio_offset - pos
                } else {
                    0
                },
    {
        let h = match parse_page(data, pos) {
            Ok(h) => h,
            Err(e) => {
                return Err(e);
            },
        };
        proof {
            lace_sum_range(page_table(data@, pos as int));
        }
        if h.serial != serial {
            return Err(FormatError::Malformed);
        }
        if !first && (h.header_type / 2) % 2 != 0 {
            return Err(FormatError::Malformed);
        }
        first = false;
        pos = pos + h.total_len();
    }
    Ok(())
}

/// The header region at the front of `d`, if it is whole and belongs to one bitstream.
pub open spec fn header_of(d: Seq<u8>) -> Option<HeaderModel> {
    let pk = packets_of(d);
    match header_run(pk) {
        Some(n) => {
            let last = pk[n - 1];
            if n >= 1 && single_stream(d, 0, last.end_offset, le32(d, 14), true) {
                Some(
                    HeaderModel {
                        codec: codec_of(pk[0].data)->0,
                        serial: le32(d, 14) as u32,
                        packets: Seq::new(n as nat, |i: int| pk[i].data),
                        header_pages: last.pages_through_end,
                        audio_offset: last.end_offset,
                    },
                )
            } else {
                None
            }
        },
        None => None,
    }
}

/// The bytes of a run of packets.
fn packet_data(pkts: &Vec<ReadPacket>) -> (r: Vec<Vec<u8>>)
    ensures
        byte_strings(r@) == Seq::new(pkts@.len(), |i: int| pkts@[i].data@),
{
    let mut out: Vec<Vec<u8>> = Vec::new();
    let mut i: usize = 0;
    while i < pkts.len()
        invariant
            i <= pkts@.len(),
            out@.len() == i,
            forall|k: int| 0 <= k < i ==> (#[trigger] out@[k])@ == pkts@[k].data@,
        decreases pkts@.len() - i,
    {
        let d = &pkts[i].data;
        let c = copy_range(d.as_slice(), 0, d.len());
        assert(c@ =~= d@);
        out.push(c);
        i = i + 1;
    }
    assert(byte_strings(out@) =~= Seq::new(pkts@.len(), |i: int| pkts@[i].data@));
    out
}

/// A packet ends on a page that starts in the data.
proof fn packet_ends_in_reach(d: Seq<u8>, p: int, pages: int, i: int, cur: Seq<u8>, k: int)
    requires
        0 <= k < super::page::packets_from(d, p, pages, i, cur).len(),
        0 <= pages,
    ensures
        0 <= super::page::packets_from(d, p, pages, i, cur)[k].end_offset <= d.len()
            + MAX_PAGE_BYTES,
    decreases d.len() - p, d[p + 26] - i,
{
    let all = super::page::packets_from(d, p, pages, i, cur);
    if page_starts(d, p) && i >= 0 {
        lace_sum_range(page_table(d, p));
        if i >= d[p + 26] {
            let next = p + page_total_len(d, p);
            if p < next <= d.len() {
                packet_ends_in_reach(d, next, pages + 1, 0, cur, k);
            }
        } else {
            let start = super::page::segment_start(d, p, i);
            let lace = d[p + 27 + i];
            if start + lace <= d.len() {
                let data = cur + d.subrange(start, start + lace);
                if lace < 255 {
                    let tail = super::page::packets_from(d, p, pages, i + 1, Seq::empty());
                    if k > 0 {
                        packet_ends_in_reach(d, p, pages, i + 1, Seq::empty(), k - 1);
                        assert(all[k] == tail[k - 1]);
                    }
                } else {
                    packet_ends_in_reach(d, p, pages, i + 1, data, k);
                }
            }
        }
    }
}

/// Parse the header region from the front of a logical bitstream. `data` may be the
/// whole file or just `[0, audio_offset)`; either way parsing stops once all header
/// packets are reassembled.
pub fn read_header(data: &[u8]) -> (r: Result<OggHeader>)
    requires
        pages_countable(data@),
    ensures
        match r {
            Ok(h) => header_of(data@) == Some(header_model(h)),
            Err(e) => e == FormatError::Malformed && header_of(data@) is None,
        },
{
    let ghost pk = packets_of(data@);
    let serial: u32 = match parse_page(data, 0) {
        Ok(h) => h.serial,
        Err(e) => {
            return Err(e);
        },
    };
    // Reassemble the first packet to detect the codec and (for OggFLAC) the count.
    let first = match read_packets(data, 1) {
        Ok(v) => v,
        Err(e) => {
            return Err(e);
        },
    };
    proof {
        assert(packet_models(first@).len() == pk.take(1).len());
        assert(packet_models(first@)[0] == pk.take(1)[0]);
    }
    let mapping = &first[0].data;
    let codec = match detect_codec(mapping.as_slice()) {
        Ok(c) => c,
        Err(e) => {
            return Err(e);
        },
    };
    let read = match codec {
        Codec::Opus => read_packets(data, 2),
        Codec::Vorbis => read_packets(data, 3),
        Codec::OggFlac => oggflac_header_packets(data, mapping.as_slice()),
    };
    let pkts = match read {
        Ok(v) => v,
        Err(e) => {
            return Err(e);
        },
    };
    let ghost n = header_run(pk)->0;
    proof {
        if codec is OggFlac {
            flagged_run_range(pk, 1);
        }
        assert(packet_models(pkts@).len() == pk.take(n).len());
        assert(packet_models(pkts@)[n - 1] == pk[n - 1]);
        packet_ends_in_reach(data@, 0, 1, 0, Seq::empty(), n - 1);
    }
    let last = &pkts[pkts.len() - 1];
    let audio_offset: u64 = last.end_offset as u64;
    let header_pages: u32 = last.pages_through_end;
    match validate_single_bitstream(data, audio_offset, serial) {
        Ok(_) => {},
        Err(e) => {
            return Err(e);
        },
    }
    let packets = packet_data(&pkts);
    proof {
        assert forall|i: int| 0 <= i < n implies pkts@[i].data@ == pk[i].data by {
            assert(packet_models(pkts@)[i] == pk.take(n)[i]);
        }
        assert(byte_strings(packets@) =~= Seq::new(n as nat, |i: int| pk[i].data));
    }
    Ok(OggHeader { codec, serial, packets, header_pages, audio_offset })
}

/// The bytes in front of the VorbisComment body in a comment packet: `"OpusTags"`,
/// `0x03 "vorbis"`, or a FLAC metadata block header (type + 24-bit length).
pub open spec fn comment_prefix(codec: Codec) -> int {
    match codec {
        Codec::Opus => 8,
        Codec::Vorbis => 7,
        Codec::OggFlac => 4,
    }
}

/// Strip a codec's comment-packet prefix, returning the VorbisComment body slice.
pub fn comment_body(codec: Codec, packet: &[u8]) -> (r: Result<&[u8]>)
    ensures
        match r {
            Ok(b) => packet@.len() >= comment_prefix(codec) && b@ == packet@.skip(
                comment_prefix(codec),
            ),
            Err(e) => e == FormatError::Malformed && packet@.len() < comment_prefix(codec),
        },
{
    let prefix: usize = match codec {
        Codec::Opus => 8,
        Codec::Vorbis => 7,
        Codec::OggFlac => 4,
    };
    if packet.len() < prefix {
        return Err(FormatError::Malformed);
    }
    let b = vstd::slice::slice_subrange(packet, prefix, packet.len());
    assert(b@ =~= packet@.skip(prefix as int));
    Ok(b)
}

/// A packet that is a FLAC block of type `t`.
pub open spec fn is_block_of_type(p: Seq<u8>, t: int) -> bool {
    p.len() > 0 && p[0] % 0x80 == t
}

/// The first packet from `i` on that is a comment block; 0 if there is none.
pub open spec fn comment_block_from(packets: Seq<Seq<u8>>, i: int) -> int
    decreases packets.len() - i,
{
    if i >= packets.len() {
        0
    } else if is_block_of_type(packets[i], 4) {
        i
    } else {
        comment_block_from(packets, i + 1)
    }
}

/// The index of the comment packet; 0 if there is none.
pub open spec fn comment_index(codec: Codec, packets: Seq<Seq<u8>>) -> int {
    match codec {
        Codec::Opus => 1,
        Codec::Vorbis => 1,
        Codec::OggFlac => comment_block_from(packets, 1),
    }
}

/// The index of the comment packet within the reassembled header packets. For OggFLAC,
/// packet 0 is the mapping header; the VORBIS_COMMENT block is whichever following packet
/// has block type 4, and 0 says that there is none.
pub fn comment_packet_index(header: &OggHeader) -> (r: usize)
    ensures
        r == comment_index(header.codec, byte_strings(header.packets@)),
{
    match header.codec {
        Codec::Opus => 1,
        Codec::Vorbis => 1,
        Codec::OggFlac => {
            let ghost packets = byte_strings(header.packets@);
            let mut i: usize = 1;
            while i < header.packets.len()
                invariant
                    1 <= i,
                    header.codec is OggFlac,
                    packets == byte_strings(header.packets@),
                    comment_block_from(packets, 1) == comment_block_from(packets, i as int),
                decreases header.packets@.len() - i,
            {
                let p = &header.packets[i];
                assert(packets[i as int] == p@);
                if p.len() > 0 && p[0] % 0x80 == 4 {
                    return i;
                }
                i = i + 1;
            }
            0
        },
    }
}

/// The pairs that are not pictures.
pub open spec fn text_pairs(pairs: Seq<(Seq<char>, Seq<char>)>) -> Seq<(Seq<char>, Seq<char>)>
    decreases pairs.len(),
{
    if pairs.len() == 0 {
        Seq::empty()
    } else if same_ignoring_case(pairs.last().0, PICTURE_FIELD@) {
        text_pairs(pairs.drop_last())
    } else {
        text_pairs(pairs.drop_last()).push(pairs.last())
    }
}

/// The pairs of a header's comment packet: none if it has no such packet, `None` where it
/// is malformed.
pub open spec fn comment_pairs(h: HeaderModel) -> Option<Seq<(Seq<char>, Seq<char>)>> {
    let i = comment_index(h.codec, h.packets);
    if i == 0 {
        Some(Seq::empty())
    } else if h.packets[i].len() < comment_prefix(h.codec) {
        None
    } else {
        body_pairs(h.packets[i].skip(comment_prefix(h.codec)))
    }
}

/// An Opus or Vorbis header has its comment packet.
proof fn header_has_packets(d: Seq<u8>)
    requires
        header_of(d) is Some,
    ensures
        header_of(d)->0.packets.len() >= 1,
        !(header_of(d)->0.codec is OggFlac) ==> header_of(d)->0.packets.len() >= 2,
{
    flagged_run_range(packets_of(d), 1);
}

proof fn comment_block_from_range(packets: Seq<Seq<u8>>, i: int)
    requires
        1 <= i,
    ensures
        comment_block_from(packets, i) == 0 || i <= comment_block_from(packets, i) < packets.len(),
    decreases packets.len() - i,
{
    if i < packets.len() && !is_block_of_type(packets[i], 4) {
        comment_block_from_range(packets, i + 1);
    }
}

/// The pairs in the comment packet of a parsed header.
fn read_comment(header: &OggHeader) -> (r: Result<Vec<(String, String)>>)
    requires
        !(header.codec is OggFlac) ==> header.packets@.len() >= 2,
    ensures
        match r {
            Ok(v) => comment_pairs(header_model(*header)) == Some(pair_views(v@)),
            Err(e) => e == FormatError::Malformed && comment_pairs(header_model(*header)) is None,
        },
{
    proof {
        comment_block_from_range(byte_strings(header.packets@), 1);
    }
    let idx: usize = comment_packet_index(header);
    if idx == 0 {
        let none: Vec<(String, String)> = Vec::new();
        assert(pair_views(none@) =~= Seq::empty());
        return Ok(none);
    }
    match comment_body(header.codec, header.packets[idx].as_slice()) {
        Ok(body) => parse(body),
        Err(e) => Err(e),
    }
}

/// Read existing `(FIELD, value)` tags from a complete file. Empty if none. Cover art rides
/// in the comment as a base64 METADATA_BLOCK_PICTURE entry, but it has its own channel
/// (`read_pictures`). Excluding it keeps this text-only and prevents the art being stored,
/// and re-synthesized, twice.
pub fn read_tags(data: &[u8]) -> (r: Result<Vec<(String, String)>>)
    requires
        pages_countable(data@),
    ensures
        match r {
            Ok(v) => header_of(data@) is Some && comment_pairs(header_of(data@)->0) is Some
                && pair_views(v@) == text_pairs(comment_pairs(header_of(data@)->0)->0),
            Err(e) => e == FormatError::Malformed && (header_of(data@) is None || comment_pairs(
                header_of(data@)->0,
            ) is None),
        },
{
    let header = match read_header(data) {
        Ok(h) => h,
        Err(e) => {
            return Err(e);
        },
    };
    proof {
        header_has_packets(data@);
        assert(header.packets@.len() == header_of(data@)->0.packets.len());
    }
    let pairs = match read_comment(&header) {
        Ok(v) => v,
        Err(e) => {
            return Err(e);
        },
    };
    let ghost all = pair_views(pairs@);
    let mut out: Vec<(String, String)> = Vec::new();
    let mut i: usize = 0;
    assert(pair_views(out@) =~= Seq::empty());
    while i < pairs.len()
        invariant
            i <= pairs@.len(),
            all == pair_views(pairs@),
            pair_views(out@) == text_pairs(all.take(i as int)),
        decreases pairs@.len() - i,
    {
        proof {
            assert(all.take(i + 1).drop_last() =~= all.take(i as int));
            assert(all.take(i + 1).last() == (pairs@[i as int].0@, pairs@[i as int].1@));
        }
        let pair = &pairs[i];
        if !equal_ignoring_case(pair.0.as_str(), PICTURE_FIELD) {
            push_pair(&mut out, pair.0.clone(), pair.1.clone());
        }
        i = i + 1;
    }
    assert(all.take(i as int) =~= all);
    Ok(out)
}

/// An embedded picture the reader skipped because it could not be decoded, so
/// the caller can log the lossy drop (the format layer has no logging facade).
/// Carries only a reason and the skipped value's encoded size, never the bytes.
#[derive(Debug, Clone, PartialEq, Eq)]
pub struct PictureDrop {
    /// Why the picture was skipped.
    pub reason: &'static str,
    /// Size of the skipped value as it appeared in the file, in bytes.
    pub bytes: usize,
}

/// Skipped pictures as mathematical values: reason and size.
pub open spec fn drop_views(s: Seq<PictureDrop>) -> Seq<(Seq<char>, int)> {
    Seq::new(s.len(), |i: int| (s[i].reason@, s[i].bytes as int))
}

fn push_drop(out: &mut Vec<PictureDrop>, reason: &'static str, bytes: usize)
    ensures
        drop_views(final(out)@) == drop_views(old(out)@).push((reason@, bytes as int)),
{
    out.push(PictureDrop { reason, bytes });
    assert(drop_views(out@) =~= drop_views(old(out)@).push((reason@, bytes as int)));
}

/// Pictures read, and pictures skipped.
pub struct PicturesModel {
    pub pictures: Seq<PictureModel>,
    pub dropped: Seq<(Seq<char>, int)>,
}

/// A picture block body added to what was read: the picture, or a drop if it is malformed.
pub open spec fn with_picture_block(m: PicturesModel, body: Seq<u8>) -> PicturesModel {
    match picture_of(body) {
        Some(p) => PicturesModel { pictures: m.pictures.push(p), dropped: m.dropped },
        None => PicturesModel {
            pictures: m.pictures,
            dropped: m.dropped.push(("malformed PICTURE block"@, body.len() as int)),
        },
    }
}

/// ASCII white space: space, tab, line feed, form feed, carriage return.
pub open spec fn is_space(b: u8) -> bool {
    b == 0x20 || b == 0x09 || b == 0x0a || b == 0x0c || b == 0x0d
}

/// Bytes without the white space among them.
pub open spec fn without_space(s: Seq<u8>) -> Seq<u8>
    decreases s.len(),
{
    if s.len() == 0 {
        Seq::empty()
    } else if is_space(s.last()) {
        without_space(s.drop_last())
    } else {
        without_space(s.drop_last()).push(s.last())
    }
}

/// What the comments give: each picture comment is decoded or dropped on its own.
pub open spec fn pictures_in_comments(pairs: Seq<(Seq<char>, Seq<char>)>) -> PicturesModel
    decreases pairs.len(),
{
    if pairs.len() == 0 {
        PicturesModel { pictures: Seq::empty(), dropped: Seq::empty() }
    } else {
        let before = pictures_in_comments(pairs.drop_last());
        let (field, value) = pairs.last();
        if !same_ignoring_case(field, PICTURE_FIELD@) {
            before
        } else {
            match b64_decoded(without_space(utf8(value))) {
                Some(raw) => with_picture_block(before, raw),
                None => PicturesModel {
                    pictures: before.pictures,
                    dropped: before.dropped.push(("undecodable base64"@, utf8(value).len() as int)),
                },
            }
        }
    }
}

/// What FLAC block packets give: each PICTURE block is parsed or dropped on its own.
pub open spec fn pictures_in_packets(packets: Seq<Seq<u8>>) -> PicturesModel
    decreases packets.len(),
{
    if packets.len() == 0 {
        PicturesModel { pictures: Seq::empty(), dropped: Seq::empty() }
    } else {
        let before = pictures_in_packets(packets.drop_last());
        let p = packets.last();
        if !is_block_of_type(p, 6) {
            before
        } else if p.len() < 4 {
            PicturesModel {
                pictures: before.pictures,
                dropped: before.dropped.push(
                    ("truncated PICTURE block header"@, p.len() as int),
                ),
            }
        } else {
            with_picture_block(before, p.skip(4))
        }
    }
}

/// The pictures of a header region; `None` where its comment packet is malformed.
pub open spec fn header_pictures(h: HeaderModel) -> Option<PicturesModel> {
    match h.codec {
        Codec::OggFlac => Some(pictures_in_packets(h.packets.skip(1))),
        _ => match comment_pairs(h) {
            Some(pairs) => Some(pictures_in_comments(pairs)),
            None => None,
        },
    }
}

/// Base64-decode a `METADATA_BLOCK_PICTURE` value, tolerating ASCII whitespace.
///
/// Vorbis comment values are length-prefixed, so the 76-column wrapping of the
/// older MIME style is unnecessary and is not customary
/// here, but the strict engine rejects a wrapped value outright at the
/// first line break, costing the whole picture. Filtering is leniency, not
/// conformance.
fn decode_picture_base64(value: &str) -> (r: Option<Vec<u8>>)
    ensures
        match r {
            Some(v) => b64_decoded(without_space(utf8(value@))) == Some(v@),
            None => b64_decoded(without_space(utf8(value@))) is None,
        },
{
    let b = value.as_bytes();
    let mut plain: Vec<u8> = Vec::new();
    let mut i: usize = 0;
    assert(plain@ =~= without_space(b@.take(0)));
    while i < b.len()
        invariant
            i <= b@.len(),
            plain@ == without_space(b@.take(i as int)),
        decreases b@.len() - i,
    {
        assert(b@.take(i + 1).drop_last() =~= b@.take(i as int));
        let x: u8 = b[i];
        if !(x == 0x20 || x == 0x09 || x == 0x0a || x == 0x0c || x == 0x0d) {
            plain.push(x);
        }
        i = i + 1;
    }
    assert(b@.take(i as int) =~= b@);
    match base64_decode(plain.as_slice()) {
        Some(v) => {
            proof {
                let w = choose|w: Seq<u8>| #[trigger] b64_text(w) == plain@;
                assert(b64_text(v@) == plain@);
                b64_text_injective(v@, w);
            }
            Some(v)
        },
        None => None,
    }
}

/// Parse one picture block body into `out`, or report it in `dropped`.
fn take_picture_block(
    body: &[u8],
    out: &mut Vec<EmbeddedPicture>,
    dropped: &mut Vec<PictureDrop>,
)
    ensures
        ({
            let before = PicturesModel {
                pictures: picture_views(old(out)@),
                dropped: drop_views(old(dropped)@),
            };
            with_picture_block(before, body@) == PicturesModel {
                pictures: picture_views(final(out)@),
                dropped: drop_views(final(dropped)@),
            }
        }),
{
    match parse_picture_block(body) {
        Ok(pic) => push_embedded(out, pic),
        Err(_) => push_drop(dropped, "malformed PICTURE block", body.len()),
    }
}

/// Like [`read_pictures`], but also returns the pictures skipped as undecodable.
///
/// A bad picture skips *that* picture and nothing else: returning early would let
/// one unparseable `METADATA_BLOCK_PICTURE` discard every valid picture in the
/// same file. Only a malformed *container* (a bad header or comment packet) still
/// errors, since then there is no list of pictures to salvage.
pub fn read_pictures_reporting(data: &[u8]) -> (r: Result<
    (Vec<EmbeddedPicture>, Vec<PictureDrop>),
>)
    requires
        pages_countable(data@),
    ensures
        match r {
            Ok((pics, dropped)) => header_of(data@) is Some && header_pictures(
                header_of(data@)->0,
            ) == Some(
                PicturesModel { pictures: picture_views(pics@), dropped: drop_views(dropped@) },
            ),
            Err(e) => e == FormatError::Malformed && (header_of(data@) is None || header_pictures(
                header_of(data@)->0,
            ) is None),
        },
{
    let header = match read_header(data) {
        Ok(h) => h,
        Err(e) => {
            return Err(e);
        },
    };
    let ghost model = header_of(data@)->0;
    proof {
        header_has_packets(data@);
        assert(header.packets@.len() == model.packets.len());
    }
    let mut out: Vec<EmbeddedPicture> = Vec::new();
    let mut dropped: Vec<PictureDrop> = Vec::new();
    assert(picture_views(out@) =~= Seq::empty());
    assert(drop_views(dropped@) =~= Seq::empty());
    if header.codec == Codec::OggFlac {
        let ghost all = model.packets.skip(1);
        let mut i: usize = 1;
        while i < header.packets.len()
            invariant
                1 <= i <= header.packets@.len(),
                all == byte_strings(header.packets@).skip(1),
                pictures_in_packets(all.take(i - 1)) == (PicturesModel {
                    pictures: picture_views(out@),
                    dropped: drop_views(dropped@),
                }),
            decreases header.packets@.len() - i,
        {
            let pkt = &header.packets[i];
            proof {
                assert(all.take(i as int).drop_last() =~= all.take(i - 1));
                assert(all.take(i as int).last() == pkt@);
            }
            if pkt.len() > 0 && pkt[0] % 0x80 == 6 {
                // The packet length is not to be relied on: a 1-3 byte type-6 packet is a
                // truncated block header, reported like any other undecodable picture.
                if pkt.len() < 4 {
                    push_drop(&mut dropped, "truncated PICTURE block header", pkt.len());
                } else {
                    let body = vstd::slice::slice_subrange(pkt.as_slice(), 4, pkt.len());
                    assert(body@ =~= pkt@.skip(4));
                    take_picture_block(body, &mut out, &mut dropped);
                }
            }
            i = i + 1;
        }
        assert(all.take(i - 1) =~= all);
    } else {
        let pairs = match read_comment(&header) {
            Ok(v) => v,
            Err(e) => {
                return Err(e);
            },
        };
        let ghost all = pair_views(pairs@);
        let mut i: usize = 0;
        while i < pairs.len()
            invariant
                i <= pairs@.len(),
                all == pair_views(pairs@),
                pictures_in_comments(all.take(i as int)) == (PicturesModel {
                    pictures: picture_views(out@),
                    dropped: drop_views(dropped@),
                }),
            decreases pairs@.len() - i,
        {
            proof {
                assert(all.take(i + 1).drop_last() =~= all.take(i as int));
                assert(all.take(i + 1).last() == (pairs@[i as int].0@, pairs@[i as int].1@));
            }
            let pair = &pairs[i];
            if equal_ignoring_case(pair.0.as_str(), PICTURE_FIELD) {
                match decode_picture_base64(pair.1.as_str()) {
                    Some(raw) => take_picture_block(raw.as_slice(), &mut out, &mut dropped),
                    None => push_drop(
                        &mut dropped,
                        "undecodable base64",
                        pair.1.as_str().as_bytes().len(),
                    ),
                }
            }
            i = i + 1;
        }
        assert(all.take(i as int) =~= all);
    }
    Ok((out, dropped))
}

/// Extract embedded pictures from a complete file for scan-time ingestion.
///
/// Opus/Vorbis carry art as a base64 `METADATA_BLOCK_PICTURE` comment whose decoded
/// bytes are a FLAC PICTURE block body; OggFLAC carries native PICTURE block
/// packets (block type 6).
pub fn read_pictures(data: &[u8]) -> (r: Result<Vec<EmbeddedPicture>>)
    requires
        pages_countable(data@),
    ensures
        match r {
            Ok(pics) => header_of(data@) is Some && header_pictures(header_of(data@)->0) is Some
                && picture_views(pics@) == header_pictures(header_of(data@)->0)->0.pictures,
            Err(e) => e == FormatError::Malformed && (header_of(data@) is None || header_pictures(
                header_of(data@)->0,
            ) is None),
        },
{
    match read_pictures_reporting(data) {
        Ok((pics, _)) => Ok(pics),
        Err(e) => Err(e),
    }
}

/// Audio bounds + codec from a complete file, for the scanner.
#[derive(Debug, Clone, PartialEq, Eq)]
pub struct OggScan {
    pub codec: Codec,
    pub audio_offset: u64,
    pub audio_length: u64,
}

/// What a file's final page says about how many logical bitstreams it holds.
#[derive(Debug, Clone, Copy, PartialEq, Eq, Structural)]
pub enum Chaining {
    /// The final page belongs to the header's bitstream: one stream, start to end.
    Single,
    /// The final page belongs to a different bitstream: the file is chained.
    Chained,
    /// No page ended at the file's last byte within the window given: a truncated
    /// file, or trailing bytes that are not a page. Nothing is proven either way.
    Unknown,
}

/// Whole-page CRC validations one [`classify_tail`] scan may pay: orders of magnitude more
/// headroom than a real file needs, and a fixed small multiple of the legitimate cost.
pub const MAX_TAIL_CRC_CHECKS: usize = 64;

/// A page at `i` declares a length that lands exactly on the last byte.
pub open spec fn ends_at_end(tail: Seq<u8>, i: int) -> bool {
    page_starts(tail, i) && i + page_total_len(tail, i) == tail.len()
}

/// What the scan from `i` downwards finds, having spent `spent` of its CRC checks: the
/// first page that ends at the end and whose CRC is right tells by its serial; past the
/// budget nothing is proven.
pub open spec fn tail_verdict(tail: Seq<u8>, i: int, spent: int, serial: u32) -> Chaining
    decreases i + 1,
{
    if i < 0 {
        Chaining::Unknown
    } else if !ends_at_end(tail, i) {
        tail_verdict(tail, i - 1, spent, serial)
    } else if spent == MAX_TAIL_CRC_CHECKS {
        Chaining::Unknown
    } else if crc_matches(tail.skip(i)) {
        if le32(tail, i + 14) == serial {
            Chaining::Single
        } else {
            Chaining::Chained
        }
    } else {
        tail_verdict(tail, i - 1, spent + 1, serial)
    }
}

/// Where the scan of a tail starts: the last place a capture pattern can stand.
pub open spec fn scan_start(tail: Seq<u8>) -> int {
    if tail.len() < 4 {
        0
    } else {
        tail.len() - 4
    }
}

/// Classify a file by the serial of its final page, where `tail` is its last
/// `tail.len()` bytes starting at absolute offset `tail_start`.
///
/// The header region can only show multiplexing. A chain is complete logical bitstreams
/// concatenated end to end (RFC 3533), so the second stream's pages necessarily
/// begin after the first stream's audio does, inside what the scanner otherwise
/// declares to be one audio region.
///
/// The final page is the cheap discriminator: a chain's last page belongs to its
/// last stream, so a serial other than the header's proves chaining for the whole
/// well-formed-chain class at the cost of one page-sized read. A *missing* page
/// end at EOF proves nothing (that is what a truncated file looks like, and those
/// still serve), so it reports [`Chaining::Unknown`] rather than a rejection.
///
/// A `tail` at least [`MAX_PAGE_BYTES`] long (or covering the whole file) always
/// contains the final page whole, so the CRC is always checkable. The final page is told
/// by where it ends relative to the tail's own end, so `tail_start` only has to be an
/// offset at which the tail fits a 64-bit file.
pub fn classify_tail(tail: &[u8], tail_start: u64, serial: u32) -> (r: Chaining)
    requires
        tail_start + tail@.len() <= u64::MAX,
    ensures
        r == tail_verdict(tail@, scan_start(tail@), 0, serial),
{
    let total: usize = tail.len();
    let file_end: u64 = tail_start + total as u64;
    // Backwards: the final page is the one whose declared length lands exactly on the last
    // byte, and its CRC is what separates it from a coincidental `OggS` in audio payload.
    let mut i: usize = total.saturating_sub(4);
    let mut spent: usize = 0;
    loop
        invariant
            total == tail@.len(),
            file_end == tail_start + total,
            i <= total,
            spent <= MAX_TAIL_CRC_CHECKS,
            tail_verdict(tail@, scan_start(tail@), 0, serial) == tail_verdict(
                tail@,
                i as int,
                spent as int,
                serial,
            ),
        decreases i,
    {
        if let Ok(h) = parse_page(tail, i) {
            if h.total_len() as u64 == file_end - (tail_start + i as u64) {
                // Spend from the budget before the CRC, which walks the whole page: a
                // crafted tail can plant a length-to-EOF candidate at every offset. A
                // real file resolves on its first candidate.
                if spent == MAX_TAIL_CRC_CHECKS {
                    return Chaining::Unknown;
                }
                let page = vstd::slice::slice_subrange(tail, i, total);
                proof {
                    assert(page@ =~= tail@.skip(i as int));
                    same_page_in_slice(tail@, i as int);
                }
                match verify_page_crc(page) {
                    Ok(true) => {
                        return if h.serial == serial {
                            Chaining::Single
                        } else {
                            Chaining::Chained
                        };
                    },
                    _ => {},
                }
                spent = spent + 1;
            }
        }
        if i == 0 {
            assert(tail_verdict(tail@, -1, spent as int, serial) == Chaining::Unknown);
            return Chaining::Unknown;
        }
        i = i - 1;
    }
}

/// A page is the same page seen from its own start.
proof fn same_page_in_slice(d: Seq<u8>, p: int)
    requires
        page_starts(d, p),
        p + page_total_len(d, p) <= d.len(),
    ensures
        super::page::page_complete(d.skip(p)),
        page_total_len(d.skip(p), 0) == page_total_len(d, p),
{
    let e = d.skip(p);
    assert(e.subrange(0, 4) =~= d.subrange(p, p + 4));
    assert(page_table(e, 0) =~= page_table(d, p));
}

/// [`classify_tail`] over a whole-file buffer, taking its own tail window.
pub open spec fn whole_verdict(d: Seq<u8>, serial: u32) -> Chaining {
    let window = if d.len() < MAX_PAGE_BYTES {
        d
    } else {
        d.skip(d.len() - MAX_PAGE_BYTES)
    };
    tail_verdict(window, scan_start(window), 0, serial)
}

/// [`classify_tail`] over a whole-file buffer, taking its own tail window.
pub fn classify_whole(data: &[u8], serial: u32) -> (r: Chaining)
    ensures
        r == whole_verdict(data@, serial),
{
    let want: usize = if data.len() < MAX_PAGE_BYTES {
        data.len()
    } else {
        MAX_PAGE_BYTES
    };
    let start: usize = data.len() - want;
    let window = vstd::slice::slice_subrange(data, start, data.len());
    proof {
        if data@.len() < MAX_PAGE_BYTES {
            assert(window@ =~= data@);
        } else {
            assert(window@ =~= data@.skip(data@.len() - MAX_PAGE_BYTES));
        }
    }
    classify_tail(window, start as u64, serial)
}

/// A file whose audio can be located: its header parses, the header region lies inside
/// the file, and the file's final page does not prove it chained.
pub open spec fn audio_locatable(d: Seq<u8>) -> bool {
    &&& header_of(d) is Some
    &&& header_of(d)->0.audio_offset <= d.len()
    &&& whole_verdict(d, header_of(d)->0.serial) != Chaining::Chained
}

/// Audio bounds and codec of a complete file.
pub fn locate_audio(data: &[u8]) -> (r: Result<OggScan>)
    requires
        pages_countable(data@),
    ensures
        match r {
            Ok(s) => audio_locatable(data@) && s.codec == header_of(data@)->0.codec
                && s.audio_offset == header_of(data@)->0.audio_offset && s.audio_offset
                + s.audio_length == data@.len(),
            Err(e) => e == FormatError::Malformed && !audio_locatable(data@),
        },
{
    let header = match read_header(data) {
        Ok(h) => h,
        Err(e) => {
            return Err(e);
        },
    };
    if header.audio_offset > data.len() as u64 {
        return Err(FormatError::Malformed);
    }
    if classify_whole(data, header.serial) == Chaining::Chained {
        return Err(FormatError::Malformed);
    }
    Ok(
        OggScan {
            codec: header.codec,
            audio_offset: header.audio_offset,
            audio_length: data.len() as u64 - header.audio_offset,
        },
    )
}

/// The header region parsed from the front of the file (`[0, audio_offset)`), for
/// synthesis. Identical to `read_header` but named to mirror `flac::read_metadata`.
pub fn read_metadata(front: &[u8]) -> (r: Result<OggHeader>)
    requires
        pages_countable(front@),
    ensures
        match r {
            Ok(h) => header_of(front@) == Some(header_model(h)),
            Err(e) => e == FormatError::Malformed && header_of(front@) is None,
        },
{
    read_header(front)
}

/// The next window of a bounded probe: twice the prefix, at least 64 KiB, at most the
/// file.
pub open spec fn grown_window(prefix_len: int, file_len: int) -> int {
    let doubled = if prefix_len * 2 > 65_536 {
        prefix_len * 2
    } else {
        65_536int
    };
    if doubled < file_len {
        doubled
    } else {
        file_len
    }
}

/// Bounded twin of [`read_metadata`]. OGG header packets (and all OGG embedded
/// art) are front-anchored, so a prefix covering the header region is sufficient.
/// `read_header` does not expose an exact byte need, so on a short/truncated
/// prefix this geometrically grows the window (doubling, capped at `file_len`):
/// header regions are tiny, so the first 1 MiB window almost always completes,
/// and the cap guarantees the worst case equals reading the whole file.
pub fn read_metadata_bounded(prefix: &[u8], file_len: u64) -> (r: Result<Extent<OggHeader>>)
    requires
        pages_countable(prefix@),
    ensures
        match r {
            Ok(Extent::Complete(h)) => header_of(prefix@) == Some(header_model(h)),
            Ok(Extent::NeedMore { up_to }) => header_of(prefix@) is None && prefix@.len()
                < file_len && up_to == grown_window(prefix@.len() as int, file_len as int)
                && up_to > prefix@.len(),
            Err(e) => e == FormatError::Malformed && header_of(prefix@) is None && prefix@.len()
                >= file_len,
        },
{
    match read_header(prefix) {
        Ok(header) => Ok(Extent::Complete(header)),
        Err(e) => {
            // A truncated front and genuine corruption look the same, so widen
            // optimistically; a real error resurfaces once the prefix is the whole file.
            if (prefix.len() as u64) < file_len {
                let doubled: u64 = prefix.len() as u64 * 2;
                let grown: u64 = if doubled > 65_536 {
                    doubled
                } else {
                    65_536
                };
                Ok(
                    Extent::NeedMore {
                        up_to: if grown < file_len {
                            grown
                        } else {
                            file_len
                        },
                    },
                )
            } else {
                Err(e)
            }
        },
    }
}

} // verus!
