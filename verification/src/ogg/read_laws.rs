//! Ogg streams as written by anyone: how many packets the header has, what its comments and
//! pictures are, and when a stream is chained.

use crate::bytes::le32;
use crate::error::FormatError;
use crate::error::Result;
use crate::flac::picture_of;
use crate::flac::picture_views;
use crate::input::EmbeddedPicture;
use crate::ogg::b64::b64_decoded;
use crate::ogg::header::byte_strings;
use crate::ogg::header::classify_tail;
use crate::ogg::header::classify_whole;
use crate::ogg::header::codec_of;
use crate::ogg::header::comment_block_from;
use crate::ogg::header::comment_body;
use crate::ogg::header::comment_packet_index;
use crate::ogg::header::comment_pairs;
use crate::ogg::header::detect_codec;
use crate::ogg::header::drop_views;
use crate::ogg::header::ends_at_end;
use crate::ogg::header::flagged_run;
use crate::ogg::header::header_model;
use crate::ogg::header::header_run;
use crate::ogg::header::locate_audio;
use crate::ogg::header::pictures_in_comments;
use crate::ogg::header::pictures_in_packets;
use crate::ogg::header::read_header;
use crate::ogg::header::read_metadata_bounded;
use crate::ogg::header::read_pictures;
use crate::ogg::header::read_pictures_reporting;
use crate::ogg::header::read_tags;
use crate::ogg::header::single_stream;
use crate::ogg::header::tail_verdict;
use crate::ogg::header::text_pairs;
use crate::ogg::header::without_space;
use crate::ogg::header::Chaining;
use crate::ogg::header::Codec;
use crate::ogg::header::OggHeader;
use crate::ogg::header::OggScan;
use crate::ogg::header::PictureDrop;
use crate::ogg::page::crc_matches;
use crate::ogg::page::packets_of;
use crate::ogg::page::page_starts;
use crate::ogg::page::page_total_len;
use crate::ogg::page::pages_countable;
use crate::ogg::page::PacketModel;
use crate::probe::Extent;
use crate::slot_laws::code;
use crate::text::lower;
use crate::text::utf8;
use crate::vorbiscomment::body_pairs;
use crate::vorbiscomment::pair_views;
use vstd::prelude::*;
use vstd::string::*;

verus! {

/// The bytes begin with a mark.
pub open spec fn begins_with(p: Seq<u8>, mark: Seq<u8>) -> bool {
    p.len() >= mark.len() && p.take(mark.len() as int) == mark
}

/// The mark of each codec's first packet.
pub open spec fn mark_of(codec: Codec) -> Seq<u8> {
    match codec {
        Codec::Opus => code("OpusHead"@),
        Codec::Vorbis => seq![1u8] + code("vorbis"@),
        Codec::OggFlac => seq![0x7fu8] + code("FLAC"@),
    }
}

proof fn marks()
    ensures
        mark_of(Codec::Opus) == crate::ogg::header::OPUS_HEAD@,
        mark_of(Codec::Vorbis) == crate::ogg::header::VORBIS_ID@,
        mark_of(Codec::OggFlac) == crate::ogg::header::OGGFLAC_ID@,
{
    reveal_strlit("OpusHead");
    reveal_strlit("vorbis");
    reveal_strlit("FLAC");
    assert(mark_of(Codec::Opus) =~= crate::ogg::header::OPUS_HEAD@);
    assert(mark_of(Codec::Vorbis) =~= crate::ogg::header::VORBIS_ID@);
    assert(mark_of(Codec::OggFlac) =~= crate::ogg::header::OGGFLAC_ID@);
}

proof fn codec_by_mark(p: Seq<u8>, codec: Codec)
    ensures
        codec_of(p) == Some(codec) <==> begins_with(p, mark_of(codec)),
{
    marks();
    let o = mark_of(Codec::Opus);
    let v = mark_of(Codec::Vorbis);
    let f = mark_of(Codec::OggFlac);
    assert(o[0] == 0x4f && v[0] == 1 && f[0] == 0x7f);
    if begins_with(p, o) {
        assert(p.take(8)[0] == p[0]);
    }
    if begins_with(p, v) {
        assert(p.take(7)[0] == p[0]);
    }
    if begins_with(p, f) {
        assert(p.take(5)[0] == p[0]);
    }
}

/// A first packet is of the codec whose mark it begins with; with no such mark it is malformed.
pub proof fn codecs_are_told_by_their_marks(p: &[u8], codec: Codec, r: Result<Codec>)
    requires
        call_ensures(detect_codec, (p,), r),
    ensures
        r == Ok::<Codec, FormatError>(codec) <==> begins_with(p@, mark_of(codec)),
        r is Err ==> r == Err::<Codec, FormatError>(FormatError::Malformed),
{
    codec_by_mark(p@, codec);
}

/// A packet of metadata, by its block type.
pub open spec fn holds_block(p: Seq<u8>) -> bool {
    p.len() > 0 && p[0] % 128 != 127
}

/// The number of header packets: two for Opus, three for Vorbis. For FLAC it is one more than
/// the two bytes at offset seven say. Where these are zero the blocks say which is last: the
/// stream information in the first packet, or else the first packet with that flag, up to
/// which every packet holds a block.
pub open spec fn header_packets(pk: Seq<Seq<u8>>, codec: Codec, n: int) -> bool {
    match codec {
        Codec::Opus => n == 2,
        Codec::Vorbis => n == 3,
        Codec::OggFlac => {
            let first = pk[0];
            let count = first[7] * 256 + first[8];
            &&& first.len() >= 9
            &&& {
                ||| count > 0 && n == 1 + count
                ||| count == 0 && first.len() > 13 && first[13] >= 128 && n == 1
                ||| {
                    &&& count == 0
                    &&& !(first.len() > 13 && first[13] >= 128)
                    &&& 2 <= n <= pk.len()
                    &&& forall|i: int| 1 <= i < n ==> holds_block(#[trigger] pk[i])
                    &&& forall|i: int| 1 <= i < n - 1 ==> (#[trigger] pk[i])[0] < 128
                    &&& pk[n - 1][0] >= 128
                }
            }
        },
    }
}

/// The data of packets.
pub open spec fn packet_bytes(pk: Seq<PacketModel>) -> Seq<Seq<u8>> {
    pk.map_values(|p: PacketModel| p.data)
}

proof fn flagged_run_is(pk: Seq<PacketModel>, i: int, n: int)
    requires
        1 <= i,
    ensures
        (flagged_run(pk, i) == Some(n)) <==> {
            &&& i < n <= pk.len()
            &&& forall|j: int| i <= j < n ==> holds_block(#[trigger] packet_bytes(pk)[j])
            &&& forall|j: int| i <= j < n - 1 ==> (#[trigger] packet_bytes(pk)[j])[0] < 128
            &&& packet_bytes(pk)[n - 1][0] >= 128
        },
    decreases pk.len() - i,
{
    let b = packet_bytes(pk);
    if i < pk.len() {
        flagged_run_is(pk, i + 1, n);
        assert(b[i] == pk[i].data);
        let right = {
            &&& i < n <= pk.len()
            &&& forall|j: int| i <= j < n ==> holds_block(#[trigger] b[j])
            &&& forall|j: int| i <= j < n - 1 ==> (#[trigger] b[j])[0] < 128
            &&& b[n - 1][0] >= 128
        };
        if flagged_run(pk, i) == Some(n) {
            if !crate::ogg::header::is_last_packet(pk[i].data) {
                assert(flagged_run(pk, i + 1) == Some(n));
                assert forall|j: int| i <= j < n implies holds_block(#[trigger] b[j]) by {
                    if j > i {
                        assert(holds_block(b[j]));
                    }
                }
                assert forall|j: int| i <= j < n - 1 implies (#[trigger] b[j])[0] < 128 by {
                    if j > i {
                        assert(b[j][0] < 128);
                    }
                }
            }
            assert(right);
        }
        if right {
            assert(holds_block(b[i]));
            if i < n - 1 {
                assert(b[i][0] < 128);
            }
        }
    } else if i >= pk.len() {
        assert(flagged_run(pk, i) is None);
    }
}

/// The header run is the number of header packets, if that many are there.
proof fn header_run_is(pk: Seq<PacketModel>, codec: Codec, n: int)
    requires
        pk.len() > 0,
        codec_of(pk[0].data) == Some(codec),
    ensures
        header_run(pk) == Some(n) <==> header_packets(packet_bytes(pk), codec, n) && n <= pk.len(),
{
    assert(packet_bytes(pk)[0] == pk[0].data);
    if codec is OggFlac {
        flagged_run_is(pk, 1, n);
    }
}

/// Where the page behind `k` others begins.
pub open spec fn page_place(d: Seq<u8>, from: int, k: nat) -> int
    decreases k,
{
    if k == 0 {
        from
    } else {
        page_place(d, from, (k - 1) as nat) + page_total_len(
            d,
            page_place(d, from, (k - 1) as nat),
        )
    }
}

/// The pages up to `end` are of one stream: each is a page, of the stream that the first page
/// names, and none but the first begins a stream.
pub open spec fn of_one_stream(d: Seq<u8>, from: int, end: int, serial: int, first: bool) -> bool {
    forall|k: nat|
        (forall|j: nat| j <= k ==> #[trigger] page_place(d, from, j) < end) ==> {
            let p = #[trigger] page_place(d, from, k);
            &&& page_starts(d, p)
            &&& d[p + 14] + d[p + 15] * 256 + d[p + 16] * 65536 + d[p + 17] * 16777216 == serial
            &&& (k > 0 || !first) ==> d[p + 5] / 2 % 2 == 0
        }
}

pub(crate) proof fn places_shift(d: Seq<u8>, from: int, k: nat)
    ensures
        page_place(d, from, k + 1) == page_place(d, from + page_total_len(d, from), k),
    decreases k,
{
    reveal_with_fuel(page_place, 2);
    if k > 0 {
        places_shift(d, from, (k - 1) as nat);
    }
}

/// The places of pages go on.
proof fn places_go_on(d: Seq<u8>, from: int, end: int, serial: int, first: bool, k: nat)
    requires
        single_stream(d, from, end, serial, first),
        forall|j: nat| j <= k ==> #[trigger] page_place(d, from, j) < end,
    ensures
        ({
            let p = page_place(d, from, k);
            &&& page_starts(d, p)
            &&& le32(d, p + 14) == serial
            &&& (k > 0 || !first) ==> d[p + 5] / 2 % 2 == 0
        }),
    decreases k,
{
    assert(page_place(d, from, 0) == from);
    assert(page_place(d, from, 0) < end);
    if k > 0 {
        let next = from + page_total_len(d, from);
        places_shift(d, from, (k - 1) as nat);
        assert forall|j: nat| j <= k - 1 implies #[trigger] page_place(d, next, j) < end by {
            places_shift(d, from, j);
            assert(page_place(d, from, j + 1) < end);
        }
        places_go_on(d, next, end, serial, false, (k - 1) as nat);
    }
}

/// A stream that is not single has a page that says so.
proof fn page_that_breaks(d: Seq<u8>, from: int, end: int, serial: int, first: bool) -> (k: nat)
    requires
        !single_stream(d, from, end, serial, first),
        0 <= from,
    ensures
        forall|j: nat| j <= k ==> #[trigger] page_place(d, from, j) < end,
        ({
            let p = page_place(d, from, k);
            !page_starts(d, p) || le32(d, p + 14) != serial || ((k > 0 || !first) && d[p + 5] / 2
                % 2 != 0)
        }),
    decreases
            if from < end {
                end - from
            } else {
                0
            },
{
    assert(page_place(d, from, 0) == from);
    let here = page_starts(d, from) && le32(d, from + 14) == serial && (first || d[from + 5] / 2 % 2
        == 0);
    if !here {
        0
    } else {
        let next = from + page_total_len(d, from);
        crate::ogg::page::lace_sum_range(crate::ogg::page::page_table(d, from));
        assert(page_total_len(d, from) >= 27);
        let k = page_that_breaks(d, next, end, serial, false);
        places_shift(d, from, k);
        assert forall|j: nat| j <= k + 1 implies #[trigger] page_place(d, from, j) < end by {
            if j > 0 {
                places_shift(d, from, (j - 1) as nat);
                assert(page_place(d, next, (j - 1) as nat) < end);
            }
        }
        k + 1
    }
}

/// A header is the packets that its codec has for one, where they are all there and lie in
/// pages of one stream. Anything else is malformed.
pub proof fn headers_are_of_their_codec(data: &[u8], codec: Codec, n: int, r: Result<OggHeader>)
    requires
        pages_countable(data@),
        call_ensures(read_header, (data,), r),
        packets_of(data@).len() > 0,
        begins_with(packets_of(data@)[0].data, mark_of(codec)),
    ensures
        ({
            let pk = packets_of(data@);
            let serial = data@[14] + data@[15] * 256 + data@[16] * 65536 + data@[17] * 16777216;
            &&& 1 <= n <= pk.len() && header_packets(packet_bytes(pk), codec, n) && of_one_stream(
                data@,
                0,
                pk[n - 1].end_offset,
                serial,
                true,
            ) ==> match r {
                Ok(h) => {
                    &&& h.codec == codec
                    &&& byte_strings(h.packets@) == packet_bytes(pk).take(n)
                    &&& h.audio_offset == pk[n - 1].end_offset
                    &&& h.header_pages == pk[n - 1].pages_through_end
                    &&& h.serial == serial as u32
                },
                Err(_) => false,
            }
            &&& r is Ok ==> header_packets(
                packet_bytes(pk),
                codec,
                r->Ok_0.packets@.len() as int,
            ) && of_one_stream(data@, 0, r->Ok_0.audio_offset as int, serial, true)
        }),
{
    let d = data@;
    let pk = packets_of(d);
    let serial = le32(d, 14);
    codec_by_mark(pk[0].data, codec);
    header_run_is(pk, codec, n);
    if 1 <= n <= pk.len() && header_packets(packet_bytes(pk), codec, n) && of_one_stream(
        d,
        0,
        pk[n - 1].end_offset,
        serial,
        true,
    ) {
        let end = pk[n - 1].end_offset;
        if !single_stream(d, 0, end, serial, true) {
            let k = page_that_breaks(d, 0, end, serial, true);
            assert(page_place(d, 0, k) < end);
        }
        if let Ok(h) = r {
            assert(byte_strings(h.packets@) =~= packet_bytes(pk).take(n));
        }
    }
    if let Ok(h) = r {
        let m = h.packets@.len() as int;
        assert(byte_strings(h.packets@).len() == m);
        header_run_is(pk, codec, m);
        let end = h.audio_offset as int;
        assert(single_stream(d, 0, end, serial, true));
        assert forall|k: nat|
            (forall|j: nat| j <= k ==> #[trigger] page_place(d, 0, j) < end) implies ({
            let p = #[trigger] page_place(d, 0, k);
            &&& page_starts(d, p)
            &&& d[p + 14] + d[p + 15] * 256 + d[p + 16] * 65536 + d[p + 17] * 16777216 == serial
            &&& (k > 0 || !true) ==> d[p + 5] / 2 % 2 == 0
        }) by {
            places_go_on(d, 0, end, serial, true, k);
        }
    }
}

/// The comments of a packet come behind eight bytes in Opus, seven in Vorbis and the four of a
/// block header in FLAC.
pub proof fn comments_come_behind_their_mark(codec: Codec, packet: &[u8], r: Result<&[u8]>)
    requires
        call_ensures(comment_body, (codec, packet), r),
    ensures
        ({
            let n = match codec {
                Codec::Opus => 8int,
                Codec::Vorbis => 7,
                Codec::OggFlac => 4,
            };
            match r {
                Ok(b) => packet@.len() >= n && b@ == packet@.skip(n),
                Err(e) => packet@.len() < n && e == FormatError::Malformed,
            }
        }),
{
}

proof fn comment_block_is(packets: Seq<Seq<u8>>, i: int, k: int)
    requires
        1 <= i,
    ensures
        i <= k < packets.len() && packets[k].len() > 0 && packets[k][0] % 128 == 4 && (forall|
            j: int,
        |
            i <= j < k ==> (#[trigger] packets[j]).len() == 0 || packets[j][0] % 128 != 4)
            ==> comment_block_from(packets, i) == k,
        (forall|j: int|
            i <= j < packets.len() ==> (#[trigger] packets[j]).len() == 0 || packets[j][0] % 128
                != 4) ==> comment_block_from(packets, i) == 0,
    decreases packets.len() - i,
{
    if i < packets.len() {
        comment_block_is(packets, i + 1, k);
        if k > i && (forall|j: int|
            i <= j < k ==> (#[trigger] packets[j]).len() == 0 || packets[j][0] % 128 != 4) {
            assert(packets[i].len() == 0 || packets[i][0] % 128 != 4);
        }
        if forall|j: int|
            i <= j < packets.len() ==> (#[trigger] packets[j]).len() == 0 || packets[j][0] % 128
                != 4 {
            assert(packets[i].len() == 0 || packets[i][0] % 128 != 4);
        }
    }
}

/// The comments stand in the second packet of an Opus or Vorbis header, and in the first block
/// of type four behind the first packet of a FLAC one; zero says that there is none.
pub proof fn comment_packet_is_found(header: &OggHeader, k: int, r: usize)
    requires
        call_ensures(comment_packet_index, (header,), r),
    ensures
        !(header.codec is OggFlac) ==> r == 1,
        header.codec is OggFlac ==> {
            let p = byte_strings(header.packets@);
            &&& 1 <= k < p.len() && p[k].len() > 0 && p[k][0] % 128 == 4 && (forall|j: int|
                1 <= j < k ==> (#[trigger] p[j]).len() == 0 || p[j][0] % 128 != 4) ==> r == k
            &&& (forall|j: int|
                1 <= j < p.len() ==> (#[trigger] p[j]).len() == 0 || p[j][0] % 128 != 4) ==> r == 0
        },
{
    comment_block_is(byte_strings(header.packets@), 1, k);
}

proof fn picture_field()
    ensures
        lower(crate::ogg::header::PICTURE_FIELD@) == "metadata_block_picture"@,
{
    reveal_strlit("METADATA_BLOCK_PICTURE");
    reveal_strlit("metadata_block_picture");
    assert(lower(crate::ogg::header::PICTURE_FIELD@) =~= "metadata_block_picture"@);
}

/// The comment is text, not a picture.
pub open spec fn is_text(p: (Seq<char>, Seq<char>)) -> bool {
    lower(p.0) != "metadata_block_picture"@
}

proof fn texts_filtered(pairs: Seq<(Seq<char>, Seq<char>)>)
    ensures
        text_pairs(pairs) == pairs.filter(|p: (Seq<char>, Seq<char>)| is_text(p)),
    decreases pairs.len(),
{
    reveal(Seq::filter);
    picture_field();
    if pairs.len() > 0 {
        texts_filtered(pairs.drop_last());
    }
    assert(text_pairs(pairs) =~= pairs.filter(|p: (Seq<char>, Seq<char>)| is_text(p)));
}

/// The tags of a stream are all its comments, in order, but for pictures; a FLAC stream without
/// comments has none.
pub proof fn tags_are_the_text_comments(
    data: &[u8],
    h: OggHeader,
    i: usize,
    r: Result<Vec<(String, String)>>,
)
    requires
        pages_countable(data@),
        call_ensures(read_header, (data,), Ok::<OggHeader, FormatError>(h)),
        call_ensures(comment_packet_index, (&h,), i),
        call_ensures(read_tags, (data,), r),
    ensures
        i == 0 ==> r is Ok && r->Ok_0@.len() == 0,
        i > 0 ==> {
            let n = match h.codec {
                Codec::Opus => 8int,
                Codec::Vorbis => 7,
                Codec::OggFlac => 4,
            };
            let p = byte_strings(h.packets@)[i as int];
            if p.len() >= n && body_pairs(p.skip(n)) is Some {
                r is Ok && pair_views(r->Ok_0@) == body_pairs(p.skip(n))->0.filter(
                    |p: (Seq<char>, Seq<char>)| is_text(p),
                )
            } else {
                r == Err::<Vec<(String, String)>, FormatError>(FormatError::Malformed)
            }
        },
{
    let m = header_model(h);
    if let Some(pairs) = comment_pairs(m) {
        texts_filtered(pairs);
    }
    if let Ok(v) = r {
        assert(pair_views(v@).len() == v@.len());
    }
}

/// The bytes that are no white space: no space, tab, line feed, form feed or carriage return.
pub open spec fn is_solid(b: u8) -> bool {
    b != 32 && b != 9 && b != 10 && b != 12 && b != 13
}

proof fn solid_filtered(s: Seq<u8>)
    ensures
        without_space(s) == s.filter(|b: u8| is_solid(b)),
    decreases s.len(),
{
    reveal(Seq::filter);
    if s.len() > 0 {
        solid_filtered(s.drop_last());
    }
    assert(without_space(s) =~= s.filter(|b: u8| is_solid(b)));
}

/// One more comment: a picture is decoded, whatever white space is in its text, and added; text
/// that is no base64 and bytes that are no picture are reported, by what is wrong and their
/// length; any other comment changes nothing.
pub proof fn pictures_of_comments(pairs: Seq<(Seq<char>, Seq<char>)>, p: (Seq<char>, Seq<char>))
    ensures
        ({
            let b = pictures_in_comments(pairs);
            let a = pictures_in_comments(pairs.push(p));
            let raw = b64_decoded(utf8(p.1).filter(|b: u8| is_solid(b)));
            if is_text(p) {
                a == b
            } else if raw is None {
                &&& a.pictures == b.pictures
                &&& a.dropped == b.dropped.push(("undecodable base64"@, utf8(p.1).len() as int))
            } else if picture_of(raw->0) is None {
                &&& a.pictures == b.pictures
                &&& a.dropped == b.dropped.push(
                    ("malformed PICTURE block"@, raw->0.len() as int),
                )
            } else {
                &&& a.pictures == b.pictures.push(picture_of(raw->0)->0)
                &&& a.dropped == b.dropped
            }
        }),
        pictures_in_comments(Seq::empty()).pictures.len() == 0,
        pictures_in_comments(Seq::empty()).dropped.len() == 0,
{
    picture_field();
    solid_filtered(utf8(p.1));
    assert(pairs.push(p).drop_last() =~= pairs);
}

/// One more packet of a FLAC stream: a block of type six is a picture, behind its four bytes;
/// one that is cut or is no picture is reported; any other packet changes nothing.
pub proof fn pictures_of_packets(packets: Seq<Seq<u8>>, p: Seq<u8>)
    ensures
        ({
            let b = pictures_in_packets(packets);
            let a = pictures_in_packets(packets.push(p));
            if p.len() == 0 || p[0] % 128 != 6 {
                a == b
            } else if p.len() < 4 {
                &&& a.pictures == b.pictures
                &&& a.dropped == b.dropped.push(
                    ("truncated PICTURE block header"@, p.len() as int),
                )
            } else if picture_of(p.skip(4)) is None {
                &&& a.pictures == b.pictures
                &&& a.dropped == b.dropped.push(("malformed PICTURE block"@, p.len() - 4))
            } else {
                &&& a.pictures == b.pictures.push(picture_of(p.skip(4))->0)
                &&& a.dropped == b.dropped
            }
        }),
        pictures_in_packets(Seq::empty()).pictures.len() == 0,
        pictures_in_packets(Seq::empty()).dropped.len() == 0,
{
    assert(packets.push(p).drop_last() =~= packets);
}

/// The pictures of a stream are those of its packets behind the first, in FLAC, and those of its
/// comments otherwise. With and without the report they are the same.
pub proof fn pictures_of_a_stream(
    data: &[u8],
    h: OggHeader,
    i: usize,
    r: Result<(Vec<EmbeddedPicture>, Vec<PictureDrop>)>,
    p: Result<Vec<EmbeddedPicture>>,
)
    requires
        pages_countable(data@),
        call_ensures(read_header, (data,), Ok::<OggHeader, FormatError>(h)),
        call_ensures(comment_packet_index, (&h,), i),
        call_ensures(read_pictures_reporting, (data,), r),
        call_ensures(read_pictures, (data,), p),
    ensures
        r is Ok == p is Ok,
        h.codec is OggFlac ==> match (r, p) {
            (Ok((pictures, dropped)), Ok(same)) => {
                let m = pictures_in_packets(byte_strings(h.packets@).skip(1));
                &&& picture_views(pictures@) == m.pictures
                &&& drop_views(dropped@) == m.dropped
                &&& picture_views(same@) == m.pictures
            },
            _ => false,
        },
        !(h.codec is OggFlac) ==> {
            let n = if h.codec is Opus {
                8int
            } else {
                7
            };
            let c = byte_strings(h.packets@)[1];
            match (r, p) {
                (Ok((pictures, dropped)), Ok(same)) => {
                    let m = pictures_in_comments(body_pairs(c.skip(n))->0);
                    &&& c.len() >= n && body_pairs(c.skip(n)) is Some
                    &&& picture_views(pictures@) == m.pictures
                    &&& drop_views(dropped@) == m.dropped
                    &&& picture_views(same@) == m.pictures
                },
                _ => c.len() < n || body_pairs(c.skip(n)) is None,
            }
        },
{
}

/// How many places from `lo` up to `hi` look like the start of a page that ends the bytes.
pub open spec fn candidates(tail: Seq<u8>, lo: int, hi: int) -> int
    decreases hi - lo + 1,
{
    if hi < lo {
        0
    } else {
        candidates(tail, lo, hi - 1) + if ends_at_end(tail, hi) {
            1int
        } else {
            0
        }
    }
}

proof fn candidates_range(tail: Seq<u8>, lo: int, hi: int)
    ensures
        0 <= candidates(tail, lo, hi),
    decreases hi - lo + 1,
{
    if hi >= lo {
        candidates_range(tail, lo, hi - 1);
    }
}

/// The last page is at `i`: it is whole, ends the bytes, and its checksum is right, and no page
/// behind it is.
pub open spec fn last_page_is_at(tail: Seq<u8>, i: int, hi: int) -> bool {
    &&& 0 <= i <= hi
    &&& ends_at_end(tail, i)
    &&& crc_matches(tail.skip(i))
    &&& forall|j: int|
        i < j <= hi && #[trigger] ends_at_end(tail, j) ==> !crc_matches(tail.skip(j))
}

proof fn tail_judged(tail: Seq<u8>, hi: int, spent: int, serial: u32, i: int)
    requires
        0 <= spent <= 64,
    ensures
        last_page_is_at(tail, i, hi) && spent + candidates(tail, i + 1, hi) < 64 ==> tail_verdict(
            tail,
            hi,
            spent,
            serial,
        ) == if le32(tail, i + 14) == serial {
            Chaining::Single
        } else {
            Chaining::Chained
        },
        last_page_is_at(tail, i, hi) && spent + candidates(tail, i + 1, hi) >= 64 ==> tail_verdict(
            tail,
            hi,
            spent,
            serial,
        ) == Chaining::Unknown,
        (forall|j: int|
            0 <= j <= hi && #[trigger] ends_at_end(tail, j) ==> !crc_matches(tail.skip(j)))
            ==> tail_verdict(tail, hi, spent, serial) == Chaining::Unknown,
    decreases hi + 1,
{
    if hi >= 0 {
        let now = if ends_at_end(tail, hi) {
            spent + 1
        } else {
            spent
        };
        if now <= 64 {
            tail_judged(tail, hi - 1, now, serial, i);
        }
        candidates_range(tail, i + 1, hi - 1);
        candidates_range(tail, i + 1, hi);
        if last_page_is_at(tail, i, hi) && i < hi {
            assert(last_page_is_at(tail, i, hi - 1));
        }
        if i == hi {
            assert(candidates(tail, i + 1, hi) == 0);
        }
    }
}

/// A tail belongs to the stream where its last page does, the last whose checksum is right; with
/// another stream's page it is chained. With no such page, or where 64 others look like one
/// before it, nothing is known.
pub proof fn tails_are_judged_by_their_last_page(
    tail: &[u8],
    tail_start: u64,
    serial: u32,
    i: int,
    r: Chaining,
)
    requires
        tail_start + tail@.len() <= u64::MAX,
        tail@.len() >= 4,
        call_ensures(classify_tail, (tail, tail_start, serial), r),
    ensures
        ({
            let d = tail@;
            let hi = d.len() - 4;
            let s = d[i + 14] + d[i + 15] * 256 + d[i + 16] * 65536 + d[i + 17] * 16777216;
            &&& last_page_is_at(d, i, hi) && candidates(d, i + 1, hi) < 64 ==> r == if s == serial {
                Chaining::Single
            } else {
                Chaining::Chained
            }
            &&& last_page_is_at(d, i, hi) && candidates(d, i + 1, hi) >= 64 ==> r
                == Chaining::Unknown
            &&& (forall|j: int|
                0 <= j <= hi && #[trigger] ends_at_end(d, j) ==> !crc_matches(d.skip(j))) ==> r
                == Chaining::Unknown
        }),
{
    tail_judged(tail@, tail@.len() - 4, 0, serial, i);
}

/// A whole file is judged by as much of its end as the largest page takes.
pub proof fn files_are_judged_by_their_tail(
    data: &[u8],
    tail: &[u8],
    tail_start: u64,
    serial: u32,
    r: Chaining,
    t: Chaining,
)
    requires
        data@.len() <= 65307 ==> tail@ == data@,
        data@.len() > 65307 ==> tail@ == data@.skip(data@.len() - 65307),
        tail_start + tail@.len() <= u64::MAX,
        call_ensures(classify_whole, (data, serial), r),
        call_ensures(classify_tail, (tail, tail_start, serial), t),
    ensures
        r == t,
{
    if data@.len() == 65307 {
        assert(data@.skip(0) =~= data@);
    }
}

/// The audio of a stream is all that follows its header. A stream without a header, one that is
/// chained, and one that ends in its header are malformed.
pub proof fn audio_follows_the_header(
    data: &[u8],
    h: Result<OggHeader>,
    c: Chaining,
    r: Result<OggScan>,
)
    requires
        pages_countable(data@),
        call_ensures(read_header, (data,), h),
        call_ensures(locate_audio, (data,), r),
        h is Ok ==> call_ensures(classify_whole, (data, h->Ok_0.serial), c),
    ensures
        match h {
            Ok(head) => if head.audio_offset <= data@.len() && c != Chaining::Chained {
                r is Ok && r->Ok_0.codec == head.codec && r->Ok_0.audio_offset == head.audio_offset
                    && r->Ok_0.audio_length == data@.len() - head.audio_offset
            } else {
                r == Err::<OggScan, FormatError>(FormatError::Malformed)
            },
            Err(_) => r == Err::<OggScan, FormatError>(FormatError::Malformed),
        },
{
}

/// A prefix that holds the header completes it; another is asked for twice as much, at least
/// 65536 bytes and at most the file; the whole file is malformed.
pub proof fn bounded_look_grows(
    prefix: &[u8],
    file_len: u64,
    h: Result<OggHeader>,
    r: Result<Extent<OggHeader>>,
)
    requires
        pages_countable(prefix@),
        call_ensures(read_header, (prefix,), h),
        call_ensures(read_metadata_bounded, (prefix, file_len), r),
    ensures
        match h {
            Ok(head) => r is Ok && r->Ok_0 is Complete && header_model(r->Ok_0->Complete_0)
                == header_model(head),
            Err(_) => if prefix@.len() >= file_len {
                r == Err::<Extent<OggHeader>, FormatError>(FormatError::Malformed)
            } else {
                r is Ok && r->Ok_0 is NeedMore && {
                    let n = r->Ok_0->up_to;
                    &&& n <= file_len
                    &&& n == file_len || n == 65536 || n == 2 * prefix@.len()
                    &&& n == file_len || (n >= 65536 && n >= 2 * prefix@.len())
                    &&& n == file_len ==> file_len <= 65536 || file_len <= 2 * prefix@.len()
                }
            },
        },
{
}

} // verus!
