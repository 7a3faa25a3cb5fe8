//! The packets and pages that are written, field by field.

use crate::bytes::be16_bytes;
use crate::bytes::le32;
use crate::bytes::le32_bytes;
use crate::bytes::le64;
use crate::error::FormatError;
use crate::error::Result;
use crate::flac::block_header;
use crate::input::TagInput;
use crate::mp4::value_laws::big_endian;
use crate::ogg::b64::b64_len_checked;
use crate::ogg::chunks::ChunkModel;
use crate::ogg::chunks::PayloadChunk;
use crate::ogg::header::byte_strings;
use crate::ogg::header::Codec;
use crate::ogg::header::OggHeader;
use crate::ogg::page::lacing_values;
use crate::ogg::page::parse_page;
use crate::ogg::page::patch_page_header;
use crate::ogg::page::PageHeader;
use crate::input::ArtInput;
use crate::mp4::box_laws::four_big_endian;
use crate::ogg::page::lace_packet;
use crate::ogg::page::lace_sum;
use crate::ogg::page::next_seq;
use crate::ogg::page::page;
use crate::ogg::page::page_share;
use crate::ogg::page::page_starts;
use crate::ogg::page::page_total_len;
use crate::ogg::page::pages_of;
use crate::ogg::page_laws::page_parses;
use crate::ogg::read_laws::page_place;
use crate::ogg::read_laws::places_shift;
use crate::ogg::synth::picture_prefix;
use crate::ogg::synth::prefix_is_aligned;
use crate::ogg::synth::build_packets_with_art;
use crate::ogg::synth::carried;
use crate::ogg::synth::comment_chunks;
use crate::ogg::synth::header_usable;
use crate::ogg::synth::metas;
use crate::ogg::synth::new_mapping;
use crate::ogg::synth::packets_view;
use crate::ogg::synth::written_arts;
use crate::ogg::synth::OggArt;
use crate::slot_laws::code;
use crate::text::utf8;
use crate::vorbis_laws::body_of;
use crate::vorbis_laws::body_written;
use crate::vorbis_laws::countable;
use crate::vorbis_laws::little_endian;
use crate::vorbis_laws::tag_comments;
use vstd::prelude::*;
use vstd::string::*;

verus! {

/// The packet holds a block that is kept: an application, a seek table or a cue sheet.
pub open spec fn keeps_block(p: Seq<u8>) -> bool {
    p.len() > 0 && (p[0] % 128 == 2 || p[0] % 128 == 3 || p[0] % 128 == 5)
}

/// A block that is not the last.
pub open spec fn not_the_last(p: Seq<u8>) -> Seq<u8> {
    seq![(p[0] % 128) as u8] + p.skip(1)
}

/// One packet of plain bytes.
pub open spec fn plain_packet(b: Seq<u8>) -> Seq<ChunkModel> {
    seq![ChunkModel::Bytes(b)]
}

proof fn carried_filtered(packets: Seq<Seq<u8>>)
    ensures
        carried(packets) == packets.filter(|p: Seq<u8>| keeps_block(p)).map_values(
            |p: Seq<u8>| plain_packet(not_the_last(p)),
        ),
    decreases packets.len(),
{
    reveal(Seq::filter);
    if packets.len() > 0 {
        carried_filtered(packets.drop_last());
        let p = packets.last();
        if keeps_block(p) {
            assert(crate::ogg::synth::flagged(p, false) =~= not_the_last(p));
        }
    }
    assert(carried(packets) =~= packets.filter(|p: Seq<u8>| keeps_block(p)).map_values(
        |p: Seq<u8>| plain_packet(not_the_last(p)),
    ));
}

/// The first packet of a FLAC stream with another number of packets behind it: the two bytes
/// that count them are new, the stream information is not the last block, and nothing else
/// changes.
pub proof fn first_packet_is_recounted(m: Seq<u8>, count: int, k: int)
    requires
        m.len() >= 9,
        0 <= count <= 65535,
        0 <= k < m.len(),
    ensures
        new_mapping(m, count).len() == m.len(),
        new_mapping(m, count).subrange(7, 9) == big_endian(count, 2),
        k != 7 && k != 8 && k != 13 ==> new_mapping(m, count)[k] == m[k],
        k == 13 ==> new_mapping(m, count)[k] == m[k] % 128,
{
    reveal_with_fuel(big_endian, 3);
    assert(big_endian(count, 2) =~= be16_bytes(count));
    let r = new_mapping(m, count);
    assert(r.subrange(7, 9) =~= be16_bytes(count));
}

proof fn none_written(arts: Seq<crate::input::ArtInput>, last: bool, head: Seq<u8>)
    requires
        forall|i: int| 0 <= i < arts.len() ==> (#[trigger] arts[i]).data_len == 0,
    ensures
        written_arts(arts).len() == 0,
        crate::ogg::synth::art_packets(arts, last).len() == 0,
        crate::ogg::synth::after_arts(head, arts) == (Seq::<ChunkModel>::empty(), head),
    decreases arts.len(),
{
    if arts.len() > 0 {
        let f = arts.drop_last();
        assert forall|i: int| 0 <= i < f.len() implies (#[trigger] f[i]).data_len == 0 by {
            assert(f[i] == arts[i]);
        }
        none_written(f, last, head);
        assert(arts[arts.len() - 1].data_len == 0);
    }
}

/// The header packets of a stream without pictures. Opus keeps its first packet and Vorbis its
/// first and third; the second is the mark and the comments, and in Vorbis a one bit in a byte
/// of its own. FLAC keeps its first packet, recounted, and the blocks that are kept, in order;
/// then comes the comment block, which is the last.
pub proof fn plain_headers_are_written(
    header: &OggHeader,
    tags: &[TagInput],
    arts: &[OggArt<'_>],
    r: Result<Vec<Vec<PayloadChunk>>>,
)
    requires
        header_usable(*header),
        call_ensures(build_packets_with_art, (header, tags, arts), r),
        forall|i: int| 0 <= i < arts@.len() ==> (#[trigger] metas(arts@)[i]).data_len == 0,
    ensures
        match r {
            Ok(v) => {
                let p = byte_strings(header.packets@);
                let comments = body_of(utf8("musefs"@), tag_comments(tags@));
                match header.codec {
                    Codec::Opus => packets_view(v@) == seq![
                        plain_packet(p[0]),
                        plain_packet(code("OpusTags"@) + comments),
                    ],
                    Codec::Vorbis => packets_view(v@) == seq![
                        plain_packet(p[0]),
                        plain_packet(seq![3u8] + code("vorbis"@) + comments + seq![1u8]),
                        plain_packet(p[2]),
                    ],
                    Codec::OggFlac => {
                        let kept = p.skip(1).filter(|p: Seq<u8>| keeps_block(p)).map_values(
                            |p: Seq<u8>| plain_packet(not_the_last(p)),
                        );
                        &&& p.len() > 0 && p[0].len() >= 9
                        &&& packets_view(v@) == seq![
                            plain_packet(new_mapping(p[0], 1 + kept.len() as int)),
                        ] + kept + seq![
                            plain_packet(
                                seq![132u8] + big_endian(comments.len() as int, 3) + comments,
                            ),
                        ]
                        &&& comments.len() <= 0xff_ffff
                        &&& 1 + kept.len() <= 65535
                    },
                }
            },
            Err(_) => true,
        },
{
    body_written(tags@);
    carried_filtered(byte_strings(header.packets@).skip(1));
    reveal_strlit("OpusTags");
    reveal_strlit("vorbis");
    assert(code("OpusTags"@) =~= crate::ogg::synth::OPUS_TAGS@);
    assert(seq![3u8] + code("vorbis"@) =~= crate::ogg::synth::VORBIS_COMMENT@);
    let c = body_of(utf8("musefs"@), tag_comments(tags@));
    assert(crate::ogg::synth::open_comment_body(tags@, 0) =~= c);
    none_written(metas(arts@), true, crate::ogg::synth::OPUS_TAGS@ + c);
    none_written(metas(arts@), true, crate::ogg::synth::VORBIS_COMMENT@ + c);
    assert(code("OpusTags"@).len() == 8);
    if let Ok(v) = r {
        match header.codec {
            Codec::Opus => {
                assert(comment_chunks(
                    crate::ogg::synth::OPUS_TAGS@,
                    tags@,
                    metas(arts@),
                    false,
                ) =~= plain_packet(code("OpusTags"@) + c));
            },
            Codec::Vorbis => {
                let w = seq![3u8] + code("vorbis"@) + c + seq![1u8];
                assert((crate::ogg::synth::VORBIS_COMMENT@ + c).push(1u8) =~= w);
                assert(comment_chunks(
                    crate::ogg::synth::VORBIS_COMMENT@,
                    tags@,
                    metas(arts@),
                    true,
                ) =~= plain_packet(w));
            },
            Codec::OggFlac => {
                let n = c.len() as int;
                reveal_with_fuel(big_endian, 4);
                assert(big_endian(n, 3) =~= seq![
                    (n / 256 / 256 % 256) as u8,
                    (n / 256 % 256) as u8,
                    (n % 256) as u8,
                ]);
                assert(block_header(4, n, true) =~= seq![132u8] + big_endian(n, 3));
                assert(packets_view(v@) =~= seq![
                    plain_packet(
                        new_mapping(
                            byte_strings(header.packets@)[0],
                            1 + carried(byte_strings(header.packets@).skip(1)).len() as int,
                        ),
                    ),
                ] + carried(byte_strings(header.packets@).skip(1)) + seq![
                    plain_packet(seq![132u8] + big_endian(n, 3) + c),
                ]);
            },
        }
    }
}

/// The base64 text of any bytes has four characters for every three bytes begun.
pub proof fn base64_lengths(n: u64, r: Option<u64>)
    requires
        call_ensures(b64_len_checked, (n,), r),
    ensures
        match r {
            Some(m) => m % 4 == 0 && 3 * m >= 4 * n && 3 * m < 4 * n + 12,
            None => 4 * n > 3 * (0xffff_ffff_ffff_ffff - 3),
        },
{
}

/// A lacing table has a 255 for every 255 bytes, and then one value that is less.
pub proof fn lacing_tables(n: usize, r: Vec<u8>, k: int)
    requires
        call_ensures(lacing_values, (n,), r),
    ensures
        r@.len() > 0,
        255 * (r@.len() - 1) + r@[r@.len() - 1] == n,
        r@[r@.len() - 1] < 255,
        0 <= k < r@.len() - 1 ==> r@[k] == 255,
{
}

/// The values of a table add up.
pub open spec fn added_up(t: Seq<u8>) -> int
    decreases t.len(),
{
    if t.len() == 0 {
        0
    } else {
        t[0] + added_up(t.drop_first())
    }
}

pub(crate) proof fn sums_agree(t: Seq<u8>)
    ensures
        crate::ogg::page::lace_sum(t) == added_up(t),
    decreases t.len(),
{
    if t.len() > 0 {
        let one = seq![t[0]];
        assert(t =~= one + t.drop_first());
        crate::ogg::page::lace_sum_concat(one, t.drop_first());
        assert(one.drop_last() =~= Seq::empty());
        assert(crate::ogg::page::lace_sum(one) == t[0]) by {
            reveal_with_fuel(crate::ogg::page::lace_sum, 2);
        }
        sums_agree(t.drop_first());
    }
}

/// The number that four bytes hold, the least significant first.
pub open spec fn word_at(d: Seq<u8>, p: int) -> int {
    d[p] + d[p + 1] * 256 + d[p + 2] * 65536 + d[p + 3] * 16777216
}

/// A page header is read field by field: its mark and version, its flags, its position, the
/// stream, its number, its checksum and its table. Without the mark, in another version, or cut
/// in its table it is malformed.
pub proof fn page_headers_are_parsed(buf: &[u8], pos: usize, r: Result<PageHeader>)
    requires
        call_ensures(parse_page, (buf, pos), r),
    ensures
        ({
            let d = buf@;
            let p = pos as int;
            let begins = p + 27 <= d.len() && d[p] == 0x4f && d[p + 1] == 0x67 && d[p + 2] == 0x67
                && d[p + 3] == 0x53 && d[p + 4] == 0 && p + 27 + d[p + 26] <= d.len();
            match r {
                Ok(h) => {
                    let table = d.subrange(p + 27, p + 27 + d[p + 26]);
                    &&& begins
                    &&& h.header_type == d[p + 5]
                    &&& h.granule == word_at(d, p + 6) + word_at(d, p + 10) * 4294967296
                    &&& h.serial == word_at(d, p + 14)
                    &&& h.seq == word_at(d, p + 18)
                    &&& h.crc == word_at(d, p + 22)
                    &&& h.seg_count == d[p + 26]
                    &&& h.header_len == 27 + d[p + 26]
                    &&& h.payload_len == added_up(table)
                },
                Err(e) => !begins && e == FormatError::Malformed,
            }
        }),
{
    let d = buf@;
    let p = pos as int;
    let mark = seq![0x4fu8, 0x67u8, 0x67u8, 0x53u8];
    if p + 27 <= d.len() {
        if d[p] == 0x4f && d[p + 1] == 0x67 && d[p + 2] == 0x67 && d[p + 3] == 0x53 {
            assert(d.subrange(p, p + 4) =~= mark);
        }
        if d.subrange(p, p + 4) == mark {
            assert(d.subrange(p, p + 4)[0] == d[p] && d.subrange(p, p + 4)[1] == d[p + 1]
                && d.subrange(p, p + 4)[2] == d[p + 2] && d.subrange(p, p + 4)[3] == d[p + 3]);
        }
        sums_agree(d.subrange(p + 27, p + 27 + d[p + 26]));
    }
}

/// A patched header is the page's own, but for its number and its checksum.
pub proof fn patched_headers_keep_the_rest(
    page: &[u8],
    new_seq: u32,
    k: int,
    r: Result<Vec<u8>>,
)
    requires
        call_ensures(patch_page_header, (page, new_seq), r),
    ensures
        match r {
            Ok(v) => {
                &&& v@.len() == 27 + page@[26]
                &&& v@.subrange(18, 22) == little_endian(new_seq as int)
                &&& 0 <= k < 18 || 26 <= k < v@.len() ==> v@[k] == page@[k]
            },
            Err(e) => e == FormatError::Malformed,
        },
{
    if let Ok(v) = r {
        assert(little_endian(new_seq as int) =~= le32_bytes(new_seq as int));
        assert(v@.subrange(18, 22) =~= le32_bytes(new_seq as int));
    }
}

/// The first page of a packet, and what follows it.
#[verifier::spinoff_prover]
#[verifier::rlimit(60)]
proof fn first_page_marked(
    d: Seq<u8>,
    p: int,
    serial: u32,
    seq: u32,
    bos: bool,
    first: bool,
    granule: u64,
    laces: Seq<u8>,
    payload: Seq<u8>,
)
    requires
        0 <= p,
        laces.len() > 0,
        lace_sum(laces) == payload.len(),
        stands_at(d, p, pages_of(serial, seq, bos, first, granule, laces, payload)),
    ensures
        page_starts(d, p),
        d[p + 5] == if !first {
            1
        } else if bos {
            2
        } else {
            0int
        },
        le64(d, p + 6) == granule,
        le32(d, p + 14) == serial,
        le32(d, p + 18) == seq,
        ({
            let m = page_share(laces.len() as int);
            let n = lace_sum(laces.take(m));
            let rest = pages_of(
                serial,
                next_seq(seq),
                bos,
                false,
                granule,
                laces.skip(m),
                payload.skip(n),
            );
            let all = pages_of(serial, seq, bos, first, granule, laces, payload);
            if laces.len() > 255 {
                &&& laces.skip(m).len() > 0
                &&& lace_sum(laces.skip(m)) == payload.skip(n).len()
                &&& stands_at(d, p + page_total_len(d, p), rest)
                &&& page_total_len(d, p) + rest.len() == all.len()
            } else {
                page_total_len(d, p) == all.len()
            }
        }),
{
    let all = pages_of(serial, seq, bos, first, granule, laces, payload);
    let m = page_share(laces.len() as int);
    let table = laces.take(m);
    let n = lace_sum(table);
    assert(laces =~= table + laces.skip(m));
    crate::ogg::page::lace_sum_concat(table, laces.skip(m));
    crate::ogg::page::lace_sum_range(table);
    crate::ogg::page::lace_sum_range(laces.skip(m));
    if laces.len() <= 255 {
        assert(laces.skip(m) =~= Seq::empty());
    }
    let body = payload.take(n);
    let flags = crate::ogg::page::page_flags(bos, first);
    let head = page(flags, granule, serial, seq, table, body);
    crate::ogg::page::page_length(flags, granule, serial, seq, table, body);
    let len = head.len() as int;
    assert(d.subrange(p, p + all.len()).take(len) =~= d.subrange(p, p + len));
    assert(all.take(len) =~= head);
    page_parses(d, p, flags, granule, serial, seq, table, body);
    if laces.len() > 255 {
        assert(d.subrange(p, p + all.len()).skip(len) =~= d.subrange(p + len, p + all.len()));
        assert(all.skip(len) =~= pages_of(
            serial,
            next_seq(seq),
            bos,
            false,
            granule,
            laces.skip(m),
            payload.skip(n),
        ));
    }
}

/// The bytes stand at `p`.
pub open spec fn stands_at(d: Seq<u8>, p: int, b: Seq<u8>) -> bool {
    0 <= p && p + b.len() <= d.len() && d.subrange(p, p + b.len()) == b
}

/// The pages of a packet from `p` on, one by one.
#[verifier::spinoff_prover]
#[verifier::rlimit(60)]
proof fn pages_marked(
    d: Seq<u8>,
    p: int,
    serial: u32,
    seq: u32,
    bos: bool,
    first: bool,
    granule: u64,
    laces: Seq<u8>,
    payload: Seq<u8>,
    k: nat,
    end: int,
)
    requires
        0 <= p,
        laces.len() > 0,
        lace_sum(laces) == payload.len(),
        stands_at(d, p, pages_of(serial, seq, bos, first, granule, laces, payload)),
        p + pages_of(serial, seq, bos, first, granule, laces, payload).len() == end,
        forall|j: nat| j <= k ==> #[trigger] page_place(d, p, j) < end,
    ensures
        page_starts(d, page_place(d, p, k)),
        d[page_place(d, p, k) + 5] == if k > 0 || !first {
            1
        } else if bos {
            2
        } else {
            0int
        },
        le64(d, page_place(d, p, k) + 6) == granule,
        le32(d, page_place(d, p, k) + 14) == serial,
        le32(d, page_place(d, p, k) + 18) == (seq + k) % 4294967296,
    decreases k,
{
    first_page_marked(d, p, serial, seq, bos, first, granule, laces, payload);
    assert(page_place(d, p, 0) == p);
    if k > 0 {
        let m = page_share(laces.len() as int);
        let n = lace_sum(laces.take(m));
        let next = p + page_total_len(d, p);
        places_shift(d, p, (k - 1) as nat);
        places_shift(d, p, 0);
        assert(page_place(d, next, 0) == next);
        assert(page_place(d, p, 1) == next);
        assert forall|j: nat| j <= k - 1 implies #[trigger] page_place(d, next, j) < end by {
            places_shift(d, p, j);
            assert(page_place(d, p, j + 1) == page_place(d, next, j));
        }
        pages_marked(
            d,
            next,
            serial,
            next_seq(seq),
            bos,
            false,
            granule,
            laces.skip(m),
            payload.skip(n),
            (k - 1) as nat,
            end,
        );
    }
}

/// The pages of a packet are all of its stream and position, and numbered one after the other.
/// The first says whether it begins the stream; each other continues the packet.
pub proof fn pages_of_a_packet_are_marked(
    serial: u32,
    seq: u32,
    bos: bool,
    granule: u64,
    packet: &[u8],
    k: nat,
    r: (Vec<u8>, u32),
)
    requires
        call_ensures(lace_packet, (serial, seq, bos, granule, packet), r),
        forall|j: nat| j <= k ==> #[trigger] page_place(r.0@, 0, j) < r.0@.len(),
    ensures
        ({
            let d = r.0@;
            let q = page_place(d, 0, k);
            &&& page_starts(d, q)
            &&& d[q + 5] == if k > 0 {
                1
            } else if bos {
                2
            } else {
                0int
            }
            &&& word_at(d, q + 6) + word_at(d, q + 10) * 4294967296 == granule
            &&& word_at(d, q + 14) == serial
            &&& word_at(d, q + 18) == (seq + k) % 4294967296
        }),
{
    let laces = crate::ogg::page::lacing(packet@.len() as int);
    crate::ogg::page::lacing_sums_to_length(packet@.len() as int);
    let d = r.0@;
    assert(d.subrange(0, d.len() as int) =~= d);
    pages_marked(d, 0, serial, seq, bos, true, granule, laces, packet@, k, d.len() as int);
}

/// The front of a picture is that of a picture block whose description ends in as many spaces,
/// two at most, as make its length a multiple of three.
#[verifier::spinoff_prover]
#[verifier::rlimit(60)]
pub proof fn picture_fronts_are_padded(art: &ArtInput, r: Result<Vec<u8>>)
    requires
        call_ensures(picture_prefix, (art,), r),
    ensures
        match r {
            Ok(v) => exists|n: nat| #[trigger] is_padded_front(v@, *art, n),
            Err(e) => e == FormatError::TooLarge,
        },
{
    if let Ok(v) = r {
        let d = crate::ogg::synth::padded_description(*art);
        let n = crate::ogg::synth::padding(
            utf8(art.mime@).len() as int,
            utf8(art.description@).len() as int,
        ) as nat;
        four_big_endian(art.picture_type as int);
        four_big_endian(utf8(art.mime@).len() as int);
        four_big_endian(d.len() as int);
        four_big_endian(art.width as int);
        four_big_endian(art.height as int);
        four_big_endian(0);
        four_big_endian(art.data_len as int);
        assert(d =~= utf8(art.description@) + Seq::new(n, |i: int| 32u8));
        prefix_is_aligned(*art);
        assert(is_padded_front(v@, *art, n));
    }
}

/// The front of a picture block with `n` spaces behind its description.
pub open spec fn is_padded_front(v: Seq<u8>, art: ArtInput, n: nat) -> bool {
    let d = utf8(art.description@) + Seq::new(n, |i: int| 32u8);
    &&& n <= 2
    &&& v.len() % 3 == 0
    &&& v == big_endian(art.picture_type as int, 4) + big_endian(utf8(art.mime@).len() as int, 4)
        + utf8(art.mime@) + big_endian(d.len() as int, 4) + d + big_endian(art.width as int, 4)
        + big_endian(art.height as int, 4) + big_endian(0, 4) + big_endian(0, 4) + big_endian(
        art.data_len as int,
        4,
    )
}

/// The picture is not empty.
pub open spec fn is_drawn(art: ArtInput) -> bool {
    art.data_len > 0
}

proof fn drawn_filtered(arts: Seq<ArtInput>)
    ensures
        written_arts(arts) == arts.filter(|a: ArtInput| is_drawn(a)),
    decreases arts.len(),
{
    reveal(Seq::filter);
    if arts.len() > 0 {
        drawn_filtered(arts.drop_last());
    }
    assert(written_arts(arts) =~= arts.filter(|a: ArtInput| is_drawn(a)));
}

/// The bytes in front of an image: 32 and the MIME type and the description, up to a multiple of
/// three.
pub open spec fn front_len(art: ArtInput) -> int {
    (34 + utf8(art.mime@).len() + utf8(art.description@).len()) as int / 3 * 3
}

/// The lengths in front of an image fit 32 bits.
pub open spec fn lengths_fit(art: ArtInput) -> bool {
    &&& utf8(art.mime@).len() <= 0xffff_ffff
    &&& front_len(art) - 32 - utf8(art.mime@).len() <= 0xffff_ffff
    &&& art.data_len <= 0xffff_ffff
}

proof fn front_lens(art: ArtInput)
    ensures
        crate::ogg::synth::prefix_of(art).len() == front_len(art),
        crate::ogg::synth::prefix_fits(art) == lengths_fit(art),
{
    prefix_is_aligned(art);
}

/// The header packets of Opus and Vorbis are too large where a count or the length of a comment
/// is over 32 bits, a picture's with its name and both its texts in base64; and only then.
pub proof fn large_comments_are_refused(
    header: &OggHeader,
    tags: &[TagInput],
    arts: &[OggArt<'_>],
    r: Result<Vec<Vec<PayloadChunk>>>,
)
    requires
        header_usable(*header),
        !(header.codec is OggFlac),
        call_ensures(build_packets_with_art, (header, tags, arts), r),
    ensures
        ({
            let pictures = metas(arts@);
            let fits = countable(Seq::empty(), tag_comments(tags@)) && tag_comments(tags@).len()
                + pictures.filter(|a: ArtInput| is_drawn(a)).len() <= 0xffff_ffff && forall|i: int|
                0 <= i < pictures.len() && is_drawn(#[trigger] pictures[i]) ==> lengths_fit(
                    pictures[i],
                ) && 23 + front_len(pictures[i]) / 3 * 4 + (pictures[i].data_len + 2) / 3 * 4
                    <= 0xffff_ffff;
            if fits {
                r is Ok
            } else {
                r == Err::<Vec<Vec<PayloadChunk>>, FormatError>(FormatError::TooLarge)
            }
        }),
{
    let pictures = metas(arts@);
    drawn_filtered(pictures);
    body_written(tags@);
    crate::vorbis_laws::comments_listed(tags@);
    assert forall|i: int| 0 <= i < pictures.len() implies crate::ogg::synth::art_comment_fits(
        #[trigger] pictures[i],
    ) == (is_drawn(pictures[i]) ==> lengths_fit(pictures[i]) && 23 + front_len(pictures[i]) / 3 * 4
        + (pictures[i].data_len + 2) / 3 * 4 <= 0xffff_ffff) by {
        front_lens(pictures[i]);
        assert((front_len(pictures[i]) + 2) / 3 == front_len(pictures[i]) / 3);
    }
}

/// The header packets of FLAC are malformed without a first packet, or with one that is cut, and
/// too large where the comments or a picture are over 24 bits or there are more than 65535
/// packets behind the first.
pub proof fn large_blocks_are_refused(
    header: &OggHeader,
    tags: &[TagInput],
    arts: &[OggArt<'_>],
    r: Result<Vec<Vec<PayloadChunk>>>,
)
    requires
        header.codec is OggFlac,
        call_ensures(build_packets_with_art, (header, tags, arts), r),
    ensures
        ({
            let p = byte_strings(header.packets@);
            let pictures = metas(arts@);
            let fits = countable(Seq::empty(), tag_comments(tags@)) && body_of(
                utf8("musefs"@),
                tag_comments(tags@),
            ).len() <= 0xff_ffff && p.skip(1).filter(|p: Seq<u8>| keeps_block(p)).len() + 1
                + pictures.filter(|a: ArtInput| is_drawn(a)).len() <= 65535 && forall|i: int|
                0 <= i < pictures.len() && is_drawn(#[trigger] pictures[i]) ==> lengths_fit(
                    pictures[i],
                ) && front_len(pictures[i]) + pictures[i].data_len <= 0xff_ffff;
            if p.len() == 0 || fits && p[0].len() < 9 {
                r == Err::<Vec<Vec<PayloadChunk>>, FormatError>(FormatError::Malformed)
            } else if !fits {
                r == Err::<Vec<Vec<PayloadChunk>>, FormatError>(FormatError::TooLarge)
            } else {
                r is Ok
            }
        }),
{
    let pictures = metas(arts@);
    drawn_filtered(pictures);
    body_written(tags@);
    carried_filtered(byte_strings(header.packets@).skip(1));
    assert forall|i: int| 0 <= i < pictures.len() implies crate::ogg::synth::art_block_fits(
        #[trigger] pictures[i],
    ) == (is_drawn(pictures[i]) ==> lengths_fit(pictures[i]) && front_len(pictures[i])
        + pictures[i].data_len <= 0xff_ffff) by {
        front_lens(pictures[i]);
    }
}

} // verus!
