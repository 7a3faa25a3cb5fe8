//! A header region laced from its packets reads back as that header region.

use super::header::codec_of;
use super::header::header_of;
use super::header::header_run;
use super::header::single_stream;
use super::header::Codec;
use super::header::HeaderModel;
use super::page::headers_laced;
use super::page::laced;
use super::page::lacing;
use super::page::lacing_sums_to_length;
use super::page::next_seq;
use super::page::page;
use super::page::page_flags;
use super::page::page_length;
use super::page::pages_of;
use super::page::packets_of;
use super::page::total_page_count;
use super::page_laws::full_prefix_sum;
use super::page_laws::header_models;
use super::page_laws::page_parses;
use super::page_laws::read_undoes_build_header;
use crate::bytes::be16;
use crate::bytes::le32;
use vstd::prelude::*;

verus! {

/// The pages of one packet belong to one bitstream, and so does all from them on if what
/// follows them does.
proof fn pages_are_single(
    d: Seq<u8>,
    p: int,
    end: int,
    serial: u32,
    seq: u32,
    bos: bool,
    first: bool,
    start: bool,
    payload: Seq<u8>,
)
    requires
        0 <= p,
        bos && first ==> start,
        ({
            let run = pages_of(serial, seq, bos, first, 0, lacing(payload.len() as int), payload);
            &&& p + run.len() <= d.len()
            &&& d.subrange(p, p + run.len()) == run
            &&& single_stream(d, p + run.len(), end, serial as int, false)
        }),
    ensures
        single_stream(d, p, end, serial as int, start),
        le32(d, p + 14) == serial,
    decreases payload.len(),
{
    let n = payload.len() as int;
    let laces = lacing(n);
    let run = pages_of(serial, seq, bos, first, 0, laces, payload);
    let flags = page_flags(bos, first);
    lacing_sums_to_length(n);
    assert(flags == 1 || flags == 2 || flags == 0);
    if laces.len() <= 255 {
        assert(laces.take(laces.len() as int) =~= laces);
        assert(payload.take(n) =~= payload);
        page_length(flags, 0, serial, seq, laces, payload);
        page_parses(d, p, flags, 0, serial, seq, laces, payload);
    } else {
        let table = laces.take(255);
        full_prefix_sum(laces, 255);
        let front = payload.take(65025);
        let head = page(flags, 0, serial, seq, table, front);
        let rest = pages_of(
            serial,
            next_seq(seq),
            bos,
            false,
            0,
            laces.skip(255),
            payload.skip(65025),
        );
        assert(run == head + rest);
        page_length(flags, 0, serial, seq, table, front);
        let next = p + head.len();
        assert(d.subrange(p, next) =~= d.subrange(p, p + run.len()).take(head.len() as int));
        assert(d.subrange(p, next) =~= head);
        page_parses(d, p, flags, 0, serial, seq, table, front);
        assert(laces.skip(255) =~= lacing(n - 65025));
        assert(d.subrange(next, next + rest.len()) =~= d.subrange(p, p + run.len()).skip(
            head.len() as int,
        ));
        assert(d.subrange(next, next + rest.len()) =~= rest);
        assert(next + rest.len() == p + run.len());
        pages_are_single(
            d,
            next,
            end,
            serial,
            next_seq(seq),
            bos,
            false,
            false,
            payload.skip(65025),
        );
    }
}

/// The pages of header packets belong to one bitstream.
proof fn headers_are_single(d: Seq<u8>, end: int, serial: u32, packets: Seq<Seq<u8>>)
    requires
        packets.len() > 0,
        headers_laced(serial, packets).len() <= d.len(),
        d.take(headers_laced(serial, packets).len() as int) == headers_laced(serial, packets),
        single_stream(d, headers_laced(serial, packets).len() as int, end, serial as int, false),
    ensures
        single_stream(d, 0, end, serial as int, true),
        le32(d, 14) == serial,
    decreases packets.len(),
{
    let before = packets.drop_last();
    let head = headers_laced(serial, before);
    let bos = packets.len() == 1;
    let run = laced(serial, total_page_count(before) as u32, bos, 0, packets.last());
    let whole = head + run;
    let p = head.len() as int;
    assert(d.subrange(p, p + run.len()) =~= d.take(whole.len() as int).skip(p));
    assert(whole.skip(p) =~= run);
    assert(d.take(p) =~= d.take(whole.len() as int).take(p));
    assert(whole.take(p) =~= head);
    pages_are_single(
        d,
        p,
        end,
        serial,
        total_page_count(before) as u32,
        bos,
        true,
        bos,
        packets.last(),
    );
    if before.len() > 0 {
        headers_are_single(d, end, serial, before);
    } else {
        assert(head =~= Seq::empty());
    }
}

/// The packets are those of a whole header region: as many as the first of them asks for.
pub open spec fn whole_header(codec: Codec, packets: Seq<Seq<u8>>) -> bool {
    &&& packets.len() > 0
    &&& codec_of(packets[0]) == Some(codec)
    &&& match codec {
        Codec::Opus => packets.len() == 2,
        Codec::Vorbis => packets.len() == 3,
        Codec::OggFlac => packets[0].len() >= 9 && packets.len() > 1 && be16(packets[0], 7)
            == packets.len() - 1,
    }
}

/// Reading the header undoes lacing it: whatever follows, codec, serial and packets come
/// back, and the audio begins where the header ends.
pub proof fn laced_header_reads_back(
    codec: Codec,
    serial: u32,
    packets: Seq<Seq<u8>>,
    after: Seq<u8>,
)
    requires
        whole_header(codec, packets),
    ensures
        header_of(headers_laced(serial, packets) + after) == Some(
            HeaderModel {
                codec,
                serial,
                packets,
                header_pages: total_page_count(packets),
                audio_offset: headers_laced(serial, packets).len() as int,
            },
        ),
{
    let head = headers_laced(serial, packets);
    let d = head + after;
    let pk = packets_of(d);
    let n = packets.len() as int;
    read_undoes_build_header(serial, packets, after);
    let models = header_models(serial, packets);
    assert(pk.len() >= n);
    assert forall|i: int| 0 <= i < n implies (#[trigger] pk[i]) == models[i] by {}
    assert(pk[0] == models[0] && pk[n - 1] == models[n - 1]);
    assert(models[0].data == packets[0]);
    assert(header_run(pk) == Some(n));
    let last = pk[n - 1];
    assert(last == models.last());
    assert(last.end_offset == head.len());
    assert(last.pages_through_end == total_page_count(packets));
    assert(d.take(head.len() as int) =~= head);
    headers_are_single(d, head.len() as int, serial, packets);
    assert(Seq::new(n as nat, |i: int| pk[i].data) =~= packets) by {
        assert forall|i: int| 0 <= i < n implies (#[trigger] pk[i]).data == packets[i] by {
            assert(models[i].data == packets[i]);
        }
    }
}

} // verus!
