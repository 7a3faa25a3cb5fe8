//! Pages as written by anyone, and the packets that they hold.

use crate::error::FormatError;
use crate::error::Result;
use crate::ogg::page::lace_sum;
use crate::ogg::page::lace_sum_concat;
use crate::ogg::page::lace_sum_range;
use crate::ogg::page::packet_models;
use crate::ogg::page::packets_from;
use crate::ogg::page::packets_of;
use crate::ogg::page::page_starts;
use crate::ogg::page::page_table;
use crate::ogg::page::page_total_len;
use crate::ogg::page::pages_countable;
use crate::ogg::page::read_packets;
use crate::ogg::page::segment_start;
use crate::ogg::page::PacketModel;
use crate::ogg::page::ReadPacket;
use crate::ogg::read_laws::packet_bytes;
use crate::ogg::write_laws::added_up;
use crate::ogg::write_laws::sums_agree;
use vstd::prelude::*;

verus! {

/// A page: what stands between its version and its table, the table, and the payload.
pub ghost struct AnyPage {
    pub fields: Seq<u8>,
    pub table: Seq<u8>,
    pub payload: Seq<u8>,
}

/// The bytes of a page.
pub open spec fn page_bytes(g: AnyPage) -> Seq<u8> {
    seq![0x4fu8, 0x67u8, 0x67u8, 0x53u8, 0u8] + g.fields + seq![g.table.len() as u8] + g.table
        + g.payload
}

/// The page is sound: its fields have 21 bytes, and its table at most 255 values, which add up
/// to its payload.
pub open spec fn is_sound(g: AnyPage) -> bool {
    g.fields.len() == 21 && g.table.len() <= 255 && added_up(g.table) == g.payload.len()
}

/// Pages in a row.
pub open spec fn pages_in_a_row(pages: Seq<AnyPage>) -> Seq<u8>
    decreases pages.len(),
{
    if pages.len() == 0 {
        Seq::empty()
    } else {
        page_bytes(pages[0]) + pages_in_a_row(pages.drop_first())
    }
}

/// All the lacing values of pages.
pub open spec fn all_laces(pages: Seq<AnyPage>) -> Seq<u8>
    decreases pages.len(),
{
    if pages.len() == 0 {
        Seq::empty()
    } else {
        pages[0].table + all_laces(pages.drop_first())
    }
}

/// All the payload of pages.
pub open spec fn all_payload(pages: Seq<AnyPage>) -> Seq<u8>
    decreases pages.len(),
{
    if pages.len() == 0 {
        Seq::empty()
    } else {
        pages[0].payload + all_payload(pages.drop_first())
    }
}

/// The packets that lacing values cut a payload into, where `begun` has been gathered: a value
/// under 255 ends a packet.
pub open spec fn cut_up(laces: Seq<u8>, payload: Seq<u8>, begun: Seq<u8>) -> Seq<Seq<u8>>
    decreases laces.len(),
{
    if laces.len() == 0 {
        Seq::empty()
    } else {
        let data = begun + payload.take(laces[0] as int);
        let rest = payload.skip(laces[0] as int);
        if laces[0] < 255 {
            seq![data] + cut_up(laces.drop_first(), rest, Seq::empty())
        } else {
            cut_up(laces.drop_first(), rest, data)
        }
    }
}

/// A sound page where it stands.
proof fn page_stands(d: Seq<u8>, p: int, g: AnyPage)
    requires
        is_sound(g),
        0 <= p,
        p + page_bytes(g).len() <= d.len(),
        d.subrange(p, p + page_bytes(g).len()) == page_bytes(g),
    ensures
        page_starts(d, p),
        d[p + 26] == g.table.len(),
        page_table(d, p) == g.table,
        page_total_len(d, p) == page_bytes(g).len(),
        page_bytes(g).len() == 27 + g.table.len() + g.payload.len(),
        d.subrange(p + 27 + g.table.len(), p + page_bytes(g).len()) == g.payload,
{
    let w = page_bytes(g);
    let t = g.table.len() as int;
    assert(w.len() == 27 + t + g.payload.len());
    assert forall|k: int| 0 <= k < w.len() implies d[p + k] == #[trigger] w[k] by {
        assert(d.subrange(p, p + w.len())[k] == d[p + k]);
    }
    assert(w[0] == 0x4f && w[1] == 0x67 && w[2] == 0x67 && w[3] == 0x53 && w[4] == 0);
    assert(w[26] == t as u8);
    assert(d[p] == w[0] && d[p + 1] == w[1] && d[p + 2] == w[2] && d[p + 3] == w[3] && d[p + 4]
        == w[4] && d[p + 26] == w[26]);
    assert(d.subrange(p, p + 4) =~= crate::ogg::page::capture());
    assert(d.subrange(p + 27, p + 27 + t) =~= g.table) by {
        assert forall|k: int| 0 <= k < t implies d[p + 27 + k] == g.table[k] by {
            assert(w[27 + k] == g.table[k]);
        }
    }
    assert(d.subrange(p + 27 + t, p + w.len()) =~= g.payload) by {
        assert forall|k: int| 0 <= k < g.payload.len() implies d[p + 27 + t + k]
            == g.payload[k] by {
            assert(w[27 + t + k] == g.payload[k]);
        }
    }
    sums_agree(g.table);
}

/// The data of packets put in front of others.
proof fn data_in_front(a: PacketModel, s: Seq<PacketModel>)
    ensures
        packet_bytes(seq![a] + s) == seq![a.data] + packet_bytes(s),
{
    assert(packet_bytes(seq![a] + s) =~= seq![a.data] + packet_bytes(s));
}

/// The packets from segment `i` of the page at `p` on, where pages follow up to the end.
proof fn packets_stand(
    d: Seq<u8>,
    p: int,
    n: int,
    i: int,
    begun: Seq<u8>,
    g: AnyPage,
    rest: Seq<AnyPage>,
)
    requires
        is_sound(g),
        forall|k: int| 0 <= k < rest.len() ==> is_sound(#[trigger] rest[k]),
        0 <= p,
        d.len() == p + page_bytes(g).len() + pages_in_a_row(rest).len(),
        d.skip(p) == page_bytes(g) + pages_in_a_row(rest),
        0 <= i <= g.table.len(),
    ensures
        packet_bytes(packets_from(d, p, n, i, begun)) == cut_up(
            g.table.skip(i) + all_laces(rest),
            g.payload.skip(lace_sum(g.table.take(i))) + all_payload(rest),
            begun,
        ),
    decreases rest.len(), g.table.len() - i,
{
    let w = page_bytes(g);
    let t = g.table.len() as int;
    assert(d.subrange(p, p + w.len()) =~= d.skip(p).take(w.len() as int));
    assert((w + pages_in_a_row(rest)).take(w.len() as int) =~= w);
    page_stands(d, p, g);
    let at = lace_sum(g.table.take(i));
    assert(g.table =~= g.table.take(i) + g.table.skip(i));
    lace_sum_concat(g.table.take(i), g.table.skip(i));
    lace_sum_range(g.table.take(i));
    lace_sum_range(g.table.skip(i));
    sums_agree(g.table);
    let laces = g.table.skip(i) + all_laces(rest);
    let payload = g.payload.skip(at) + all_payload(rest);
    if i == t {
        let next = p + w.len();
        assert(g.table.take(i) =~= g.table);
        assert(g.payload.skip(at) =~= Seq::empty());
        assert(laces =~= all_laces(rest));
        assert(payload =~= all_payload(rest));
        if rest.len() > 0 {
            let h = rest[0];
            let more = rest.drop_first();
            assert(d.skip(next) =~= d.skip(p).skip(w.len() as int));
            assert((w + pages_in_a_row(rest)).skip(w.len() as int) =~= pages_in_a_row(rest));
            assert forall|k: int| 0 <= k < more.len() implies is_sound(#[trigger] more[k]) by {
                assert(more[k] == rest[k + 1]);
            }
            assert(is_sound(h));
            packets_stand(d, next, n + 1, 0, begun, h, more);
            assert(h.table.take(0) =~= Seq::empty());
            assert(h.table.skip(0) =~= h.table);
            assert(h.payload.skip(0) =~= h.payload);
        } else {
            assert(next == d.len());
            assert(!page_starts(d, next));
            assert(packets_from(d, next, n + 1, 0, begun) =~= Seq::empty());
            assert(packet_bytes(packets_from(d, p, n, i, begun)) =~= Seq::empty());
        }
    } else {
        let lace = g.table[i];
        let start = segment_start(d, p, i);
        assert(g.table.take(i + 1) =~= g.table.take(i).push(lace));
        assert(g.table.take(i + 1).drop_last() =~= g.table.take(i));
        assert(lace_sum(g.table.take(i + 1)) == at + lace);
        assert(g.table =~= g.table.take(i + 1) + g.table.skip(i + 1));
        lace_sum_concat(g.table.take(i + 1), g.table.skip(i + 1));
        lace_sum_range(g.table.skip(i + 1));
        assert(page_table(d, p)[i] == d[p + 27 + i]);
        assert(start == p + 27 + t + at);
        assert(at + lace <= g.payload.len());
        assert(d.subrange(start, start + lace) =~= payload.take(lace as int)) by {
            assert forall|k: int| 0 <= k < lace implies d[start + k] == payload[k] by {
                assert(d.subrange(p + 27 + t, p + w.len())[at + k] == g.payload[at + k]);
            }
        }
        assert(laces[0] == lace);
        assert(laces.drop_first() =~= g.table.skip(i + 1) + all_laces(rest));
        assert(payload.skip(lace as int) =~= g.payload.skip(at + lace) + all_payload(rest));
        let data = begun + payload.take(lace as int);
        if lace < 255 {
            packets_stand(d, p, n, i + 1, Seq::empty(), g, rest);
            data_in_front(
                PacketModel {
                    data,
                    end_offset: p + page_total_len(d, p),
                    pages_through_end: n,
                },
                packets_from(d, p, n, i + 1, Seq::empty()),
            );
        } else {
            packets_stand(d, p, n, i + 1, data, g, rest);
        }
    }
}

/// The packets of any sound pages are their payloads in a row, cut up by their lacing values,
/// however packets and pages lie to each other. As many as are asked for are read, in order, if
/// there are so many.
pub proof fn packets_of_any_pages_are_read(
    data: &[u8],
    pages: Seq<AnyPage>,
    want: usize,
    r: Result<Vec<ReadPacket>>,
)
    requires
        pages_countable(data@),
        pages.len() > 0,
        forall|k: int| 0 <= k < pages.len() ==> is_sound(#[trigger] pages[k]),
        data@ == pages_in_a_row(pages),
        call_ensures(read_packets, (data, want), r),
    ensures
        ({
            let all = cut_up(all_laces(pages), all_payload(pages), Seq::empty());
            &&& packet_bytes(packets_of(data@)) == all
            &&& match r {
                Ok(v) => want <= all.len() && packet_bytes(packet_models(v@)) == all.take(
                    want as int,
                ),
                Err(e) => want > all.len() && e == FormatError::Malformed,
            }
        }),
{
    let d = data@;
    let g = pages[0];
    let rest = pages.drop_first();
    assert forall|k: int| 0 <= k < rest.len() implies is_sound(#[trigger] rest[k]) by {
        assert(rest[k] == pages[k + 1]);
    }
    assert(d.skip(0) =~= d);
    packets_stand(d, 0, 1, 0, Seq::empty(), g, rest);
    assert(g.table.take(0) =~= Seq::empty());
    assert(g.table.skip(0) =~= g.table);
    assert(g.payload.skip(0) =~= g.payload);
    assert(packet_bytes(packets_of(d)).len() == packets_of(d).len());
    if let Ok(v) = r {
        assert(packet_bytes(packet_models(v@)) =~= packet_bytes(packets_of(d)).take(want as int));
    }
}

} // verus!
