//! The header region is decided by the front of a file.

use super::header::codec_of;
use super::header::flagged_run;
use super::header::header_of;
use super::header::header_run;
use super::header::single_stream;
use super::header::Codec;
use super::page::lace_sum;
use super::page::lace_sum_concat;
use super::page::lace_sum_range;
use super::page::packets_from;
use super::page::packets_of;
use super::page::page_starts;
use super::page::page_table;
use super::page::page_total_len;
use super::page::segment_start;
use super::page::PacketModel;
use crate::bytes::le32;
use vstd::prelude::*;

verus! {

/// `a` is the front of `b`.
spec fn is_front(a: Seq<u8>, b: Seq<u8>) -> bool {
    a.len() <= b.len() && forall|i: int| 0 <= i < a.len() ==> #[trigger] a[i] == b[i]
}

/// The first `n` packets are the same.
spec fn same_packets(a: Seq<PacketModel>, b: Seq<PacketModel>, n: int) -> bool {
    &&& n <= a.len()
    &&& n <= b.len()
    &&& forall|i: int| 0 <= i < n ==> #[trigger] a[i] == b[i]
}

/// A page header in the front is the same in the whole.
proof fn same_page(a: Seq<u8>, b: Seq<u8>, p: int)
    requires
        is_front(a, b),
        page_starts(a, p),
    ensures
        page_starts(b, p),
        page_table(b, p) == page_table(a, p),
        b[p + 26] == a[p + 26],
        page_total_len(b, p) == page_total_len(a, p),
        27 <= page_total_len(a, p),
{
    assert(a.subrange(p, p + 4) =~= b.subrange(p, p + 4));
    assert(b[p + 26] == a[p + 26]);
    assert(page_table(b, p) =~= page_table(a, p));
    lace_sum_range(page_table(a, p));
}

/// Segment `i` of a page ends within it.
proof fn segment_within(d: Seq<u8>, p: int, i: int)
    requires
        page_starts(d, p),
        0 <= i < d[p + 26],
    ensures
        p <= segment_start(d, p, i),
        segment_start(d, p, i) + d[p + 27 + i] <= p + page_total_len(d, p),
{
    let t = page_table(d, p);
    let front = t.take(i);
    let one = seq![t[i]];
    let rest = t.skip(i + 1);
    assert(t =~= front + one + rest);
    assert(one.drop_last() =~= Seq::empty());
    assert(lace_sum(one) == lace_sum(one.drop_last()) + t[i]);
    lace_sum_concat(front, one);
    lace_sum_concat(front + one, rest);
    lace_sum_range(front);
    lace_sum_range(rest);
}

/// The packets of the front come first in the whole.
proof fn packets_grow(a: Seq<u8>, b: Seq<u8>, p: int, pages: int, i: int, cur: Seq<u8>)
    requires
        is_front(a, b),
    ensures
        same_packets(
            packets_from(a, p, pages, i, cur),
            packets_from(b, p, pages, i, cur),
            packets_from(a, p, pages, i, cur).len() as int,
        ),
    decreases a.len() - p, a[p + 26] - i,
{
    if page_starts(a, p) && i >= 0 {
        same_page(a, b, p);
        if i >= a[p + 26] {
            let next = p + page_total_len(a, p);
            if p < next <= a.len() {
                packets_grow(a, b, next, pages + 1, 0, cur);
            }
        } else {
            segment_within(a, p, i);
            let start = segment_start(a, p, i);
            let lace = a[p + 27 + i];
            assert(segment_start(b, p, i) == start);
            assert(b[p + 27 + i] == lace);
            if start + lace <= a.len() {
                assert(a.subrange(start, start + lace) =~= b.subrange(start, start + lace));
                let data = cur + a.subrange(start, start + lace);
                if lace < 255 {
                    packets_grow(a, b, p, pages, i + 1, Seq::empty());
                } else {
                    packets_grow(a, b, p, pages, i + 1, data);
                }
            }
        }
    }
}

/// Pages lead from `p` to `end`.
spec fn leads_to(d: Seq<u8>, p: int, end: int) -> bool
    decreases end - p,
{
    p == end || (page_starts(d, p) && p < p + page_total_len(d, p) <= end && leads_to(
        d,
        p + page_total_len(d, p),
        end,
    ))
}

/// A packet ends where a page ends, not before the page it is read from.
proof fn packets_end_on_pages(d: Seq<u8>, p: int, pages: int, i: int, cur: Seq<u8>, k: int)
    requires
        0 <= k < packets_from(d, p, pages, i, cur).len(),
    ensures
        page_starts(d, p),
        p + page_total_len(d, p) <= packets_from(d, p, pages, i, cur)[k].end_offset,
        leads_to(d, p, packets_from(d, p, pages, i, cur)[k].end_offset),
    decreases d.len() - p, d[p + 26] - i,
{
    lace_sum_range(page_table(d, p));
    let next = p + page_total_len(d, p);
    if i >= d[p + 26] {
        packets_end_on_pages(d, next, pages + 1, 0, cur, k);
        lace_sum_range(page_table(d, next));
    } else {
        let start = segment_start(d, p, i);
        let lace = d[p + 27 + i];
        let data = cur + d.subrange(start, start + lace);
        if lace < 255 {
            if k > 0 {
                packets_end_on_pages(d, p, pages, i + 1, Seq::empty(), k - 1);
            } else {
                assert(leads_to(d, next, next));
            }
        } else {
            packets_end_on_pages(d, p, pages, i + 1, data, k);
        }
    }
}

/// A packet that ends within the front is read from the front.
proof fn packets_within(d: Seq<u8>, n: int, p: int, pages: int, i: int, cur: Seq<u8>, k: int)
    requires
        0 <= n <= d.len(),
        0 <= k < packets_from(d, p, pages, i, cur).len(),
        packets_from(d, p, pages, i, cur)[k].end_offset <= n,
    ensures
        k < packets_from(d.take(n), p, pages, i, cur).len(),
    decreases d.len() - p, d[p + 26] - i,
{
    let a = d.take(n);
    packets_end_on_pages(d, p, pages, i, cur, k);
    lace_sum_range(page_table(d, p));
    let next = p + page_total_len(d, p);
    assert(a.subrange(p, p + 4) =~= d.subrange(p, p + 4));
    assert(page_starts(a, p));
    same_page(a, d, p);
    if i >= d[p + 26] {
        packets_within(d, n, next, pages + 1, 0, cur, k);
    } else {
        segment_within(d, p, i);
        let start = segment_start(d, p, i);
        let lace = d[p + 27 + i];
        assert(segment_start(a, p, i) == start);
        assert(a[p + 27 + i] == lace);
        assert(a.subrange(start, start + lace) =~= d.subrange(start, start + lace));
        let data = cur + d.subrange(start, start + lace);
        if lace < 255 {
            if k > 0 {
                packets_within(d, n, p, pages, i + 1, Seq::empty(), k - 1);
            }
        } else {
            packets_within(d, n, p, pages, i + 1, data, k);
        }
    }
}

/// A run found by the flag is found in all packets that begin alike.
proof fn flagged_run_agrees(a: Seq<PacketModel>, b: Seq<PacketModel>, i: int, n: int)
    requires
        0 <= i,
        flagged_run(a, i) == Some(n),
        same_packets(a, b, n),
    ensures
        flagged_run(b, i) == Some(n),
    decreases a.len() - i,
{
    super::header::flagged_run_range(a, i);
    assert(a[i] == b[i]);
    if !super::header::is_last_packet(a[i].data) {
        flagged_run_agrees(a, b, i + 1, n);
    }
}

/// Packets that begin alike have the same header.
proof fn header_run_agrees(a: Seq<PacketModel>, b: Seq<PacketModel>, n: int)
    requires
        header_run(a) == Some(n),
        same_packets(a, b, n),
    ensures
        header_run(b) == Some(n),
        1 <= n,
{
    super::header::flagged_run_range(a, 1);
    assert(n >= 1);
    assert(a[0] == b[0]);
    if codec_of(a[0].data) == Some(Codec::OggFlac) && flagged_run(a, 1) == Some(n) {
        flagged_run_agrees(a, b, 1, n);
    }
}

/// One bitstream in the front is one in the whole.
proof fn single_stream_grows(
    a: Seq<u8>,
    b: Seq<u8>,
    p: int,
    end: int,
    serial: int,
    first: bool,
)
    requires
        is_front(a, b),
        single_stream(a, p, end, serial, first),
    ensures
        single_stream(b, p, end, serial, first),
    decreases
            if p < end {
                end - p
            } else {
                0
            },
{
    if p < end {
        same_page(a, b, p);
        single_stream_grows(a, b, p + page_total_len(a, p), end, serial, false);
    }
}

/// One bitstream up to `end` is one in any front that reaches as far.
proof fn single_stream_within(
    d: Seq<u8>,
    n: int,
    p: int,
    end: int,
    serial: int,
    first: bool,
)
    requires
        0 <= n <= d.len(),
        end <= n,
        leads_to(d, p, end),
        single_stream(d, p, end, serial, first),
    ensures
        single_stream(d.take(n), p, end, serial, first),
    decreases end - p,
{
    if p < end {
        let a = d.take(n);
        let next = p + page_total_len(d, p);
        lace_sum_range(page_table(d, p));
        assert(a.subrange(p, p + 4) =~= d.subrange(p, p + 4));
        assert(page_starts(a, p));
        same_page(a, d, p);
        single_stream_within(d, n, next, end, serial, false);
    }
}

/// A header region that the front of a file holds is that of the whole file: what follows
/// changes nothing.
pub proof fn front_header_is_the_files(front: Seq<u8>, rest: Seq<u8>)
    requires
        header_of(front) is Some,
    ensures
        header_of(front + rest) == header_of(front),
{
    let d = front + rest;
    let a = packets_of(front);
    let b = packets_of(d);
    let n = header_run(a)->0;
    packets_grow(front, d, 0, 1, 0, Seq::empty());
    header_run_agrees(a, b, n);
    packets_end_on_pages(front, 0, 1, 0, Seq::empty(), 0);
    assert(le32(d, 14) == le32(front, 14));
    assert(a[n - 1] == b[n - 1] && a[0] == b[0]);
    single_stream_grows(front, d, 0, a[n - 1].end_offset, le32(d, 14), true);
    assert(Seq::new(n as nat, |i: int| a[i].data) =~= Seq::new(n as nat, |i: int| b[i].data));
}

/// The header region alone is enough: any front of a file that reaches to its audio has the
/// same header.
pub proof fn header_region_suffices(d: Seq<u8>, n: int)
    requires
        header_of(d) is Some,
        header_of(d)->0.audio_offset <= n <= d.len(),
    ensures
        header_of(d.take(n)) == header_of(d),
{
    let front = d.take(n);
    let a = packets_of(front);
    let b = packets_of(d);
    let k = header_run(b)->0;
    let end = b[k - 1].end_offset;
    packets_end_on_pages(d, 0, 1, 0, Seq::empty(), k - 1);
    lace_sum_range(page_table(d, 0));
    packets_within(d, n, 0, 1, 0, Seq::empty(), k - 1);
    packets_grow(front, d, 0, 1, 0, Seq::empty());
    assert forall|i: int| 0 <= i < k implies #[trigger] b[i] == a[i] by {
        assert(a[i] == b[i]);
    }
    header_run_agrees(b, a, k);
    assert(le32(d, 14) == le32(front, 14));
    assert(a[k - 1] == b[k - 1] && a[0] == b[0]);
    single_stream_within(d, n, 0, end, le32(d, 14), true);
    assert(Seq::new(k as nat, |i: int| a[i].data) =~= Seq::new(k as nat, |i: int| b[i].data));
}

} // verus!
