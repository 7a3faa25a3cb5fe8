//! What holds of page operations taken together.

use super::crc::changed_byte_changes_crc;
use super::crc::crc;
use super::crc::crc_linear;
use super::crc::crc_of;
use super::crc::crc_of_concat;
use super::crc::shift_is_appending_zeros;
use super::crc::xor_bytes;
use super::crc::zero_shift_of_zero;
use super::crc::zeros;
use super::page::capture;
use super::page::crc_matches;
use super::page::crc_zeroed;
use super::page::first_page;
use super::page::header_with;
use super::page::headers_laced;
use super::page::lace_sum;
use super::page::lace_sum_range;
use super::page::laced;
use super::page::lacing;
use super::page::page;
use super::page::page_complete;
use super::page::page_count;
use super::page::page_flags;
use super::page::page_header;
use super::page::page_header_len;
use super::page::page_starts;
use super::page::page_table;
use super::page::page_total_len;
use super::page::packets_from;
use super::page::packets_of;
use super::page::pages_of;
use super::page::renumber_delta;
use super::page::renumbered;
use super::page::segment_start;
use super::page::total_page_count;
use super::page::PacketModel;
use crate::bytes::le32;
use crate::bytes::le32_bytes;
use crate::bytes::le32_bytes_of_le32;
use crate::bytes::le32_round_trip;
use crate::bytes::le64;
use crate::bytes::le64_bytes;
use vstd::prelude::*;

verus! {

/// The bytes of two numbers combined by exclusive or are the bytes combined.
proof fn le32_bytes_xor(a: u32, b: u32)
    ensures
        le32_bytes((a ^ b) as int) == xor_bytes(le32_bytes(a as int), le32_bytes(b as int)),
{
    let c: u32 = a ^ b;
    assert((c % 0x100) as u8 == ((a % 0x100) as u8) ^ ((b % 0x100) as u8) && ((c / 0x100)
        % 0x100) as u8 == (((a / 0x100) % 0x100) as u8) ^ (((b / 0x100) % 0x100) as u8) && ((c
        / 0x1_0000) % 0x100) as u8 == (((a / 0x1_0000) % 0x100) as u8) ^ (((b / 0x1_0000)
        % 0x100) as u8) && ((c / 0x100_0000) % 0x100) as u8 == (((a / 0x100_0000) % 0x100) as u8)
        ^ (((b / 0x100_0000) % 0x100) as u8)) by (bit_vector)
        requires
            c == a ^ b,
    ;
    assert(le32_bytes(c as int) =~= xor_bytes(le32_bytes(a as int), le32_bytes(b as int)));
}

/// Renumbering a page whose stored CRC is right, without reading its payload, gives the
/// header that renumbering with the payload gives.
pub proof fn algebraic_patch_is_full_patch(d: Seq<u8>, new_seq: u32)
    requires
        page_complete(d),
        crc_matches(d),
    ensures
        le32(d, 22) as u32 ^ renumber_delta(d, new_seq) == crc(renumbered(first_page(d), new_seq)),
{
    lace_sum_range(page_table(d, 0));
    let f = first_page(d);
    let n = f.len() as int;
    let a = crc_zeroed(f);
    let b = renumbered(f, new_seq);
    let old_seq = le32(d, 18) as u32;
    le32_bytes_of_le32(d, 18);
    le32_bytes_of_le32(d, 22);
    let x = le32_bytes((old_seq ^ new_seq) as int);
    let delta = zeros(18) + x + zeros((n - 22) as nat);
    le32_bytes_xor(old_seq, new_seq);
    assert(delta.len() == n);
    assert forall|i: int| 0 <= i < n implies b[i] == a[i] ^ delta[i] by {
        let u: u8 = a[i];
        assert(u ^ 0 == u) by (bit_vector);
        if 18 <= i < 22 {
            let v: u8 = le32_bytes(new_seq as int)[i - 18];
            assert(a[i] == f[i]);
            assert(f[i] == d.subrange(18, 22)[i - 18]);
            assert(b[i] == v);
            assert(delta[i] == x[i - 18]);
            assert(x[i - 18] == u ^ v);
            assert(u ^ (u ^ v) == v) by (bit_vector);
        }
    }
    assert(b =~= xor_bytes(a, delta));
    assert(0u32 ^ 0 == 0) by (bit_vector);
    crc_linear(0, 0, a, delta);
    crc_of_concat(0, zeros(18) + x, zeros((n - 22) as nat));
    crc_of_concat(0, zeros(18), x);
    assert(Seq::<u8>::empty() + zeros(18) =~= zeros(18));
    shift_is_appending_zeros(0, Seq::empty(), 18);
    zero_shift_of_zero(18);
    assert(crc_of(0, zeros(18)) == 0);
    shift_is_appending_zeros(0, zeros(18) + x, (n - 22) as nat);
}

/// A renumbered page is the same page but for its sequence number and CRC, and its CRC
/// is right again: the patched header followed by the payload that was there.
pub proof fn patched_page_verifies(d: Seq<u8>, new_seq: u32)
    requires
        page_complete(d),
    ensures
        ({
            let hl = page_header_len(d, 0);
            let total = page_total_len(d, 0);
            let h = header_with(d, new_seq, crc(renumbered(first_page(d), new_seq)));
            let served = h + d.subrange(hl, total);
            &&& h.len() == hl
            &&& served.len() == total
            &&& page_complete(served)
            &&& page_total_len(served, 0) == total
            &&& crc_matches(served)
            &&& le32(served, 18) == new_seq
            &&& forall|i: int| 0 <= i < total && !(18 <= i < 26) ==> served[i] == d[i]
        }),
{
    lace_sum_range(page_table(d, 0));
    let hl = page_header_len(d, 0);
    let total = page_total_len(d, 0);
    let c = crc(renumbered(first_page(d), new_seq));
    let h = header_with(d, new_seq, c);
    let served = h + d.subrange(hl, total);
    le32_round_trip(new_seq as int);
    le32_round_trip(c as int);
    assert(h.len() == hl);
    assert(served.len() == total);
    assert forall|i: int| 0 <= i < total && !(18 <= i < 26) implies served[i] == d[i] by {}
    assert(served.subrange(0, 4) =~= d.subrange(0, 4));
    assert(page_table(served, 0) =~= page_table(d, 0));
    assert(first_page(served) =~= served);
    assert forall|i: int| 0 <= i < 4 implies served[18 + i] == le32_bytes(new_seq as int)[i]
        && served[22 + i] == le32_bytes(c as int)[i] by {}
    assert(crc_zeroed(served) =~= renumbered(first_page(d), new_seq));
}

/// A whole page that verifies does not verify once a byte of it has changed, by one bit or
/// more: in the fields behind the version, the stored CRC among them, or in the payload. A
/// change of the capture pattern or the version leaves no page at all. (A change of the
/// segment table moves the page's end.)
pub proof fn changed_byte_is_detected(d: Seq<u8>, i: int, v: u8)
    requires
        page_complete(d),
        crc_matches(d),
        0 <= i < 26 || page_header_len(d, 0) <= i < page_total_len(d, 0),
        v != d[i],
    ensures
        i < 5 ==> !page_complete(d.update(i, v)),
        i >= 5 ==> page_complete(d.update(i, v)) && !crc_matches(d.update(i, v)),
{
    let e = d.update(i, v);
    lace_sum_range(page_table(d, 0));
    assert(d[26] == e[26]);
    if i < 4 {
        assert(d.subrange(0, 4)[i] == d[i]);
        assert(e.subrange(0, 4)[i] == v);
    } else if i >= 5 {
        assert(e.subrange(0, 4) =~= d.subrange(0, 4));
        assert(page_table(e, 0) =~= page_table(d, 0));
        let p = first_page(d);
        let q = first_page(e);
        assert(q =~= p.update(i, v));
        if 22 <= i < 26 {
            assert(crc_zeroed(q) =~= crc_zeroed(p));
            le32_bytes_of_le32(d, 22);
            le32_bytes_of_le32(e, 22);
            assert(d.subrange(22, 26)[i - 22] == d[i]);
            assert(e.subrange(22, 26)[i - 22] == v);
        } else {
            let z = crc_zeroed(p);
            assert(z[i] == d[i]);
            assert(crc_zeroed(q) =~= z.update(i, v));
            changed_byte_changes_crc(z, i, v);
            assert(le32(e, 22) == le32(d, 22));
        }
    }
}

/// Parts that stand in a row, by their places.
proof fn parts_in_a_row(
    start: Seq<u8>,
    flags: Seq<u8>,
    granule: Seq<u8>,
    serial: Seq<u8>,
    seq: Seq<u8>,
    c: Seq<u8>,
    count: Seq<u8>,
    table: Seq<u8>,
)
    requires
        start.len() == 4,
        flags.len() == 2,
        granule.len() == 8,
        serial.len() == 4,
        seq.len() == 4,
        c.len() == 4,
        count.len() == 1,
    ensures
        ({
            let h = start + flags + granule + serial + seq + c + count + table;
            &&& h.len() == 27 + table.len()
            &&& h.subrange(0, 4) == start
            &&& h[4] == flags[0]
            &&& h[5] == flags[1]
            &&& h.subrange(6, 14) == granule
            &&& h.subrange(14, 18) == serial
            &&& h.subrange(18, 22) == seq
            &&& h.subrange(22, 26) == c
            &&& h[26] == count[0]
            &&& h.subrange(27, 27 + table.len() as int) == table
            &&& h.take(22) == start + flags + granule + serial + seq
            &&& h.skip(26) == count + table
        }),
{
    let h = start + flags + granule + serial + seq + c + count + table;
    assert(h.subrange(0, 4) =~= start);
    assert(h.subrange(6, 14) =~= granule);
    assert(h.subrange(14, 18) =~= serial);
    assert(h.subrange(18, 22) =~= seq);
    assert(h.subrange(22, 26) =~= c);
    assert(h.subrange(27, 27 + table.len() as int) =~= table);
    assert(h.take(22) =~= start + flags + granule + serial + seq);
    assert(h.skip(26) =~= count + table);
}

/// The fields of a page header, by their places.
proof fn header_fields(flags: u8, granule: u64, serial: u32, seq: u32, c: u32, table: Seq<u8>)
    requires
        table.len() <= 255,
    ensures
        ({
            let h = page_header(flags, granule, serial, seq, c, table);
            &&& h.len() == 27 + table.len()
            &&& h.subrange(0, 4) == capture()
            &&& h[4] == 0
            &&& h[5] == flags
            &&& h.subrange(6, 14) == le64_bytes(granule as int)
            &&& h.subrange(14, 18) == le32_bytes(serial as int)
            &&& h.subrange(18, 22) == le32_bytes(seq as int)
            &&& h.subrange(22, 26) == le32_bytes(c as int)
            &&& h[26] == table.len()
            &&& h.subrange(27, 27 + table.len() as int) == table
        }),
{
    reveal(page_header);
    parts_in_a_row(
        capture(),
        seq![0u8, flags],
        le64_bytes(granule as int),
        le32_bytes(serial as int),
        le32_bytes(seq as int),
        le32_bytes(c as int),
        seq![table.len() as u8],
        table,
    );
}

/// Clearing the CRC field of a header gives the header with a zero there.
proof fn header_cleared(
    flags: u8,
    granule: u64,
    serial: u32,
    seq: u32,
    c: u32,
    table: Seq<u8>,
    payload: Seq<u8>,
)
    ensures
        crc_zeroed(page_header(flags, granule, serial, seq, c, table) + payload) == page_header(
            flags,
            granule,
            serial,
            seq,
            0,
            table,
        ) + payload,
{
    reveal(page_header);
    let a = capture();
    let b = seq![0u8, flags];
    let g = le64_bytes(granule as int);
    let s = le32_bytes(serial as int);
    let q = le32_bytes(seq as int);
    let n = seq![table.len() as u8];
    parts_in_a_row(a, b, g, s, q, le32_bytes(c as int), n, table);
    let h = page_header(flags, granule, serial, seq, c, table);
    let front = a + b + g + s + q;
    let z = le32_bytes(0);
    assert(z =~= zeros(4));
    assert((h + payload).take(22) =~= h.take(22));
    assert((h + payload).skip(26) =~= h.skip(26) + payload);
    assert(front + z + (n + table + payload) =~= front + z + n + table + payload);
}

/// A field that stands in `d` at `p`.
proof fn field_stands(d: Seq<u8>, p: int, pg: Seq<u8>, i: int, j: int)
    requires
        0 <= p,
        0 <= i <= j <= pg.len(),
        p + pg.len() <= d.len(),
        d.subrange(p, p + pg.len()) == pg,
    ensures
        d.subrange(p + i, p + j) == pg.subrange(i, j),
{
    assert(d.subrange(p, p + pg.len()).subrange(i, j) =~= d.subrange(p + i, p + j));
}

/// A little-endian number that stands in `d` at `p`.
proof fn number_stands(d: Seq<u8>, p: int, v: u32)
    requires
        0 <= p,
        p + 4 <= d.len(),
        d.subrange(p, p + 4) == le32_bytes(v as int),
    ensures
        le32(d, p) == v,
{
    le32_round_trip(v as int);
    let b = d.subrange(p, p + 4);
    assert(b[0] == d[p] && b[1] == d[p + 1] && b[2] == d[p + 2] && b[3] == d[p + 3]);
}

/// A 64-bit little-endian number that stands in `d` at `p`.
proof fn long_number_stands(d: Seq<u8>, p: int, v: u64)
    requires
        0 <= p,
        p + 8 <= d.len(),
        d.subrange(p, p + 8) == le64_bytes(v as int),
    ensures
        le64(d, p) == v,
{
    let low = v as int % 0x1_0000_0000;
    let high = v as int / 0x1_0000_0000;
    assert(d.subrange(p, p + 4) =~= d.subrange(p, p + 8).take(4));
    assert(le64_bytes(v as int).take(4) =~= le32_bytes(low));
    assert(d.subrange(p + 4, p + 8) =~= d.subrange(p, p + 8).skip(4));
    assert(le64_bytes(v as int).skip(4) =~= le32_bytes(high));
    number_stands(d, p, low as u32);
    number_stands(d, p + 4, high as u32);
}

/// `d` holds, at `p`, the page with these parts; so it parses as such.
pub proof fn page_parses(
    d: Seq<u8>,
    p: int,
    flags: u8,
    granule: u64,
    serial: u32,
    seq: u32,
    table: Seq<u8>,
    payload: Seq<u8>,
)
    requires
        0 <= p,
        table.len() <= 255,
        lace_sum(table) == payload.len(),
        p + 27 + table.len() + payload.len() <= d.len(),
        d.subrange(p, p + 27 + table.len() + payload.len()) == page(
            flags,
            granule,
            serial,
            seq,
            table,
            payload,
        ),
    ensures
        page_starts(d, p),
        page_table(d, p) == table,
        d[p + 26] == table.len(),
        page_total_len(d, p) == 27 + table.len() + payload.len(),
        d[p + 5] == flags,
        le64(d, p + 6) == granule,
        le32(d, p + 14) == serial,
        le32(d, p + 18) == seq,
        d.subrange(p + 27 + table.len(), p + 27 + table.len() + payload.len()) == payload,
        crc_matches(d.skip(p)),
{
    let c = crc(page_header(flags, granule, serial, seq, 0, table) + payload);
    let h = page_header(flags, granule, serial, seq, c, table);
    let pg = h + payload;
    let t = table.len() as int;
    let n = 27 + t + payload.len();
    assert(pg == page(flags, granule, serial, seq, table, payload)) by {
        reveal(page);
    }
    header_fields(flags, granule, serial, seq, c, table);
    field_stands(d, p, pg, 0, 27 + t);
    assert(pg.subrange(0, 27 + t) =~= h);
    field_stands(d, p, h, 0, 4);
    field_stands(d, p, h, 6, 14);
    field_stands(d, p, h, 14, 18);
    field_stands(d, p, h, 18, 22);
    field_stands(d, p, h, 22, 26);
    field_stands(d, p, h, 27, 27 + t);
    field_stands(d, p, pg, 27 + t, n);
    assert(pg.subrange(27 + t, n) =~= payload);
    let front = d.subrange(p, p + 27 + t);
    assert(front[4] == d[p + 4] && front[5] == d[p + 5] && front[26] == d[p + 26]);
    long_number_stands(d, p + 6, granule);
    number_stands(d, p + 14, serial);
    number_stands(d, p + 18, seq);
    number_stands(d, p + 22, c);
    let e = d.skip(p);
    assert(e[26] == d[p + 26]);
    assert(page_table(e, 0) =~= page_table(d, p));
    assert(first_page(e) =~= pg) by {
        assert(e.take(n) =~= d.subrange(p, p + n));
    }
    header_cleared(flags, granule, serial, seq, c, table, payload);
    assert(le32(e, 22) == le32(d, p + 22));
}

/// Reading on from segment `i` of a page whose segments up to `k` are all 255 bytes long
/// gathers them and reads on from segment `k`.
proof fn full_segments_gather(
    d: Seq<u8>,
    p: int,
    pages: int,
    i: int,
    k: int,
    cur: Seq<u8>,
    payload: Seq<u8>,
)
    requires
        page_starts(d, p),
        0 <= i <= k <= d[p + 26],
        forall|j: int| 0 <= j < k ==> page_table(d, p)[j] == 255,
        p + page_header_len(d, p) + payload.len() <= d.len(),
        255 * k <= payload.len(),
        d.subrange(p + page_header_len(d, p), p + page_header_len(d, p) + payload.len())
            == payload,
    ensures
        packets_from(d, p, pages, i, cur) == packets_from(
            d,
            p,
            pages,
            k,
            cur + payload.subrange(255 * i, 255 * k),
        ),
        segment_start(d, p, k) == p + page_header_len(d, p) + 255 * k,
    decreases k - i,
{
    let table = page_table(d, p);
    full_prefix_sum(table, k);
    full_prefix_sum(table, i);
    if i == k {
        assert(cur + payload.subrange(255 * i, 255 * k) =~= cur);
    } else {
        let start = segment_start(d, p, i);
        assert(table[i] == d[p + 27 + i]);
        let base = p + page_header_len(d, p);
        assert(d.subrange(start, start + 255) =~= payload.subrange(255 * i, 255 * i + 255)) by {
            assert(d.subrange(base, base + payload.len()).subrange(255 * i, 255 * i + 255)
                =~= d.subrange(start, start + 255));
        }
        let next = cur + d.subrange(start, start + 255);
        full_segments_gather(d, p, pages, i + 1, k, next, payload);
        assert(next + payload.subrange(255 * (i + 1), 255 * k) =~= cur + payload.subrange(
            255 * i,
            255 * k,
        ));
    }
}

pub proof fn full_prefix_sum(table: Seq<u8>, k: int)
    requires
        0 <= k <= table.len(),
        forall|j: int| 0 <= j < k ==> table[j] == 255,
    ensures
        lace_sum(table.take(k)) == 255 * k,
    decreases k,
{
    if k > 0 {
        full_prefix_sum(table, k - 1);
        assert(table.take(k).drop_last() =~= table.take(k - 1));
    } else {
        assert(table.take(0) =~= Seq::<u8>::empty());
    }
}

/// Where pages carry a packet, reading on from them yields that packet, added to what was
/// gathered before, and then reads on behind them.
#[verifier::spinoff_prover]
#[verifier::rlimit(60)]
pub proof fn laced_pages_read_back(
    d: Seq<u8>,
    p: int,
    pages: int,
    cur: Seq<u8>,
    serial: u32,
    seq: u32,
    bos: bool,
    first: bool,
    granule: u64,
    payload: Seq<u8>,
)
    requires
        0 <= p,
        ({
            let run = pages_of(
                serial,
                seq,
                bos,
                first,
                granule,
                lacing(payload.len() as int),
                payload,
            );
            p + run.len() <= d.len() && d.subrange(p, p + run.len()) == run
        }),
    ensures
        ({
            let run = pages_of(
                serial,
                seq,
                bos,
                first,
                granule,
                lacing(payload.len() as int),
                payload,
            );
            let used = page_count(payload.len() as int);
            packets_from(d, p, pages, 0, cur) == seq![
                PacketModel {
                    data: cur + payload,
                    end_offset: p + run.len(),
                    pages_through_end: pages + used - 1,
                },
            ] + packets_from(d, p + run.len(), pages + used, 0, Seq::empty())
        }),
    decreases payload.len(),
{
    let n = payload.len() as int;
    let laces = lacing(n);
    let run = pages_of(serial, seq, bos, first, granule, laces, payload);
    super::page::lacing_sums_to_length(n);
    if laces.len() <= 255 {
        assert(laces.take(laces.len() as int) =~= laces);
        assert(payload.take(n) =~= payload);
        super::page::page_length(page_flags(bos, first), granule, serial, seq, laces, payload);
        page_parses(d, p, page_flags(bos, first), granule, serial, seq, laces, payload);
        let k = laces.len() - 1;
        full_segments_gather(d, p, pages, 0, k, cur, payload);
        assert(payload.subrange(0, 255 * k) =~= payload.take(255 * k));
        let start = segment_start(d, p, k);
        let gathered = cur + payload.take(255 * k);
        let base = p + page_header_len(d, p);
        assert(start == base + 255 * k);
        assert(d[p + 27 + k] == page_table(d, p)[k]);
        let lace = n % 255;
        assert(gathered + d.subrange(start, start + lace) =~= cur + payload) by {
            assert(d.subrange(base, base + n).subrange(255 * k, n) =~= d.subrange(
                start,
                start + lace,
            ));
        }
        let next = p + page_total_len(d, p);
        assert(next == p + run.len());
        assert(packets_from(d, p, pages, k + 1, Seq::empty()) == packets_from(
            d,
            next,
            pages + 1,
            0,
            Seq::empty(),
        ));
        assert(page_count(n) == 1);
    } else {
        let table = laces.take(255);
        full_prefix_sum(laces, 255);
        let head = page(
            page_flags(bos, first),
            granule,
            serial,
            seq,
            table,
            payload.take(65025),
        );
        let rest = pages_of(
            serial,
            super::page::next_seq(seq),
            bos,
            false,
            granule,
            laces.skip(255),
            payload.skip(65025),
        );
        assert(run == head + rest);
        super::page::page_length(
            page_flags(bos, first),
            granule,
            serial,
            seq,
            table,
            payload.take(65025),
        );
        assert(d.subrange(p, p + head.len()) =~= head) by {
            assert(d.subrange(p, p + run.len()).take(head.len() as int) =~= head);
            assert(d.subrange(p, p + run.len()).take(head.len() as int) =~= d.subrange(
                p,
                p + head.len(),
            ));
        }
        page_parses(
            d,
            p,
            page_flags(bos, first),
            granule,
            serial,
            seq,
            table,
            payload.take(65025),
        );
        full_segments_gather(d, p, pages, 0, 255, cur, payload.take(65025));
        assert(payload.take(65025).subrange(0, 65025) =~= payload.take(65025));
        let next = p + head.len();
        let gathered = cur + payload.take(65025);
        assert(packets_from(d, p, pages, 255, gathered) == packets_from(
            d,
            next,
            pages + 1,
            0,
            gathered,
        ));
        assert(laces.skip(255) =~= lacing(n - 65025));
        assert(d.subrange(next, next + rest.len()) =~= rest) by {
            assert(d.subrange(p, p + run.len()).skip(head.len() as int) =~= rest);
            assert(d.subrange(p, p + run.len()).skip(head.len() as int) =~= d.subrange(
                next,
                next + rest.len(),
            ));
        }
        laced_pages_read_back(
            d,
            next,
            pages + 1,
            gathered,
            serial,
            super::page::next_seq(seq),
            bos,
            false,
            granule,
            payload.skip(65025),
        );
        assert(gathered + payload.skip(65025) =~= cur + payload);
        assert(page_count(n) == page_count(n - 65025) + 1);
    }
}

/// Reading packets undoes lacing: whatever follows the pages of a laced packet, the first
/// packet read from them is that packet, ending where the pages end.
pub proof fn read_undoes_lacing(
    serial: u32,
    seq: u32,
    bos: bool,
    granule: u64,
    packet: Seq<u8>,
    after: Seq<u8>,
)
    ensures
        ({
            let run = laced(serial, seq, bos, granule, packet);
            let got = packets_of(run + after);
            got.len() >= 1 && got[0] == PacketModel {
                data: packet,
                end_offset: run.len() as int,
                pages_through_end: page_count(packet.len() as int),
            }
        }),
{
    let run = laced(serial, seq, bos, granule, packet);
    let d = run + after;
    assert(d.subrange(0, run.len() as int) =~= run);
    laced_pages_read_back(d, 0, 1, Seq::empty(), serial, seq, bos, true, granule, packet);
    assert(Seq::<u8>::empty() + packet =~= packet);
}

/// The packet models that a list of header packets comes back as.
pub open spec fn header_models(serial: u32, packets: Seq<Seq<u8>>) -> Seq<PacketModel>
    decreases packets.len(),
{
    if packets.len() == 0 {
        Seq::empty()
    } else {
        header_models(serial, packets.drop_last()).push(
            PacketModel {
                data: packets.last(),
                end_offset: headers_laced(serial, packets).len() as int,
                pages_through_end: total_page_count(packets),
            },
        )
    }
}

/// Reading packets undoes `build_header`: whatever follows, the header packets come back
/// in order, the last one ending where the header ends.
#[verifier::spinoff_prover]
#[verifier::rlimit(60)]
pub proof fn read_undoes_build_header(serial: u32, packets: Seq<Seq<u8>>, after: Seq<u8>)
    ensures
        ({
            let head = headers_laced(serial, packets);
            packets_of(head + after) == header_models(serial, packets) + packets_from(
                head + after,
                head.len() as int,
                total_page_count(packets) + 1,
                0,
                Seq::empty(),
            )
        }),
        header_models(serial, packets).len() == packets.len(),
        forall|i: int|
            0 <= i < packets.len() ==> (#[trigger] header_models(serial, packets)[i]).data
                == packets[i],
    decreases packets.len(),
{
    let head = headers_laced(serial, packets);
    if packets.len() == 0 {
        assert(header_models(serial, packets) + packets_of(head + after) =~= packets_of(
            head + after,
        ));
    } else {
        let before = packets.drop_last();
        let first = headers_laced(serial, before);
        let run = laced(
            serial,
            total_page_count(before) as u32,
            packets.len() == 1,
            0,
            packets.last(),
        );
        assert(head + after =~= first + (run + after));
        read_undoes_build_header(serial, before, run + after);
        let d = head + after;
        assert(d.subrange(first.len() as int, (first.len() + run.len()) as int) =~= run);
        laced_pages_read_back(
            d,
            first.len() as int,
            total_page_count(before) + 1,
            Seq::empty(),
            serial,
            total_page_count(before) as u32,
            packets.len() == 1,
            true,
            0,
            packets.last(),
        );
        assert(Seq::<u8>::empty() + packets.last() =~= packets.last());
        let m = PacketModel {
            data: packets.last(),
            end_offset: head.len() as int,
            pages_through_end: total_page_count(packets),
        };
        let tail = packets_from(
            d,
            head.len() as int,
            total_page_count(packets) + 1,
            0,
            Seq::empty(),
        );
        assert(header_models(serial, before) + (seq![m] + tail) =~= header_models(
            serial,
            packets,
        ) + tail);
    }
}

} // verus!
