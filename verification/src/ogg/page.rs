//! Ogg pages: parsing, lacing packets into pages, reassembling packets from pages, and
//! renumbering pages.

use super::crc::crc;
use super::crc::crc32;
use super::crc::crc_shift_zeros;
use super::crc::zero_shift;
use super::crc::zeros;
use crate::bytes::append;
use crate::bytes::copy_range;
use crate::bytes::le32;
use crate::bytes::le32_bytes;
use crate::bytes::le64;
use crate::bytes::le64_bytes;
use crate::bytes::push_u32_le;
use crate::bytes::push_u64_le;
use crate::bytes::put_u32_le;
use crate::error::FormatError;
use crate::error::Result;
use vstd::prelude::*;

verus! {

/// The capture pattern every page starts with.
pub const CAPTURE: [u8; 4] = [0x4f, 0x67, 0x67, 0x53];

/// Header-type flag: the page continues a packet.
pub const FLAG_CONTINUED: u8 = 0x01;

/// Header-type flag: first page of a logical bitstream.
pub const FLAG_BOS: u8 = 0x02;

/// Header-type flag: last page of a logical bitstream.
pub const FLAG_EOS: u8 = 0x04;

/// The most bytes a page can have: the fixed header, a full lacing table, and as many
/// payload bytes as it can describe.
pub const MAX_PAGE_BYTES: usize = 65_307;

/// A parsed Ogg page header (the 27 fixed bytes + the segment table) plus the
/// derived payload length. Multi-byte fields are little-endian on disk.
#[derive(Debug, Clone, PartialEq, Eq)]
pub struct PageHeader {
    pub header_type: u8,
    pub granule: u64,
    pub serial: u32,
    pub seq: u32,
    pub crc: u32,
    pub seg_count: u8,
    pub header_len: usize,
    pub payload_len: usize,
}

/// `OggS`.
pub open spec fn capture() -> Seq<u8> {
    seq![0x4fu8, 0x67u8, 0x67u8, 0x53u8]
}

/// The payload bytes that a lacing table describes.
pub open spec fn lace_sum(t: Seq<u8>) -> int
    decreases t.len(),
{
    if t.len() == 0 {
        0
    } else {
        lace_sum(t.drop_last()) + t.last()
    }
}

/// A page header, with its whole segment table, starts at `p`.
pub open spec fn page_starts(d: Seq<u8>, p: int) -> bool {
    &&& 0 <= p
    &&& p + 27 <= d.len()
    &&& d.subrange(p, p + 4) == capture()
    &&& d[p + 4] == 0
    &&& p + 27 + d[p + 26] <= d.len()
}

/// The segment table of the page at `p`.
pub open spec fn page_table(d: Seq<u8>, p: int) -> Seq<u8> {
    d.subrange(p + 27, p + 27 + d[p + 26])
}

/// The header length of the page at `p`.
pub open spec fn page_header_len(d: Seq<u8>, p: int) -> int {
    27 + d[p + 26]
}

/// The payload length of the page at `p`.
pub open spec fn page_payload_len(d: Seq<u8>, p: int) -> int {
    lace_sum(page_table(d, p))
}

/// The full length of the page at `p`.
pub open spec fn page_total_len(d: Seq<u8>, p: int) -> int {
    page_header_len(d, p) + page_payload_len(d, p)
}

/// `h` says what the bytes at `p` say.
pub open spec fn describes(h: PageHeader, d: Seq<u8>, p: int) -> bool {
    &&& h.header_type == d[p + 5]
    &&& h.granule == le64(d, p + 6)
    &&& h.serial == le32(d, p + 14)
    &&& h.seq == le32(d, p + 18)
    &&& h.crc == le32(d, p + 22)
    &&& h.seg_count == d[p + 26]
    &&& h.header_len == page_header_len(d, p)
    &&& h.payload_len == page_payload_len(d, p)
}

/// A lacing table's sum lies between 0 and 255 for each entry.
pub proof fn lace_sum_range(t: Seq<u8>)
    ensures
        0 <= lace_sum(t) <= 255 * t.len(),
    decreases t.len(),
{
    if t.len() > 0 {
        lace_sum_range(t.drop_last());
    }
}

/// Lacing sums add up over concatenation.
pub proof fn lace_sum_concat(a: Seq<u8>, b: Seq<u8>)
    ensures
        lace_sum(a + b) == lace_sum(a) + lace_sum(b),
    decreases b.len(),
{
    if b.len() == 0 {
        assert(a + b =~= a);
    } else {
        assert((a + b).drop_last() =~= a + b.drop_last());
        lace_sum_concat(a, b.drop_last());
    }
}

/// The sum of a lacing table.
pub(crate) fn table_sum(t: &[u8]) -> (r: usize)
    requires
        t@.len() <= 255,
    ensures
        r == lace_sum(t@),
{
    let mut n: usize = 0;
    let mut i: usize = 0;
    while i < t.len()
        invariant
            i <= t@.len() <= 255,
            n == lace_sum(t@.take(i as int)),
        decreases t@.len() - i,
    {
        proof {
            assert(t@.take(i + 1).drop_last() =~= t@.take(i as int));
            lace_sum_range(t@.take(i as int));
        }
        n = n + t[i] as usize;
        i = i + 1;
    }
    assert(t@.take(i as int) =~= t@);
    n
}

impl PageHeader {
    /// The full length of the page.
    pub fn total_len(&self) -> (r: usize)
        requires
            self.header_len + self.payload_len <= usize::MAX,
        ensures
            r == self.header_len + self.payload_len,
    {
        self.header_len + self.payload_len
    }
}

/// Four bytes at `pos` as a little-endian number.
fn le32_at(buf: &[u8], pos: usize) -> (r: u32)
    requires
        pos + 4 <= buf@.len(),
    ensures
        r == le32(buf@, pos as int),
{
    let n: usize = buf.len();
    assert(pos + 4 <= n);
    buf[pos] as u32 + buf[pos + 1] as u32 * 0x100 + buf[pos + 2] as u32 * 0x1_0000 + buf[pos
        + 3] as u32 * 0x100_0000
}

/// Parse the page starting at `pos`. Errors if the capture pattern is missing or
/// the buffer is too short for the header + segment table.
pub fn parse_page(buf: &[u8], pos: usize) -> (r: Result<PageHeader>)
    ensures
        match r {
            Ok(h) => page_starts(buf@, pos as int) && describes(h, buf@, pos as int)
                && h.header_len + h.payload_len <= MAX_PAGE_BYTES,
            Err(e) => e == FormatError::Malformed && !page_starts(buf@, pos as int),
        },
{
    if buf.len() < 27 || pos > buf.len() - 27 {
        return Err(FormatError::Malformed);
    }
    if buf[pos] != 0x4f || buf[pos + 1] != 0x67 || buf[pos + 2] != 0x67 || buf[pos + 3] != 0x53 {
        assert(buf@.subrange(pos as int, pos + 4)[0] == buf@[pos as int]);
        assert(buf@.subrange(pos as int, pos + 4)[1] == buf@[pos + 1]);
        assert(buf@.subrange(pos as int, pos + 4)[2] == buf@[pos + 2]);
        assert(buf@.subrange(pos as int, pos + 4)[3] == buf@[pos + 3]);
        return Err(FormatError::Malformed);
    }
    assert(buf@.subrange(pos as int, pos + 4) =~= capture());
    if buf[pos + 4] != 0 {
        return Err(FormatError::Malformed);
    }
    let header_type: u8 = buf[pos + 5];
    let granule: u64 = le32_at(buf, pos + 6) as u64 + le32_at(buf, pos + 10) as u64
        * 0x1_0000_0000;
    let serial: u32 = le32_at(buf, pos + 14);
    let seq: u32 = le32_at(buf, pos + 18);
    let crc: u32 = le32_at(buf, pos + 22);
    let seg_count: u8 = buf[pos + 26];
    let table_start: usize = pos + 27;
    if seg_count as usize > buf.len() - table_start {
        return Err(FormatError::Malformed);
    }
    let table_end: usize = table_start + seg_count as usize;
    let table = vstd::slice::slice_subrange(buf, table_start, table_end);
    let payload_len: usize = table_sum(table);
    proof {
        lace_sum_range(table@);
    }
    Ok(
        PageHeader {
            header_type,
            granule,
            serial,
            seq,
            crc,
            seg_count,
            header_len: 27 + seg_count as usize,
            payload_len,
        },
    )
}

/// The lacing values of a packet of `n` bytes: ⌊n/255⌋ values of 255, then n mod 255.
pub open spec fn lacing(n: int) -> Seq<u8> {
    Seq::new(
        (n / 255 + 1) as nat,
        |i: int|
            if i < n / 255 {
                255u8
            } else {
                (n % 255) as u8
            },
    )
}

/// `k` lacing values of 255 describe `255 * k` bytes.
proof fn lace_sum_full(t: Seq<u8>)
    requires
        forall|i: int| 0 <= i < t.len() ==> t[i] == 255,
    ensures
        lace_sum(t) == 255 * t.len(),
    decreases t.len(),
{
    if t.len() > 0 {
        lace_sum_full(t.drop_last());
    }
}

/// A packet's lacing values describe exactly its bytes.
pub proof fn lacing_sums_to_length(n: int)
    requires
        0 <= n,
    ensures
        lace_sum(lacing(n)) == n,
{
    let t = lacing(n);
    lace_sum_full(t.drop_last());
}

/// Encode `payload_len` as Ogg lacing values: ⌊L/255⌋ values of 255 followed by
/// one value of L mod 255. When L is a multiple of 255 this appends a terminating
/// 0, which is required to signal the packet's end.
pub fn lacing_values(payload_len: usize) -> (v: Vec<u8>)
    ensures
        v@ == lacing(payload_len as int),
{
    let mut v: Vec<u8> = vec![255u8; payload_len / 255];
    v.push((payload_len % 255) as u8);
    assert(v@ =~= lacing(payload_len as int));
    v
}

/// The flags of a packet's page.
pub open spec fn page_flags(bos: bool, first: bool) -> u8 {
    if !first {
        FLAG_CONTINUED
    } else if bos {
        FLAG_BOS
    } else {
        0
    }
}

/// The header of a page whose CRC field holds `crc`.
#[verifier::opaque]
pub open spec fn page_header(
    flags: u8,
    granule: u64,
    serial: u32,
    seq: u32,
    crc: u32,
    table: Seq<u8>,
) -> Seq<u8> {
    capture() + seq![0u8, flags] + le64_bytes(granule as int) + le32_bytes(serial as int)
        + le32_bytes(seq as int) + le32_bytes(crc as int) + seq![table.len() as u8] + table
}

/// A whole page, its CRC field holding the CRC of the page with that field zero.
#[verifier::opaque]
pub open spec fn page(
    flags: u8,
    granule: u64,
    serial: u32,
    seq: u32,
    table: Seq<u8>,
    payload: Seq<u8>,
) -> Seq<u8> {
    let c = crc(page_header(flags, granule, serial, seq, 0, table) + payload);
    page_header(flags, granule, serial, seq, c, table) + payload
}

/// The sequence number after `seq`.
pub open spec fn next_seq(seq: u32) -> u32 {
    if seq == u32::MAX {
        0
    } else {
        (seq + 1) as u32
    }
}

/// How many of `n` lacing values go on one page.
pub open spec fn page_share(n: int) -> int {
    if n < 255 {
        n
    } else {
        255
    }
}

/// The pages that carry `payload` under the lacing values `laces`.
pub open spec fn pages_of(
    serial: u32,
    seq: u32,
    bos: bool,
    first: bool,
    granule: u64,
    laces: Seq<u8>,
    payload: Seq<u8>,
) -> Seq<u8>
    decreases laces.len(),
{
    let k = page_share(laces.len() as int);
    let n = lace_sum(laces.take(k));
    let head = page(page_flags(bos, first), granule, serial, seq, laces.take(k), payload.take(n));
    if laces.len() > 255 {
        head + pages_of(
            serial,
            next_seq(seq),
            bos,
            false,
            granule,
            laces.skip(k),
            payload.skip(n),
        )
    } else {
        head
    }
}

/// One packet laced into pages from sequence number `seq` on.
pub open spec fn laced(serial: u32, seq: u32, bos: bool, granule: u64, packet: Seq<u8>) -> Seq<u8> {
    pages_of(serial, seq, bos, true, granule, lacing(packet.len() as int), packet)
}

/// The number of pages a packet of `n` bytes takes.
pub open spec fn page_count(n: int) -> int {
    n / 255 / 255 + 1
}

/// The sequence number `k` pages after `seq`.
#[verifier::opaque]
pub open spec fn seq_after(seq: u32, k: int) -> u32 {
    ((seq + k) % 0x1_0000_0000) as u32
}

/// Sequence numbers count up by one, wrapping at 32 bits.
proof fn seq_steps(seq: u32, k: int)
    requires
        0 <= k,
    ensures
        seq_after(seq, 0) == seq,
        next_seq(seq_after(seq, k)) == seq_after(seq, k + 1),
        seq_after(seq, k) >= seq ==> seq_after(seq, k) - seq == k % 0x1_0000_0000,
        seq_after(seq, k) < seq ==> seq_after(seq, k) - seq + 0x1_0000_0000 == k % 0x1_0000_0000,
{
    reveal(seq_after);
}

/// Append a page header, with the CRC field holding `crc`.
pub(crate) fn push_page_header(
    out: &mut Vec<u8>,
    flags: u8,
    granule: u64,
    serial: u32,
    seq: u32,
    crc: u32,
    table: &[u8],
)
    requires
        table@.len() <= 255,
    ensures
        final(out)@ == old(out)@ + page_header(flags, granule, serial, seq, crc, table@),
{
    reveal(page_header);
    out.push(0x4f);
    out.push(0x67);
    out.push(0x67);
    out.push(0x53);
    out.push(0);
    out.push(flags);
    assert(out@ =~= old(out)@ + (capture() + seq![0u8, flags]));
    push_u64_le(out, granule);
    push_u32_le(out, serial);
    push_u32_le(out, seq);
    push_u32_le(out, crc);
    out.push(table.len() as u8);
    append(out, table);
    assert(out@ =~= old(out)@ + page_header(flags, granule, serial, seq, crc, table@));
}

/// A page header has 27 bytes and its table.
pub proof fn page_header_length(
    flags: u8,
    granule: u64,
    serial: u32,
    seq: u32,
    crc: u32,
    table: Seq<u8>,
)
    ensures
        page_header(flags, granule, serial, seq, crc, table).len() == 27 + table.len(),
{
    reveal(page_header);
}

/// A page has 27 bytes, its table and its payload.
pub proof fn page_length(
    flags: u8,
    granule: u64,
    serial: u32,
    seq: u32,
    table: Seq<u8>,
    payload: Seq<u8>,
)
    ensures
        page(flags, granule, serial, seq, table, payload).len() == 27 + table.len()
            + payload.len(),
{
    reveal(page);
    let c = crc(page_header(flags, granule, serial, seq, 0, table) + payload);
    page_header_length(flags, granule, serial, seq, c, table);
}

/// Append one whole page.
fn push_page(
    out: &mut Vec<u8>,
    flags: u8,
    granule: u64,
    serial: u32,
    seq: u32,
    table: &[u8],
    payload: &[u8],
)
    requires
        table@.len() <= 255,
    ensures
        final(out)@ == old(out)@ + page(flags, granule, serial, seq, table@, payload@),
{
    reveal(page);
    let mut full: Vec<u8> = Vec::new();
    push_page_header(&mut full, flags, granule, serial, seq, 0, table);
    append(&mut full, payload);
    assert(full@ =~= page_header(flags, granule, serial, seq, 0, table@) + payload@);
    let crc: u32 = crc32(full.as_slice());
    push_page_header(out, flags, granule, serial, seq, crc, table);
    append(out, payload);
    assert(out@ =~= old(out)@ + page(flags, granule, serial, seq, table@, payload@));
}

/// Lace one packet into one or more pages starting at sequence number `seq_start`.
/// Each page carries up to 255 lacing values (≤ 65 025 payload bytes). `bos` sets
/// the BOS flag on the packet's first page; continuation pages get FLAG_CONTINUED.
/// All pages use the given `granule`. Returns `(bytes, pages_used)`; sequence numbers
/// and the page count wrap at 32 bits.
#[verifier::spinoff_prover]
#[verifier::rlimit(60)]
pub fn lace_packet(serial: u32, seq_start: u32, bos: bool, granule: u64, packet: &[u8]) -> (r: (
    Vec<u8>,
    u32,
))
    ensures
        r.0@ == laced(serial, seq_start, bos, granule, packet@),
        r.1 == page_count(packet@.len() as int) % 0x1_0000_0000,
{
    let total: usize = packet.len();
    let laces = lacing_values(total);
    let mut out: Vec<u8> = Vec::new();
    let mut seq: u32 = seq_start;
    let mut lace_pos: usize = 0;
    let mut payload_pos: usize = 0;
    let mut first: bool = true;
    let ghost mut pages: int = 0;
    proof {
        seq_steps(seq_start, 0);
        lacing_sums_to_length(packet@.len() as int);
        assert(laces@.skip(0) =~= laces@);
        assert(packet@.skip(0) =~= packet@);
        assert(Seq::<u8>::empty() + laced(serial, seq_start, bos, granule, packet@) =~= laced(
            serial,
            seq_start,
            bos,
            granule,
            packet@,
        ));
    }
    // There is at least one lacing value, so a zero-length packet still gets a page.
    while lace_pos < laces.len()
        invariant
            lace_pos <= laces@.len(),
            laces@ == lacing(packet@.len() as int),
            total == packet@.len(),
            payload_pos <= packet@.len(),
            lace_sum(laces@.skip(lace_pos as int)) == packet@.len() - payload_pos,
            first == (lace_pos == 0),
            0 <= pages,
            lace_pos < laces@.len() ==> lace_pos == 255 * pages,
            lace_pos == laces@.len() ==> 255 * (pages - 1) < lace_pos <= 255 * pages,
            seq == seq_after(seq_start, pages),
            lace_pos < laces@.len() ==> out@ + pages_of(
                serial,
                seq,
                bos,
                first,
                granule,
                laces@.skip(lace_pos as int),
                packet@.skip(payload_pos as int),
            ) == laced(serial, seq_start, bos, granule, packet@),
            lace_pos == laces@.len() ==> out@ == laced(serial, seq_start, bos, granule, packet@),
        decreases laces@.len() - lace_pos,
    {
        let left: usize = laces.len() - lace_pos;
        let chunk: usize = if left < 255 {
            left
        } else {
            255
        };
        let table = vstd::slice::slice_subrange(laces.as_slice(), lace_pos, lace_pos + chunk);
        let page_payload: usize = table_sum(table);
        let ghost rest = laces@.skip(lace_pos as int);
        proof {
            assert(table@ =~= rest.take(chunk as int));
            assert(rest =~= rest.take(chunk as int) + rest.skip(chunk as int));
            lace_sum_concat(rest.take(chunk as int), rest.skip(chunk as int));
            lace_sum_range(rest.skip(chunk as int));
            lace_sum_range(table@);
            assert(rest.skip(chunk as int) =~= laces@.skip(lace_pos + chunk));
        }
        let flags: u8 = if !first {
            FLAG_CONTINUED
        } else if bos {
            FLAG_BOS
        } else {
            0
        };
        let body = vstd::slice::slice_subrange(packet, payload_pos, payload_pos + page_payload);
        let ghost before = out@;
        push_page(&mut out, flags, granule, serial, seq, table, body);
        proof {
            let left_payload = packet@.skip(payload_pos as int);
            assert(body@ =~= left_payload.take(page_payload as int));
            assert(left_payload.skip(page_payload as int) =~= packet@.skip(
                payload_pos + page_payload,
            ));
            if lace_pos + chunk < laces@.len() {
                assert(out@ + pages_of(
                    serial,
                    next_seq(seq),
                    bos,
                    false,
                    granule,
                    laces@.skip(lace_pos + chunk),
                    packet@.skip(payload_pos + page_payload),
                ) =~= before + pages_of(
                    serial,
                    seq,
                    bos,
                    first,
                    granule,
                    rest,
                    left_payload,
                ));
            }
        }
        lace_pos = lace_pos + chunk;
        payload_pos = payload_pos + page_payload;
        seq = seq.wrapping_add(1);
        first = false;
        proof {
            seq_steps(seq_start, pages);
            pages = pages + 1;
        }
    }
    proof {
        seq_steps(seq_start, pages);
        let n = packet@.len() as int;
        assert(255 * (pages - 1) < n / 255 + 1 <= 255 * pages);
        assert(pages == n / 255 / 255 + 1);
    }
    (out, seq.wrapping_sub(seq_start))
}

/// The byte strings behind a slice of slices.
pub open spec fn contents(packets: Seq<&[u8]>) -> Seq<Seq<u8>> {
    Seq::new(packets.len(), |i: int| packets[i]@)
}

/// The pages that a list of packets takes, each packet starting a new page.
pub open spec fn total_page_count(packets: Seq<Seq<u8>>) -> int
    decreases packets.len(),
{
    if packets.len() == 0 {
        0
    } else {
        total_page_count(packets.drop_last()) + page_count(packets.last().len() as int)
    }
}

/// Header packets laced one after the other: numbered from 0, BOS on the first page.
pub open spec fn headers_laced(serial: u32, packets: Seq<Seq<u8>>) -> Seq<u8>
    decreases packets.len(),
{
    if packets.len() == 0 {
        Seq::empty()
    } else {
        headers_laced(serial, packets.drop_last()) + laced(
            serial,
            total_page_count(packets.drop_last()) as u32,
            packets.len() == 1,
            0,
            packets.last(),
        )
    }
}

/// Fewer packets take no more pages.
pub proof fn total_page_count_prefix(packets: Seq<Seq<u8>>, n: int)
    requires
        0 <= n <= packets.len(),
    ensures
        0 <= total_page_count(packets.take(n)) <= total_page_count(packets),
    decreases packets.len(),
{
    if n == packets.len() {
        assert(packets.take(n) =~= packets);
        if n > 0 {
            total_page_count_prefix(packets.drop_last(), n - 1);
        }
    } else {
        total_page_count_prefix(packets.drop_last(), n);
        assert(packets.drop_last().take(n) =~= packets.take(n));
    }
}

/// Lace a sequence of header packets onto fresh pages starting at sequence 0, with
/// BOS on the very first page and granule 0 throughout (header pages carry no
/// audio). Each packet begins a new page. Returns `(bytes, page_count)`.
pub fn build_header(serial: u32, packets: &[&[u8]]) -> (r: (Vec<u8>, u32))
    requires
        total_page_count(contents(packets@)) <= u32::MAX,
    ensures
        r.0@ == headers_laced(serial, contents(packets@)),
        r.1 == total_page_count(contents(packets@)),
{
    let ghost all = contents(packets@);
    let mut out: Vec<u8> = Vec::new();
    let mut seq: u32 = 0;
    let mut i: usize = 0;
    while i < packets.len()
        invariant
            i <= packets@.len(),
            all == contents(packets@),
            total_page_count(all) <= u32::MAX,
            out@ == headers_laced(serial, all.take(i as int)),
            seq == total_page_count(all.take(i as int)),
        decreases packets@.len() - i,
    {
        proof {
            assert(all.take(i + 1).drop_last() =~= all.take(i as int));
            total_page_count_prefix(all, i + 1);
            total_page_count_prefix(all, i as int);
        }
        let (bytes, used) = lace_packet(serial, seq, i == 0, 0, packets[i]);
        append(&mut out, bytes.as_slice());
        seq = seq + used;
        i = i + 1;
    }
    assert(all.take(i as int) =~= all);
    (out, seq)
}

/// A packet reassembled from one or more pages, plus the byte offset just past
/// the page on which it completed (used to locate where audio begins).
#[derive(Debug, Clone, PartialEq, Eq)]
pub struct ReadPacket {
    pub data: Vec<u8>,
    pub end_offset: usize,
    pub pages_through_end: u32,
}

/// A reassembled packet as a mathematical value.
pub struct PacketModel {
    pub data: Seq<u8>,
    pub end_offset: int,
    pub pages_through_end: int,
}

/// What a `ReadPacket` stands for.
pub open spec fn packet_model(p: ReadPacket) -> PacketModel {
    PacketModel {
        data: p.data@,
        end_offset: p.end_offset as int,
        pages_through_end: p.pages_through_end as int,
    }
}

/// What a list of `ReadPacket`s stands for.
pub open spec fn packet_models(s: Seq<ReadPacket>) -> Seq<PacketModel> {
    Seq::new(s.len(), |i: int| packet_model(s[i]))
}

/// Where segment `i` of the page at `p` starts.
pub open spec fn segment_start(d: Seq<u8>, p: int, i: int) -> int {
    p + page_header_len(d, p) + lace_sum(page_table(d, p).take(i))
}

/// The packets that complete from segment `i` of the page at `p` on, in order, up to the
/// first page or segment that is not there. `cur` is what an unfinished packet has
/// gathered before; `pages` counts the pages so far, the one at `p` included. A packet
/// ends at the first lacing value below 255.
pub open spec fn packets_from(d: Seq<u8>, p: int, pages: int, i: int, cur: Seq<u8>) -> Seq<
    PacketModel,
>
    decreases d.len() - p, d[p + 26] - i,
{
    if !page_starts(d, p) || i < 0 {
        Seq::empty()
    } else if i >= d[p + 26] {
        let next = p + page_total_len(d, p);
        if p < next <= d.len() {
            packets_from(d, next, pages + 1, 0, cur)
        } else {
            Seq::empty()
        }
    } else {
        let start = segment_start(d, p, i);
        let lace = d[p + 27 + i];
        if start + lace > d.len() {
            Seq::empty()
        } else {
            let data = cur + d.subrange(start, start + lace);
            if lace < 255 {
                seq![
                    PacketModel {
                        data,
                        end_offset: p + page_total_len(d, p),
                        pages_through_end: pages,
                    },
                ] + packets_from(d, p, pages, i + 1, Seq::empty())
            } else {
                packets_from(d, p, pages, i + 1, data)
            }
        }
    }
}

/// Every packet that the pages from the start of `d` on hold whole.
pub open spec fn packets_of(d: Seq<u8>) -> Seq<PacketModel> {
    packets_from(d, 0, 1, 0, Seq::empty())
}

/// Few enough bytes for a 32-bit count of the pages in them, and for an offset one page
/// past the end.
pub open spec fn pages_countable(d: Seq<u8>) -> bool {
    &&& d.len() < 27 * 0xffff_ffff
    &&& d.len() + MAX_PAGE_BYTES <= usize::MAX
}

/// Reads the packets of a page stream one after the other.
pub(crate) struct PacketReader<'a> {
    data: &'a [u8],
    /// Where the current page starts.
    pos: usize,
    /// How many pages there are up to the current one, itself counted.
    pages: u32,
    /// The next segment of the current page.
    seg: usize,
    /// Where that segment starts; not in use at the first segment.
    at: usize,
    /// What an unfinished packet has gathered.
    cur: Vec<u8>,
}

impl<'a> PacketReader<'a> {
    /// The bytes that are read.
    pub closed spec fn bytes(&self) -> Seq<u8> {
        self.data@
    }

    /// The packets still to come.
    pub closed spec fn rest(&self) -> Seq<PacketModel> {
        packets_from(
            self.data@,
            self.pos as int,
            self.pages as int,
            self.seg as int,
            self.cur@,
        )
    }

    /// The reader stands at a segment, and its counts are right.
    pub closed spec fn wf(&self) -> bool {
        &&& pages_countable(self.data@)
        &&& self.pos <= self.data@.len()
        &&& self.pages >= 1
        &&& 27 * (self.pages - 1) <= self.pos
        &&& self.seg > 0 ==> page_starts(self.data@, self.pos as int) && self.seg
            <= self.data@[self.pos + 26] && self.at == segment_start(
            self.data@,
            self.pos as int,
            self.seg as int,
        ) && self.at <= self.data@.len()
    }

    /// A reader at the start of `data`.
    pub(crate) fn new(data: &'a [u8]) -> (r: PacketReader<'a>)
        requires
            pages_countable(data@),
        ensures
            r.wf(),
            r.bytes() == data@,
            r.rest() == packets_of(data@),
    {
        let r = PacketReader { data, pos: 0, pages: 1, seg: 0, at: 0, cur: Vec::new() };
        assert(r.cur@ =~= Seq::<u8>::empty());
        r
    }

    /// The next packet, or `None` when a page or segment is not there.
    pub(crate) fn next(&mut self) -> (r: Option<ReadPacket>)
        requires
            old(self).wf(),
        ensures
            final(self).wf(),
            final(self).bytes() == old(self).bytes(),
            match r {
                Some(p) => old(self).rest() == seq![packet_model(p)] + final(self).rest(),
                None => old(self).rest() == Seq::<PacketModel>::empty(),
            },
    {
        let ghost d = self.data@;
        let ghost goal = self.rest();
        let total: usize = self.data.len();
        loop
            invariant
                self.wf(),
                self.data@ == d,
                total == d.len(),
                old(self).data@ == d,
                goal == old(self).rest(),
                self.rest() == goal,
            decreases d.len() - self.pos, 256 - self.seg,
        {
            let h = match parse_page(self.data, self.pos) {
                Ok(h) => h,
                Err(_) => {
                    return None;
                },
            };
            let ghost table = page_table(d, self.pos as int);
            proof {
                lace_sum_range(table);
                assert(table.take(0) =~= Seq::<u8>::empty());
                assert(table.take(table.len() as int) =~= table);
            }
            if self.seg == 0 {
                self.at = self.pos + h.header_len;
            }
            if self.seg >= h.seg_count as usize {
                let next: usize = self.pos + h.total_len();
                if next > total {
                    return None;
                }
                self.pos = next;
                self.pages = self.pages + 1;
                self.seg = 0;
                continue;
            }
            let lace: usize = self.data[self.pos + 27 + self.seg] as usize;
            proof {
                assert(table.take(self.seg + 1).drop_last() =~= table.take(self.seg as int));
                assert(table[self.seg as int] == d[self.pos + 27 + self.seg]);
            }
            if lace > total - self.at {
                return None;
            }
            append(
                &mut self.cur,
                vstd::slice::slice_subrange(self.data, self.at, self.at + lace),
            );
            self.at = self.at + lace;
            self.seg = self.seg + 1;
            if lace < 255 {
                let mut data: Vec<u8> = Vec::new();
                std::mem::swap(&mut data, &mut self.cur);
                assert(self.cur@ =~= Seq::<u8>::empty());
                return Some(
                    ReadPacket {
                        data,
                        end_offset: self.pos + h.total_len(),
                        pages_through_end: self.pages,
                    },
                );
            }
        }
    }
}

/// Append a packet.
pub(crate) fn push_packet(out: &mut Vec<ReadPacket>, p: ReadPacket)
    ensures
        packet_models(final(out)@) == packet_models(old(out)@).push(packet_model(p)),
        final(out)@.len() == old(out)@.len() + 1,
{
    let ghost m = packet_model(p);
    out.push(p);
    assert(packet_models(out@) =~= packet_models(old(out)@).push(m));
}

/// Reassemble up to `want` packets from the pages starting at `data[0]`. Stops as
/// soon as `want` packets have completed (audio for Opus/Vorbis/OggFLAC begins on
/// a fresh page after the header packets). A packet ends at the first lacing value
/// < 255.
pub fn read_packets(data: &[u8], want: usize) -> (r: Result<Vec<ReadPacket>>)
    requires
        pages_countable(data@),
    ensures
        match r {
            Ok(v) => packets_of(data@).len() >= want && packet_models(v@) == packets_of(
                data@,
            ).take(want as int),
            Err(e) => e == FormatError::Malformed && packets_of(data@).len() < want,
        },
{
    let ghost all = packets_of(data@);
    let mut reader = PacketReader::new(data);
    let mut out: Vec<ReadPacket> = Vec::new();
    assert(packet_models(out@) + reader.rest() =~= all);
    while out.len() < want
        invariant
            reader.wf(),
            out@.len() <= want,
            packet_models(out@) + reader.rest() == all,
            all == packets_of(data@),
        decreases want - out@.len(),
    {
        let ghost before = packet_models(out@);
        match reader.next() {
            Some(p) => {
                let ghost m = packet_model(p);
                push_packet(&mut out, p);
                assert(before + (seq![m] + reader.rest()) =~= packet_models(out@)
                    + reader.rest());
            },
            None => {
                return Err(FormatError::Malformed);
            },
        }
    }
    assert(packet_models(out@) =~= all.take(want as int));
    Ok(out)
}

/// A page with its CRC field zero: what the CRC is computed over.
pub open spec fn crc_zeroed(full: Seq<u8>) -> Seq<u8> {
    full.take(22) + zeros(4) + full.skip(26)
}

/// A page with its sequence number replaced and its CRC field zero.
pub open spec fn renumbered(full: Seq<u8>, seq: u32) -> Seq<u8> {
    full.take(18) + le32_bytes(seq as int) + zeros(4) + full.skip(26)
}

/// A page starts `d` and is all there.
pub open spec fn page_complete(d: Seq<u8>) -> bool {
    page_starts(d, 0) && page_total_len(d, 0) <= d.len()
}

/// The page that starts `d`.
pub open spec fn first_page(d: Seq<u8>) -> Seq<u8> {
    d.take(page_total_len(d, 0))
}

/// The CRC that the first page of `d` stores is the right one.
pub open spec fn crc_matches(d: Seq<u8>) -> bool {
    le32(d, 22) == crc(crc_zeroed(first_page(d)))
}

/// The header of the first page of `d` with the sequence number `seq` and the CRC field
/// `c`.
pub open spec fn header_with(d: Seq<u8>, seq: u32, c: u32) -> Seq<u8> {
    d.take(18) + le32_bytes(seq as int) + le32_bytes(c as int) + d.subrange(
        26,
        page_header_len(d, 0),
    )
}

/// Given the full bytes of one page, return just its header bytes (length
/// `header_len`) with the sequence number set to `new_seq` and the CRC recomputed
/// over the patched page. The payload is read (to recompute the CRC) but not
/// returned: callers splice it verbatim from the backing file.
pub fn patch_page_header(page: &[u8], new_seq: u32) -> (r: Result<Vec<u8>>)
    ensures
        match r {
            Ok(v) => page_complete(page@) && v@ == header_with(
                page@,
                new_seq,
                crc(renumbered(first_page(page@), new_seq)),
            ),
            Err(e) => e == FormatError::Malformed && !page_complete(page@),
        },
{
    let h = match parse_page(page, 0) {
        Ok(h) => h,
        Err(e) => {
            return Err(e);
        },
    };
    let total: usize = h.total_len();
    if page.len() < total {
        return Err(FormatError::Malformed);
    }
    let mut full: Vec<u8> = copy_range(page, 0, total);
    let ghost f = first_page(page@);
    proof {
        lace_sum_range(page_table(page@, 0));
        assert(full@ =~= f);
    }
    put_u32_le(&mut full, 18, new_seq);
    put_u32_le(&mut full, 22, 0);
    assert(full@ =~= renumbered(f, new_seq));
    let crc: u32 = crc32(full.as_slice());
    put_u32_le(&mut full, 22, crc);
    full.truncate(h.header_len);
    assert(full@ =~= header_with(page@, new_seq, crc));
    Ok(full)
}

/// A page header, with its whole segment table, has room in `d` (the capture pattern is
/// not looked at).
pub open spec fn header_complete(d: Seq<u8>) -> bool {
    27 <= d.len() && page_header_len(d, 0) <= d.len()
}

/// What changing the sequence number does to a page's CRC: the CRC of the all-zero page
/// whose sequence field holds the two numbers combined by exclusive or.
pub open spec fn renumber_delta(d: Seq<u8>, seq: u32) -> u32 {
    zero_shift(
        crc(le32_bytes((le32(d, 18) as u32 ^ seq) as int)),
        (page_total_len(d, 0) - 22) as nat,
    )
}

/// Patch a page header algebraically, with no payload read.
///
/// `header` must hold at least `27 + seg_count` bytes (the fixed Ogg page header
/// plus segment table; seg_count is read from byte 26). Returns the patched
/// header bytes with `new_seq` written and the CRC updated via:
///
///   new_crc = old_crc XOR crc32(DELTA)
///
/// where DELTA is the all-zero message of length page_len, except bytes 18–21
/// hold `old_seq XOR new_seq`. The payload cancels out of the XOR because the
/// Ogg CRC is linear (init=0, no xorout). The payload length is derived from the
/// segment table.
pub fn patch_page_header_algebraic(header: &[u8], new_seq: u32) -> (r: Result<Vec<u8>>)
    ensures
        match r {
            Ok(v) => header_complete(header@) && v@ == header_with(
                header@,
                new_seq,
                le32(header@, 22) as u32 ^ renumber_delta(header@, new_seq),
            ),
            Err(e) => e == FormatError::Malformed && !header_complete(header@),
        },
{
    if header.len() < 27 {
        return Err(FormatError::Malformed);
    }
    let seg_count: usize = header[26] as usize;
    let header_len: usize = 27 + seg_count;
    if header.len() < header_len {
        return Err(FormatError::Malformed);
    }
    let table = vstd::slice::slice_subrange(header, 27, header_len);
    let payload_len: usize = table_sum(table);
    proof {
        lace_sum_range(table@);
        assert(table@ == page_table(header@, 0));
    }
    let old_seq: u32 = le32_at(header, 18);
    let old_crc: u32 = le32_at(header, 22);
    // 18 leading zeros leave the CRC state at 0, so we start directly from the 4-byte
    // seq delta, then shift by the trailing zero count.
    let mut delta: Vec<u8> = Vec::new();
    push_u32_le(&mut delta, old_seq ^ new_seq);
    assert(delta@ =~= le32_bytes((old_seq ^ new_seq) as int));
    let trailing: usize = 5 + seg_count + payload_len;
    let new_crc: u32 = old_crc ^ crc_shift_zeros(crc32(delta.as_slice()), trailing);
    let mut out: Vec<u8> = copy_range(header, 0, header_len);
    put_u32_le(&mut out, 18, new_seq);
    put_u32_le(&mut out, 22, new_crc);
    assert(out@ =~= header_with(header@, new_seq, new_crc));
    Ok(out)
}

/// Verify that the page at the start of `page` carries a stored CRC matching a
/// fresh computation. `page` must hold at least the full page (`total_len()`
/// bytes). Used by the backward-scan entry-page guard to reject a coincidental
/// `OggS` match in audio payload (a false page start fails this check).
pub fn verify_page_crc(page: &[u8]) -> (r: Result<bool>)
    ensures
        match r {
            Ok(b) => page_complete(page@) && b == crc_matches(page@),
            Err(e) => e == FormatError::Malformed && !page_complete(page@),
        },
{
    let h = match parse_page(page, 0) {
        Ok(h) => h,
        Err(e) => {
            return Err(e);
        },
    };
    let total: usize = h.total_len();
    if page.len() < total {
        return Err(FormatError::Malformed);
    }
    let mut buf: Vec<u8> = copy_range(page, 0, total);
    proof {
        lace_sum_range(page_table(page@, 0));
        assert(buf@ =~= first_page(page@));
    }
    put_u32_le(&mut buf, 22, 0);
    assert(buf@ =~= crc_zeroed(first_page(page@)));
    Ok(crc32(buf.as_slice()) == h.crc)
}

} // verus!
