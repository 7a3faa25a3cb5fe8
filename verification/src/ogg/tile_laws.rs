//! The art slices of a laced packet cover each art run once, from its first byte to its last.

use super::chunks::chunk_len;
use super::chunks::chunks_len;
use super::chunks::emit_state;
use super::chunks::page_segments;
use super::chunks::segments_of;
use super::chunks::ChunkModel;
use super::page::lace_sum;
use super::page::lace_sum_concat;
use super::page::lace_sum_range;
use super::page::lacing;
use super::page::lacing_sums_to_length;
use super::page::page_share;
use crate::layout::SegView;
use vstd::prelude::*;

verus! {

/// The art slices among segments, in order.
pub open spec fn art_slices(segs: Seq<SegView>) -> Seq<SegView>
    decreases segs.len(),
{
    if segs.len() == 0 {
        Seq::empty()
    } else if segs.last() is OggArtSlice {
        art_slices(segs.drop_last()).push(segs.last())
    } else {
        art_slices(segs.drop_last())
    }
}

/// `s` is a slice of the art run `c`, from output position `pos` on and not beyond its end.
pub open spec fn slice_at(s: SegView, c: ChunkModel, pos: int) -> bool {
    match (s, c) {
        (
            SegView::OggArtSlice { art_id, offset, len, base64, art_total },
            ChunkModel::Art { art_id: id, base64: coded, art_total: total },
        ) => art_id == id && base64 == coded && art_total == total && offset == pos && 0 < len
            && pos + len <= chunk_len(c),
        _ => false,
    }
}

/// The length of a slice.
pub open spec fn slice_len(s: SegView) -> int {
    match s {
        SegView::OggArtSlice { len, .. } => len,
        _ => 0,
    }
}

/// From output position `pos` of chunk `k` on, the slices tile the art runs, in order and
/// without a gap, up to payload position `end`: each begins where the one before it ended,
/// and a run is done before the next begins.
pub open spec fn tile_to(
    slices: Seq<SegView>,
    chunks: Seq<ChunkModel>,
    k: int,
    pos: int,
    end: int,
) -> bool
    decreases slices.len(), chunks.len() - k,
{
    if k < 0 || k >= chunks.len() || chunks_len(chunks.take(k)) + pos >= end {
        slices.len() == 0
    } else if chunks[k] is Bytes || pos == chunk_len(chunks[k]) {
        tile_to(slices, chunks, k + 1, 0, end)
    } else {
        &&& slices.len() > 0
        &&& slice_at(slices[0], chunks[k], pos)
        &&& chunks_len(chunks.take(k)) + pos + slice_len(slices[0]) <= end
        &&& tile_to(slices.drop_first(), chunks, k, pos + slice_len(slices[0]), end)
    }
}

/// The slices tile every art run whole: `[0, length)` of each, in order.
pub open spec fn tile_all(slices: Seq<SegView>, chunks: Seq<ChunkModel>) -> bool {
    tile_to(slices, chunks, 0, 0, chunks_len(chunks))
}

/// The chunks up to and with `k`.
proof fn one_chunk_more(chunks: Seq<ChunkModel>, k: int)
    requires
        0 <= k < chunks.len(),
    ensures
        chunks_len(chunks.take(k + 1)) == chunks_len(chunks.take(k)) + chunk_len(chunks[k]),
        0 <= chunk_len(chunks[k]),
{
    assert(chunks.take(k + 1).drop_last() =~= chunks.take(k));
}

/// Later chunks begin no earlier.
proof fn chunks_in_order(chunks: Seq<ChunkModel>, i: int, j: int)
    requires
        0 <= i < j <= chunks.len(),
    ensures
        chunks_len(chunks.take(i)) + chunk_len(chunks[i]) <= chunks_len(chunks.take(j)),
        0 <= chunks_len(chunks.take(i)),
    decreases j - i,
{
    one_chunk_more(chunks, i);
    starts_nonneg(chunks, i);
    if i + 1 < j {
        chunks_in_order(chunks, i + 1, j);
        one_chunk_more(chunks, i + 1);
    }
}

proof fn starts_nonneg(chunks: Seq<ChunkModel>, i: int)
    requires
        0 <= i <= chunks.len(),
    ensures
        0 <= chunks_len(chunks.take(i)),
    decreases i,
{
    if i > 0 {
        starts_nonneg(chunks, i - 1);
        one_chunk_more(chunks, i - 1);
    }
}

/// A slice of art run `j` from payload position `p` on goes on with the tiling.
proof fn tile_append(
    slices: Seq<SegView>,
    chunks: Seq<ChunkModel>,
    k: int,
    pos: int,
    p: int,
    j: int,
    s: SegView,
)
    requires
        tile_to(slices, chunks, k, pos, p),
        0 <= k <= chunks.len(),
        k < chunks.len() ==> 0 <= pos <= chunk_len(chunks[k]),
        k == chunks.len() ==> pos == 0,
        chunks_len(chunks.take(k)) + pos <= p,
        0 <= j < chunks.len(),
        chunks[j] is Art,
        chunks_len(chunks.take(j)) <= p,
        slice_at(s, chunks[j], p - chunks_len(chunks.take(j))),
    ensures
        tile_to(slices.push(s), chunks, k, pos, p + slice_len(s)),
    decreases slices.len(), chunks.len() - k,
{
    let cs = chunks_len(chunks.take(k));
    let end = p + slice_len(s);
    one_chunk_more(chunks, j);
    if k > j {
        chunks_in_order(chunks, j, k);
        assert(false);
    }
    one_chunk_more(chunks, k);
    if k < j {
        chunks_in_order(chunks, k, j);
    }
    let more = slices.push(s);
    if cs + pos >= p {
        assert(slices.len() == 0);
        assert(more[0] == s);
        if k == j {
            assert(more.drop_first() =~= Seq::empty());
            assert(tile_to(more.drop_first(), chunks, k, pos + slice_len(s), end));
        } else {
            assert(pos == chunk_len(chunks[k]));
            assert(tile_to(slices, chunks, k + 1, 0, p));
            tile_append(slices, chunks, k + 1, 0, p, j, s);
        }
    } else if chunks[k] is Bytes || pos == chunk_len(chunks[k]) {
        tile_append(slices, chunks, k + 1, 0, p, j, s);
    } else {
        let l = slice_len(slices[0]);
        assert(more[0] == slices[0]);
        assert(more.drop_first() =~= slices.drop_first().push(s));
        tile_append(slices.drop_first(), chunks, k, pos + l, p, j, s);
    }
}

/// Literal bytes of chunk `j` from `p` to `q` leave the tiling as it is.
proof fn tile_skip(
    slices: Seq<SegView>,
    chunks: Seq<ChunkModel>,
    k: int,
    pos: int,
    p: int,
    q: int,
    j: int,
)
    requires
        tile_to(slices, chunks, k, pos, p),
        0 <= k <= chunks.len(),
        k < chunks.len() ==> 0 <= pos <= chunk_len(chunks[k]),
        k == chunks.len() ==> pos == 0,
        0 <= j < chunks.len(),
        chunks[j] is Bytes,
        chunks_len(chunks.take(j)) <= p <= q,
        q <= chunks_len(chunks.take(j)) + chunk_len(chunks[j]),
    ensures
        tile_to(slices, chunks, k, pos, q),
    decreases slices.len(), chunks.len() - k,
{
    let cs = chunks_len(chunks.take(k));
    if k < chunks.len() {
        one_chunk_more(chunks, k);
        if cs + pos < q {
            if k > j {
                chunks_in_order(chunks, j, k);
                assert(false);
            }
            if k < j {
                chunks_in_order(chunks, k, j);
            }
            if cs + pos >= p {
                assert(slices.len() == 0);
                if k < j {
                    assert(pos == chunk_len(chunks[k]));
                    assert(tile_to(slices, chunks, k + 1, 0, p));
                    tile_skip(slices, chunks, k + 1, 0, p, q, j);
                } else {
                    assert(tile_to(slices, chunks, k + 1, 0, q));
                }
            } else if chunks[k] is Bytes || pos == chunk_len(chunks[k]) {
                tile_skip(slices, chunks, k + 1, 0, p, q, j);
            } else {
                let l = slice_len(slices[0]);
                tile_skip(slices.drop_first(), chunks, k, pos + l, p, q, j);
            }
        } else {
            assert(cs + pos >= p);
        }
    }
}

/// Joined segments have their slices joined.
proof fn slices_concat(a: Seq<SegView>, b: Seq<SegView>)
    ensures
        art_slices(a + b) == art_slices(a) + art_slices(b),
    decreases b.len(),
{
    if b.len() == 0 {
        assert(a + b =~= a);
        assert(art_slices(a) + Seq::<SegView>::empty() =~= art_slices(a));
    } else {
        assert((a + b).drop_last() =~= a + b.drop_last());
        slices_concat(a, b.drop_last());
        assert(art_slices(a + b) =~= art_slices(a) + art_slices(b));
    }
}

/// One more segment.
proof fn slices_push(a: Seq<SegView>, s: SegView)
    ensures
        art_slices(a.push(s)) == if s is OggArtSlice {
            art_slices(a).push(s)
        } else {
            art_slices(a)
        },
{
    assert(a.push(s).drop_last() =~= a);
}

/// How far the first `k` chunks reach into a page.
spec fn reached(chunks: Seq<ChunkModel>, p0: int, end: int, k: int) -> int {
    let cs = chunks_len(chunks.take(k));
    if cs < p0 {
        p0
    } else if cs > end {
        end
    } else {
        cs
    }
}

/// The slices of the first `k` chunks of a page go on with the tiling.
proof fn page_tiles(
    before: Seq<SegView>,
    header: Seq<u8>,
    chunks: Seq<ChunkModel>,
    p0: int,
    end: int,
    k: nat,
)
    requires
        tile_to(before, chunks, 0, 0, p0),
        0 <= p0 <= end <= chunks_len(chunks),
        k <= chunks.len(),
    ensures
        tile_to(
            before + art_slices(emit_state(header, chunks, p0, end, k).0),
            chunks,
            0,
            0,
            reached(chunks, p0, end, k as int),
        ),
    decreases k,
{
    if k == 0 {
        assert(chunks.take(0) =~= Seq::empty());
        assert(before + Seq::<SegView>::empty() =~= before);
    } else {
        let j = k - 1;
        page_tiles(before, header, chunks, p0, end, j as nat);
        let (done, buf) = emit_state(header, chunks, p0, end, j as nat);
        let c = chunks[j];
        let cs = chunks_len(chunks.take(j));
        let ce = cs + chunk_len(c);
        one_chunk_more(chunks, j);
        starts_nonneg(chunks, j);
        assert(chunks.take(0) =~= Seq::empty());
        if chunks.len() > 0 {
            one_chunk_more(chunks, 0);
        }
        let os = if p0 > cs {
            p0
        } else {
            cs
        };
        let oe = if end < ce {
            end
        } else {
            ce
        };
        let so_far = before + art_slices(done);
        if os < oe {
            assert(reached(chunks, p0, end, j) == os);
            assert(reached(chunks, p0, end, k as int) == oe);
            match c {
                ChunkModel::Bytes(_) => {
                    tile_skip(so_far, chunks, 0, 0, os, oe, j);
                },
                ChunkModel::Art { art_id, base64, art_total } => {
                    let s = SegView::OggArtSlice {
                        art_id,
                        offset: os - cs,
                        len: oe - os,
                        base64,
                        art_total: art_total as int,
                    };
                    if buf.len() > 0 {
                        slices_push(done, SegView::Inline(buf));
                    }
                    slices_push(crate::layout::flushed(done, buf), s);
                    tile_append(so_far, chunks, 0, 0, os, j, s);
                    assert(so_far.push(s) =~= before + art_slices(done).push(s));
                },
            }
        } else {
            assert(reached(chunks, p0, end, k as int) == reached(chunks, p0, end, j)) by {
                if chunk_len(c) > 0 {
                    assert(ce <= p0 || cs >= end || p0 == end);
                }
            }
        }
    }
}

/// The slices of the pages from `p0` on complete the tiling.
proof fn pages_tile(
    before: Seq<SegView>,
    serial: u32,
    seq: u32,
    bos: bool,
    first: bool,
    laces: Seq<u8>,
    chunks: Seq<ChunkModel>,
    p0: int,
    payload: Seq<u8>,
)
    requires
        tile_to(before, chunks, 0, 0, p0),
        0 <= p0,
        p0 + lace_sum(laces) == chunks_len(chunks),
    ensures
        tile_all(
            before + art_slices(
                segments_of(serial, seq, bos, first, laces, chunks, p0, payload),
            ),
            chunks,
        ),
    decreases laces.len(),
{
    let k = page_share(laces.len() as int);
    let n = lace_sum(laces.take(k));
    assert(laces =~= laces.take(k) + laces.skip(k));
    lace_sum_concat(laces.take(k), laces.skip(k));
    lace_sum_range(laces.take(k));
    lace_sum_range(laces.skip(k));
    let all = segments_of(serial, seq, bos, first, laces, chunks, p0, payload);
    let end = p0 + n;
    assert(chunks.take(chunks.len() as int) =~= chunks);
    assert forall|header: Seq<u8>|
        tile_to(
            before + art_slices(#[trigger] page_segments(header, chunks, p0, end)),
            chunks,
            0,
            0,
            end,
        ) by {
        page_tiles(before, header, chunks, p0, end, chunks.len());
        let (done, buf) = emit_state(header, chunks, p0, end, chunks.len());
        if buf.len() > 0 {
            slices_push(done, SegView::Inline(buf));
        }
    }
    if laces.len() > 255 {
        let rest = segments_of(
            serial,
            (seq + 1) as u32,
            bos,
            false,
            laces.skip(k),
            chunks,
            end,
            payload,
        );
        assert(exists|header: Seq<u8>|
            all == #[trigger] page_segments(header, chunks, p0, end) + rest);
        let header = choose|header: Seq<u8>|
            all == #[trigger] page_segments(header, chunks, p0, end) + rest;
        let page = page_segments(header, chunks, p0, end);
        pages_tile(
            before + art_slices(page),
            serial,
            (seq + 1) as u32,
            bos,
            false,
            laces.skip(k),
            chunks,
            end,
            payload,
        );
        slices_concat(page, rest);
        assert(before + art_slices(page) + art_slices(rest) =~= before + (art_slices(page)
            + art_slices(rest)));
    } else {
        assert(laces.skip(k) =~= Seq::empty());
        assert(lace_sum(laces.skip(k)) == 0);
        assert(exists|header: Seq<u8>| all == #[trigger] page_segments(header, chunks, p0, end));
    }
}

/// The art slices of a laced packet tile each art run: in order, without gap or overlap, from
/// its first output byte to its last, page boundaries notwithstanding.
pub proof fn art_slices_tile(
    serial: u32,
    seq: u32,
    bos: bool,
    chunks: Seq<ChunkModel>,
    payload: Seq<u8>,
)
    ensures
        tile_all(
            art_slices(
                segments_of(
                    serial,
                    seq,
                    bos,
                    true,
                    lacing(chunks_len(chunks)),
                    chunks,
                    0,
                    payload,
                ),
            ),
            chunks,
        ),
{
    let n = chunks_len(chunks);
    assert(chunks.take(chunks.len() as int) =~= chunks);
    starts_nonneg(chunks, chunks.len() as int);
    lacing_sums_to_length(n);
    let none = Seq::<SegView>::empty();
    let all = segments_of(serial, seq, bos, true, lacing(n), chunks, 0, payload);
    assert(chunks.take(0) =~= Seq::empty());
    assert(tile_to(none, chunks, 0, 0, 0));
    pages_tile(none, serial, seq, bos, true, lacing(n), chunks, 0, payload);
    assert(none + art_slices(all) =~= art_slices(all));
}

} // verus!
