//! Chunk offsets: the `stco` and `co64` tables of every track, moved along with the audio.

use crate::bytes::be32;
use crate::bytes::be32_bytes;
use crate::bytes::be64;
use crate::bytes::be64_bytes;
use crate::bytes::put_u32_be;
use crate::bytes::put_u64_be;
use crate::bytes::read_u32_be;
use crate::bytes::read_u64_be;
use crate::error::FormatError;
use crate::error::Result;
use crate::mp4::boxes::all_inside;
use crate::mp4::boxes::box_at;
use crate::mp4::boxes::box_view;
use crate::mp4::boxes::box_views;
use crate::mp4::boxes::boxes;
use crate::mp4::boxes::boxes_from;
use crate::mp4::boxes::child_boxes;
use crate::mp4::boxes::find_path;
use crate::mp4::boxes::kinds_view;
use crate::mp4::boxes::of_kind;
use crate::mp4::boxes::path_end;
use crate::mp4::boxes::path_from;
use crate::mp4::boxes::well_boxed;
use crate::mp4::boxes::BoxModel;
use crate::mp4::boxes::PathEnd;
use crate::mp4::boxes::CO64;
use crate::mp4::boxes::MDIA;
use crate::mp4::boxes::MINF;
use crate::mp4::boxes::STBL;
use crate::mp4::boxes::STCO;
use crate::mp4::boxes::TRAK;
use crate::mp4::structure::boxes_of;
use crate::mp4::structure::of_kind_inside;
use vstd::prelude::*;

verus! {

/// The chunk-offset table of a track, given its payload: where the table's box payload
/// starts, how long it is, and whether its entries have 64 bits. `None` where the boxes on
/// the way are unreadable, where there is neither `stco` nor `co64`, or where the table is
/// too short for its entry count.
pub open spec fn chunk_table(trak: Seq<u8>) -> Option<(int, int, bool)> {
    match path_end(trak, seq![MDIA@, MINF@, STBL@, STCO@]) {
        PathEnd::Broken => None,
        PathEnd::At(s, n) => if n < 8 {
            None
        } else {
            Some((s, n, false))
        },
        PathEnd::Nowhere => match path_end(trak, seq![MDIA@, MINF@, STBL@, CO64@]) {
            PathEnd::At(s, n) => if n < 8 {
                None
            } else {
                Some((s, n, true))
            },
            _ => None,
        },
    }
}

/// The chunk-offset table of a track.
pub(crate) fn find_chunk_table(trak: &[u8]) -> (r: Result<(usize, usize, bool)>)
    ensures
        match r {
            Ok((s, n, wide)) => chunk_table(trak@) == Some((s as int, n as int, wide)) && s + n
                <= trak@.len(),
            Err(e) => e == FormatError::Malformed && chunk_table(trak@) is None,
        },
{
    let narrow_path: [&[u8; 4]; 4] = [&MDIA, &MINF, &STBL, &STCO];
    assert(kinds_view(narrow_path@) =~= seq![MDIA@, MINF@, STBL@, STCO@]);
    let wide_path: [&[u8; 4]; 4] = [&MDIA, &MINF, &STBL, &CO64];
    assert(kinds_view(wide_path@) =~= seq![MDIA@, MINF@, STBL@, CO64@]);
    let (found, wide) = match find_path(trak, narrow_path.as_slice()) {
        Err(e) => {
            return Err(e);
        },
        Ok(Some(at)) => (at, false),
        Ok(None) => match find_path(trak, wide_path.as_slice()) {
            Err(e) => {
                return Err(e);
            },
            Ok(Some(at)) => (at, true),
            Ok(None) => {
                return Err(FormatError::Malformed);
            },
        },
    };
    if found.1 < 8 {
        return Err(FormatError::Malformed);
    }
    Ok((found.0, found.1, wide))
}

/// Where entry `i` of a table at `at` stands.
pub open spec fn entry_pos(at: int, i: int, wide: bool) -> int {
    at + 8 + if wide {
        8 * i
    } else {
        4 * i
    }
}

/// The chunk offset at `pos`.
pub open spec fn offset_at(d: Seq<u8>, pos: int, wide: bool) -> int {
    if wide {
        be64(d, pos)
    } else {
        be32(d, pos)
    }
}

/// `b` written over `d` at `pos`.
pub open spec fn overwritten(d: Seq<u8>, pos: int, b: Seq<u8>) -> Seq<u8> {
    d.take(pos) + b + d.skip(pos + b.len())
}

/// The outcome of moving chunk offsets.
pub ghost enum Patched {
    Malformed,
    TooLarge,
    Done(Seq<u8>),
}

/// The offset at `pos` moved by `delta`, in a table that ends at `end`.
pub open spec fn entry_patched(d: Seq<u8>, pos: int, end: int, wide: bool, delta: int) -> Patched {
    let v = offset_at(d, pos, wide) + delta;
    if wide {
        if pos + 8 > end || v < 0 || v > u64::MAX {
            Patched::Malformed
        } else {
            Patched::Done(overwritten(d, pos, be64_bytes(v)))
        }
    } else if pos + 4 > end {
        Patched::Malformed
    } else if v < 0 || v > u32::MAX {
        Patched::TooLarge
    } else {
        Patched::Done(overwritten(d, pos, be32_bytes(v)))
    }
}

/// The first `n` offsets of a table moved by `delta`.
pub open spec fn table_patched(
    d: Seq<u8>,
    at: int,
    end: int,
    wide: bool,
    delta: int,
    n: int,
) -> Patched
    decreases n,
{
    if n <= 0 {
        Patched::Done(d)
    } else {
        match table_patched(d, at, end, wide, delta, n - 1) {
            Patched::Done(x) => entry_patched(x, entry_pos(at, n - 1, wide), end, wide, delta),
            e => e,
        }
    }
}

/// The offsets of the track `b` of `orig` moved by `delta` in `d`.
pub open spec fn track_patched(d: Seq<u8>, orig: Seq<u8>, b: BoxModel, delta: int) -> Patched {
    match chunk_table(b.payload(orig)) {
        Some((s, n, wide)) => {
            let at = b.body() + s;
            table_patched(d, at, at + n, wide, delta, be32(orig, at + 4))
        },
        None => Patched::Malformed,
    }
}

/// The offsets of tracks of `orig` moved by `delta`, track after track.
pub open spec fn tracks_patched(orig: Seq<u8>, traks: Seq<BoxModel>, delta: int) -> Patched
    decreases traks.len(),
{
    if traks.len() == 0 {
        Patched::Done(orig)
    } else {
        match tracks_patched(orig, traks.drop_last(), delta) {
            Patched::Done(x) => track_patched(x, orig, traks.last(), delta),
            e => e,
        }
    }
}

/// Every chunk offset of every track in `kept` moved by `delta`. It takes a track at least.
pub open spec fn patched(kept: Seq<u8>, delta: int) -> Patched {
    let traks = of_kind(boxes(kept), TRAK@);
    if !well_boxed(kept) || traks.len() == 0 {
        Patched::Malformed
    } else {
        tracks_patched(kept, traks, delta)
    }
}

/// Tracks one of which cannot be patched spoil any longer list.
proof fn patch_fails_for_prefix(orig: Seq<u8>, traks: Seq<BoxModel>, delta: int, n: int)
    requires
        0 <= n <= traks.len(),
        !(tracks_patched(orig, traks.take(n), delta) is Done),
    ensures
        tracks_patched(orig, traks, delta) == tracks_patched(orig, traks.take(n), delta),
    decreases traks.len(),
{
    if n == traks.len() {
        assert(traks.take(n) =~= traks);
    } else {
        assert(traks.drop_last().take(n) =~= traks.take(n));
        patch_fails_for_prefix(orig, traks.drop_last(), delta, n);
    }
}

/// A table one of whose entries cannot be patched stays unpatched.
proof fn table_fails_for_prefix(
    d: Seq<u8>,
    at: int,
    end: int,
    wide: bool,
    delta: int,
    m: int,
    n: int,
)
    requires
        0 <= m <= n,
        !(table_patched(d, at, end, wide, delta, m) is Done),
    ensures
        table_patched(d, at, end, wide, delta, n) == table_patched(d, at, end, wide, delta, m),
    decreases n,
{
    if m < n {
        table_fails_for_prefix(d, at, end, wide, delta, m, n - 1);
    }
}

/// Move the offsets of one table.
#[verifier::spinoff_prover]
#[verifier::rlimit(60)]
fn patch_table(
    out: &mut Vec<u8>,
    at: usize,
    end: usize,
    wide: bool,
    count: u32,
    delta: i64,
) -> (r: Result<()>)
    requires
        at + 8 <= end <= old(out)@.len(),
    ensures
        final(out)@.len() == old(out)@.len(),
        match r {
            Ok(_) => table_patched(old(out)@, at as int, end as int, wide, delta as int, count as int)
                == Patched::Done(final(out)@),
            Err(FormatError::Malformed) => table_patched(
                old(out)@,
                at as int,
                end as int,
                wide,
                delta as int,
                count as int,
            ) is Malformed,
            Err(FormatError::TooLarge) => table_patched(
                old(out)@,
                at as int,
                end as int,
                wide,
                delta as int,
                count as int,
            ) is TooLarge,
            Err(_) => false,
        },
{
    let ghost d = out@;
    let width: usize = if wide {
        8
    } else {
        4
    };
    let mut pos: usize = at + 8;
    let mut i: u32 = 0;
    while i < count
        invariant
            i <= count,
            d == old(out)@,
            width == if wide {
                8int
            } else {
                4
            },
            out@.len() == d.len(),
            at + 8 <= pos <= end <= d.len(),
            pos == entry_pos(at as int, i as int, wide),
            table_patched(d, at as int, end as int, wide, delta as int, i as int) == Patched::Done(
                out@,
            ),
        decreases count - i,
    {
        let ghost x = out@;
        let ghost step = entry_patched(x, pos as int, end as int, wide, delta as int);
        assert(table_patched(d, at as int, end as int, wide, delta as int, i + 1) == step);
        proof {
            if !(step is Done) {
                table_fails_for_prefix(
                    d,
                    at as int,
                    end as int,
                    wide,
                    delta as int,
                    i + 1,
                    count as int,
                );
            }
        }
        if end - pos < width {
            return Err(FormatError::Malformed);
        }
        if wide {
            let v = match read_u64_be(out.as_slice(), pos) {
                Ok(v) => v,
                Err(e) => {
                    return Err(e);
                },
            };
            let moved: i128 = v as i128 + delta as i128;
            if moved < 0 || moved > 0xffff_ffff_ffff_ffff {
                return Err(FormatError::Malformed);
            }
            put_u64_be(out, pos, moved as u64);
        } else {
            let v = match read_u32_be(out.as_slice(), pos) {
                Ok(v) => v,
                Err(e) => {
                    return Err(e);
                },
            };
            let moved: i128 = v as i128 + delta as i128;
            if moved < 0 || moved > 0xffff_ffff {
                return Err(FormatError::TooLarge);
            }
            put_u32_be(out, pos, moved as u32);
        }
        assert(step matches Patched::Done(y) && out@ =~= y);
        pos = pos + width;
        i = i + 1;
    }
    Ok(())
}

/// Patch every `stco` (4-byte) or `co64` (8-byte) chunk offset of every track in `kept`
/// (moov children minus udta) by `delta`. Errors if an offset would leave its range, if a
/// table is cut short, or if a track has no table: a track left unpatched is corruption. On
/// an error `kept` is unchanged.
pub fn patch_chunk_offsets(kept: &mut Vec<u8>, delta: i64) -> (r: Result<()>)
    ensures
        match r {
            Ok(_) => patched(old(kept)@, delta as int) == Patched::Done(final(kept)@),
            Err(FormatError::Malformed) => patched(old(kept)@, delta as int) is Malformed
                && *final(kept) == *old(kept),
            Err(FormatError::TooLarge) => patched(old(kept)@, delta as int) is TooLarge
                && *final(kept) == *old(kept),
            Err(_) => false,
        },
{
    let ghost orig = kept@;
    let list = match child_boxes(kept.as_slice()) {
        Ok(v) => v,
        Err(e) => {
            return Err(e);
        },
    };
    let traks = boxes_of(&list, &TRAK);
    let ghost all = of_kind(boxes(orig), TRAK@);
    assert(traks@.len() == box_views(traks@).len());
    if traks.len() == 0 {
        return Err(FormatError::Malformed);
    }
    proof {
        of_kind_inside(boxes(orig), orig, TRAK@);
    }
    let mut out: Vec<u8> = crate::bytes::copy_range(kept.as_slice(), 0, kept.len());
    assert(out@ =~= orig);
    let n: usize = kept.len();
    let mut i: usize = 0;
    assert(all.take(0) =~= Seq::empty());
    while i < traks.len()
        invariant
            *kept == *old(kept),
            orig == kept@,
            n == orig.len(),
            well_boxed(orig),
            all == of_kind(boxes(orig), TRAK@),
            all == box_views(traks@),
            all.len() > 0,
            all_inside(all, orig),
            i <= traks@.len(),
            out@.len() == orig.len(),
            tracks_patched(orig, all.take(i as int), delta as int) == Patched::Done(out@),
        decreases traks@.len() - i,
    {
        assert(all.take(i + 1).drop_last() =~= all.take(i as int));
        let b = traks[i];
        assert(all[i as int] == box_view(b));
        assert(all[i as int].inside(orig));
        assert(all.take(i + 1).last() == box_view(b));
        proof {
            if !(tracks_patched(orig, all.take(i + 1), delta as int) is Done) {
                patch_fails_for_prefix(orig, all, delta as int, i + 1);
            }
        }
        let (s, len, wide) = match find_chunk_table(b.payload(kept.as_slice())) {
            Ok(t) => t,
            Err(e) => {
                return Err(e);
            },
        };
        assert(b.start + b.total_len <= n);
        let at: usize = b.payload_start() + s;
        let count = match read_u32_be(kept.as_slice(), at + 4) {
            Ok(c) => c,
            Err(e) => {
                return Err(e);
            },
        };
        match patch_table(&mut out, at, at + len, wide, count, delta) {
            Ok(_) => {},
            Err(e) => {
                return Err(e);
            },
        }
        i = i + 1;
    }
    assert(all.take(i as int) =~= all);
    *kept = out;
    Ok(())
}

/// Boxes that follow each other do not overlap.
pub open spec fn ordered(s: Seq<BoxModel>) -> bool {
    forall|i: int, j: int|
        0 <= i < j < s.len() ==> (#[trigger] s[i]).end() <= (#[trigger] s[j]).start
}

/// A run of boxes is ordered, and starts where it starts.
pub proof fn run_is_ordered(d: Seq<u8>, p: int)
    requires
        0 <= p,
    ensures
        ordered(boxes_from(d, p)),
        forall|i: int| 0 <= i < boxes_from(d, p).len() ==> p <= (#[trigger] boxes_from(d, p)[i]).start,
    decreases d.len() - p,
{
    match box_at(d, p) {
        Some(b) if b.total > 0 => {
            run_is_ordered(d, b.end());
            let rest = boxes_from(d, b.end());
            let s = boxes_from(d, p);
            assert forall|i: int| 0 <= i < s.len() implies p <= (#[trigger] s[i]).start by {
                if i > 0 {
                    assert(s[i] == rest[i - 1]);
                }
            }
            assert forall|i: int, j: int| 0 <= i < j < s.len() implies (#[trigger] s[i]).end()
                <= (#[trigger] s[j]).start by {
                assert(s[j] == rest[j - 1]);
                if i > 0 {
                    assert(s[i] == rest[i - 1]);
                }
            }
        },
        _ => {},
    }
}

/// The boxes of one type among ordered boxes are ordered.
pub(crate) proof fn of_kind_is_ordered(s: Seq<BoxModel>, kind: Seq<u8>, bound: int)
    requires
        ordered(s),
        forall|i: int| 0 <= i < s.len() ==> (#[trigger] s[i]).start <= s[i].end() <= bound,
    ensures
        ordered(of_kind(s, kind)),
        forall|i: int|
            0 <= i < of_kind(s, kind).len() ==> (#[trigger] of_kind(s, kind)[i]).end() <= bound,
    decreases s.len(),
{
    if s.len() > 0 {
        let front = s.drop_last();
        assert(s[s.len() - 1] == s.last());
        assert forall|i: int| 0 <= i < front.len() implies (#[trigger] front[i]).start
            <= front[i].end() <= s.last().start by {
            assert(front[i] == s[i]);
        }
        assert(ordered(front)) by {
            assert forall|i: int, j: int| 0 <= i < j < front.len() implies (#[trigger] front[i]).end()
                <= (#[trigger] front[j]).start by {
                assert(front[i] == s[i] && front[j] == s[j]);
            }
        }
        of_kind_is_ordered(front, kind, s.last().start);
    }
}

/// A box header among ordered boxes lies in the payload of none of them.
pub proof fn header_is_outside(s: Seq<BoxModel>, kind: Seq<u8>, i: int, q: int)
    requires
        ordered(s),
        forall|j: int| 0 <= j < s.len() ==> (#[trigger] s[j]).start <= s[j].body() <= s[j].end(),
        0 <= i < s.len(),
        s[i].start <= q < s[i].body(),
    ensures
        outside(of_kind(s, kind), q),
{
    assert forall|k: int| 0 <= k < of_kind(s, kind).len() implies q < (#[trigger] of_kind(
        s,
        kind,
    )[k]).body() || q >= of_kind(s, kind)[k].end() by {
        of_kind_members(s, kind, k);
        let j = choose|j: int| 0 <= j < s.len() && s[j] == of_kind(s, kind)[k];
        assert(s[j].start <= s[j].body() <= s[j].end());
        if j < i {
            assert(s[j].end() <= s[i].start);
        } else if i < j {
            assert(s[i].end() <= s[j].start);
            assert(s[i].body() <= s[i].end());
        }
    }
}

/// The boxes of one type are among the boxes.
proof fn of_kind_members(s: Seq<BoxModel>, kind: Seq<u8>, k: int)
    requires
        0 <= k < of_kind(s, kind).len(),
    ensures
        exists|j: int| 0 <= j < s.len() && s[j] == of_kind(s, kind)[k],
    decreases s.len(),
{
    let front = s.drop_last();
    let before = of_kind(front, kind);
    if k < before.len() {
        of_kind_members(front, kind, k);
        let j = choose|j: int| 0 <= j < front.len() && front[j] == before[k];
        assert(s[j] == of_kind(s, kind)[k]);
    } else {
        assert(s[s.len() - 1] == of_kind(s, kind)[k]);
    }
}

/// A table patched keeps its length; what lies outside its entries stays, and each entry is
/// moved by `delta`.
#[verifier::spinoff_prover]
#[verifier::rlimit(60)]
pub(crate) proof fn table_moves(d: Seq<u8>, at: int, end: int, wide: bool, delta: int, n: int, x: Seq<u8>)
    requires
        0 <= at,
        at + 8 <= end <= d.len(),
        0 <= n,
        table_patched(d, at, end, wide, delta, n) == Patched::Done(x),
    ensures
        x.len() == d.len(),
        entry_pos(at, n, wide) <= end,
        forall|p: int|
            0 <= p < d.len() && (p < at + 8 || p >= entry_pos(at, n, wide)) ==> #[trigger] x[p]
                == d[p],
        forall|i: int|
            0 <= i < n ==> #[trigger] offset_at(x, entry_pos(at, i, wide), wide) == offset_at(
                d,
                entry_pos(at, i, wide),
                wide,
            ) + delta,
    decreases n,
{
    if n > 0 {
        match table_patched(d, at, end, wide, delta, n - 1) {
            Patched::Done(y) => {
                table_moves(d, at, end, wide, delta, n - 1, y);
                let pos = entry_pos(at, n - 1, wide);
                let v = offset_at(y, pos, wide) + delta;
                if wide {
                    crate::bytes::be64_round_trip(v);
                    let b = be64_bytes(v);
                    assert(x == overwritten(y, pos, b));
                    assert(be64(x, pos) == be64(b, 0)) by {
                        assert forall|k: int| 0 <= k < 8 implies x[pos + k] == b[k] by {}
                        assert(x[pos] == b[0] && x[pos + 1] == b[1] && x[pos + 2] == b[2] && x[pos
                            + 3] == b[3] && x[pos + 4] == b[4] && x[pos + 5] == b[5] && x[pos + 6]
                            == b[6] && x[pos + 7] == b[7]);
                    }
                } else {
                    crate::bytes::be32_round_trip(v);
                    let b = be32_bytes(v);
                    assert(x == overwritten(y, pos, b));
                    assert(x[pos] == b[0] && x[pos + 1] == b[1] && x[pos + 2] == b[2] && x[pos + 3]
                        == b[3]);
                }
                assert(offset_at(y, pos, wide) == offset_at(d, pos, wide));
                assert forall|i: int| 0 <= i < n implies #[trigger] offset_at(
                    x,
                    entry_pos(at, i, wide),
                    wide,
                ) == offset_at(d, entry_pos(at, i, wide), wide) + delta by {
                    let q = entry_pos(at, i, wide);
                    if i < n - 1 {
                        assert(offset_at(x, q, wide) == offset_at(y, q, wide));
                    }
                }
            },
            _ => {},
        }
    }
}

/// Every chunk offset of the track `b` of `orig` is in `x` what it was, moved by `delta`, and
/// they all lie in the track's table.
pub open spec fn track_moved(orig: Seq<u8>, x: Seq<u8>, b: BoxModel, delta: int) -> bool {
    match chunk_table(b.payload(orig)) {
        Some((s, n, wide)) => {
            let at = b.body() + s;
            &&& entry_pos(at, be32(orig, at + 4), wide) <= at + n
            &&& forall|i: int|
                0 <= i < be32(orig, at + 4) ==> #[trigger] offset_at(
                    x,
                    entry_pos(at, i, wide),
                    wide,
                ) == offset_at(orig, entry_pos(at, i, wide), wide) + delta
        },
        None => false,
    }
}

/// `p` lies in the payload of none of the boxes.
pub open spec fn outside(s: Seq<BoxModel>, p: int) -> bool {
    forall|k: int| 0 <= k < s.len() ==> p < (#[trigger] s[k]).body() || p >= s[k].end()
}

/// A path leads to a payload inside the region it is searched in.
pub proof fn path_stays_inside(d: Seq<u8>, base: int, path: Seq<Seq<u8>>, at: PathEnd)
    requires
        path.len() > 0,
    ensures
        match path_from(d, base, path, at) {
            PathEnd::At(s, n) => base <= s && 0 <= n && s + n <= base + d.len(),
            _ => true,
        },
    decreases path.len(),
{
    crate::mp4::boxes::boxes_lie_inside(d, 0);
    first_is_inside(boxes(d), path[0], d);
    match crate::mp4::boxes::first_of(boxes(d), path[0]) {
        Some(b) => {
            if path.len() > 1 {
                path_stays_inside(
                    b.payload(d),
                    base + b.body(),
                    path.drop_first(),
                    PathEnd::At(base + b.body(), b.total - b.header),
                );
            }
        },
        None => {},
    }
}

/// The first box of a type among boxes of `d` lies in `d`.
pub proof fn first_is_inside(s: Seq<BoxModel>, kind: Seq<u8>, d: Seq<u8>)
    requires
        all_inside(s, d),
    ensures
        match crate::mp4::boxes::first_of(s, kind) {
            Some(b) => b.inside(d) && b.kind == kind,
            None => true,
        },
    decreases s.len(),
{
    if s.len() > 0 {
        assert(s[0].inside(d));
        let rest = s.drop_first();
        assert forall|i: int| 0 <= i < rest.len() implies (#[trigger] rest[i]).inside(d) by {
            assert(rest[i] == s[i + 1]);
        }
        first_is_inside(rest, kind, d);
    }
}

/// A chunk-offset table lies inside its track.
pub proof fn table_is_inside(trak: Seq<u8>)
    ensures
        match chunk_table(trak) {
            Some((s, n, _)) => 0 <= s && 8 <= n && s + n <= trak.len(),
            None => true,
        },
{
    path_stays_inside(trak, 0, seq![MDIA@, MINF@, STBL@, STCO@], PathEnd::Nowhere);
    path_stays_inside(trak, 0, seq![MDIA@, MINF@, STBL@, CO64@], PathEnd::Nowhere);
}

/// What a patched track leaves alone: everything outside its table's entries.
pub(crate) proof fn track_moves(d: Seq<u8>, orig: Seq<u8>, b: BoxModel, delta: int, x: Seq<u8>)
    requires
        d.len() == orig.len(),
        b.inside(orig),
        forall|p: int| b.start <= p < b.end() ==> d[p] == orig[p],
        track_patched(d, orig, b, delta) == Patched::Done(x),
    ensures
        x.len() == orig.len(),
        track_moved(orig, x, b, delta),
        forall|p: int| 0 <= p < d.len() && off_table(orig, b, p) ==> #[trigger] x[p] == d[p],
{
    let t = b.payload(orig);
    table_is_inside(t);
    match chunk_table(t) {
        Some((s, n, wide)) => {
            let at = b.body() + s;
            let count = be32(orig, at + 4);
            table_moves(d, at, at + n, wide, delta, count, x);
            assert forall|i: int| 0 <= i < count implies #[trigger] offset_at(
                x,
                entry_pos(at, i, wide),
                wide,
            ) == offset_at(orig, entry_pos(at, i, wide), wide) + delta by {
                let q = entry_pos(at, i, wide);
                assert(offset_at(d, q, wide) == offset_at(orig, q, wide));
            }
        },
        None => {},
    }
}

/// `p` lies outside the entries of the chunk-offset table of the track `b` of `orig`.
pub open spec fn off_table(orig: Seq<u8>, b: BoxModel, p: int) -> bool {
    match chunk_table(b.payload(orig)) {
        Some((s, n, _)) => p < b.body() + s + 8 || p >= b.body() + s + n,
        None => true,
    }
}

/// `p` lies outside the entries of the chunk-offset tables of all tracks.
pub open spec fn off_tables(orig: Seq<u8>, traks: Seq<BoxModel>, p: int) -> bool {
    forall|k: int| 0 <= k < traks.len() ==> off_table(orig, #[trigger] traks[k], p)
}

/// What lies outside the payloads of the tracks lies outside their tables.
pub proof fn outside_is_off_tables(orig: Seq<u8>, traks: Seq<BoxModel>, p: int)
    requires
        all_inside(traks, orig),
        outside(traks, p),
    ensures
        off_tables(orig, traks, p),
{
    assert forall|k: int| 0 <= k < traks.len() implies off_table(orig, #[trigger] traks[k], p) by {
        let b = traks[k];
        assert(b.inside(orig));
        table_is_inside(b.payload(orig));
    }
}

/// All but the last of ordered boxes of `d`.
pub(crate) proof fn front_is_ordered(s: Seq<BoxModel>, d: Seq<u8>)
    requires
        s.len() > 0,
        all_inside(s, d),
        ordered(s),
    ensures
        all_inside(s.drop_last(), d),
        ordered(s.drop_last()),
        s.last().inside(d),
        forall|p: int| p >= s.last().start ==> outside(s.drop_last(), p),
{
    let front = s.drop_last();
    assert(s[s.len() - 1] == s.last());
    assert forall|i: int| 0 <= i < front.len() implies (#[trigger] front[i]).inside(d) by {
        assert(front[i] == s[i]);
    }
    assert forall|i: int, j: int| 0 <= i < j < front.len() implies (#[trigger] front[i]).end() <= (
    #[trigger] front[j]).start by {
        assert(front[i] == s[i] && front[j] == s[j]);
    }
    assert forall|p: int| p >= s.last().start implies outside(front, p) by {
        assert forall|k: int| 0 <= k < front.len() implies p < (#[trigger] front[k]).body() || p
            >= front[k].end() by {
            assert(front[k] == s[k]);
        }
    }
}

/// Patched tracks leave alone what lies outside their tables.
pub(crate) proof fn tracks_keep(orig: Seq<u8>, traks: Seq<BoxModel>, delta: int, x: Seq<u8>)
    requires
        all_inside(traks, orig),
        ordered(traks),
        tracks_patched(orig, traks, delta) == Patched::Done(x),
    ensures
        x.len() == orig.len(),
        forall|p: int|
            0 <= p < orig.len() && off_tables(orig, traks, p) ==> #[trigger] x[p] == orig[p],
    decreases traks.len(),
{
    if traks.len() > 0 {
        let front = traks.drop_last();
        let b = traks.last();
        front_is_ordered(traks, orig);
        match tracks_patched(orig, front, delta) {
            Patched::Done(y) => {
                tracks_keep(orig, front, delta, y);
                assert forall|p: int| b.start <= p < b.end() implies y[p] == orig[p] by {
                    assert(outside(front, p));
                    outside_is_off_tables(orig, front, p);
                }
                track_moves(y, orig, b, delta, x);
                assert forall|p: int| 0 <= p < orig.len() && off_tables(orig, traks, p) implies
                    #[trigger] x[p] == orig[p] by {
                    assert(off_table(orig, traks[traks.len() - 1], p));
                    assert(x[p] == y[p]);
                    assert(off_tables(orig, front, p)) by {
                        assert forall|k: int| 0 <= k < front.len() implies off_table(
                            orig,
                            #[trigger] front[k],
                            p,
                        ) by {
                            assert(front[k] == traks[k]);
                        }
                    }
                }
            },
            _ => {},
        }
    }
}

/// Patched tracks have every offset moved.
proof fn tracks_move(orig: Seq<u8>, traks: Seq<BoxModel>, delta: int, x: Seq<u8>)
    requires
        all_inside(traks, orig),
        ordered(traks),
        tracks_patched(orig, traks, delta) == Patched::Done(x),
    ensures
        forall|k: int| 0 <= k < traks.len() ==> track_moved(orig, x, #[trigger] traks[k], delta),
    decreases traks.len(),
{
    if traks.len() > 0 {
        let front = traks.drop_last();
        let b = traks.last();
        front_is_ordered(traks, orig);
        match tracks_patched(orig, front, delta) {
            Patched::Done(y) => {
                tracks_keep(orig, front, delta, y);
                tracks_move(orig, front, delta, y);
                assert forall|p: int| b.start <= p < b.end() implies y[p] == orig[p] by {
                    assert(outside(front, p));
                    outside_is_off_tables(orig, front, p);
                }
                track_moves(y, orig, b, delta, x);
                assert(traks[traks.len() - 1] == b);
                assert forall|k: int| 0 <= k < traks.len() implies track_moved(
                    orig,
                    x,
                    #[trigger] traks[k],
                    delta,
                ) by {
                    if k < front.len() {
                        let c = traks[k];
                        assert(front[k] == c);
                        table_is_inside(b.payload(orig));
                        assert forall|p: int| 0 <= p < c.end() implies x[p] == y[p] by {
                            assert(c.end() <= b.start);
                            assert(off_table(orig, b, p));
                        }
                        moved_stays(orig, y, x, c, delta);
                    } else {
                        assert(traks[k] == b);
                    }
                }
            },
            _ => {},
        }
    }
}

/// A track whose bytes do not change stays moved.
proof fn moved_stays(orig: Seq<u8>, y: Seq<u8>, x: Seq<u8>, c: BoxModel, delta: int)
    requires
        c.inside(orig),
        y.len() == orig.len(),
        x.len() == orig.len(),
        track_moved(orig, y, c, delta),
        forall|p: int| 0 <= p < c.end() ==> x[p] == y[p],
    ensures
        track_moved(orig, x, c, delta),
{
    table_is_inside(c.payload(orig));
    match chunk_table(c.payload(orig)) {
        Some((s, n, wide)) => {
            let at = c.body() + s;
            assert forall|i: int| 0 <= i < be32(orig, at + 4) implies #[trigger] offset_at(
                x,
                entry_pos(at, i, wide),
                wide,
            ) == offset_at(orig, entry_pos(at, i, wide), wide) + delta by {
                let q = entry_pos(at, i, wide);
                assert(offset_at(y, q, wide) == offset_at(orig, q, wide) + delta);
                assert(entry_pos(at, i + 1, wide) <= entry_pos(at, be32(orig, at + 4), wide));
            }
        },
        None => {},
    }
}

/// Patching moves every chunk offset of every track by the same amount, and changes nothing
/// outside the entries of the chunk-offset tables.
pub proof fn every_chunk_offset_moves(kept: Seq<u8>, delta: int, x: Seq<u8>)
    requires
        patched(kept, delta) == Patched::Done(x),
    ensures
        x.len() == kept.len(),
        forall|k: int|
            0 <= k < of_kind(boxes(kept), TRAK@).len() ==> track_moved(
                kept,
                x,
                #[trigger] of_kind(boxes(kept), TRAK@)[k],
                delta,
            ),
        forall|p: int|
            0 <= p < kept.len() && off_tables(kept, of_kind(boxes(kept), TRAK@), p)
                ==> #[trigger] x[p] == kept[p],
{
    let s = boxes(kept);
    run_is_ordered(kept, 0);
    crate::mp4::boxes::boxes_lie_inside(kept, 0);
    assert forall|i: int| 0 <= i < s.len() implies (#[trigger] s[i]).start <= s[i].end()
        <= kept.len() by {
        assert(s[i].inside(kept));
    }
    of_kind_is_ordered(s, TRAK@, kept.len() as int);
    of_kind_inside(s, kept, TRAK@);
    tracks_keep(kept, of_kind(s, TRAK@), delta, x);
    tracks_move(kept, of_kind(s, TRAK@), delta, x);
}

} // verus!
