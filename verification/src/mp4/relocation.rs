//! The chunk offsets of a movie, read out track by track.

use crate::bytes::be32;
use crate::bytes::read_u32_be;
use crate::bytes::read_u64_be;
use crate::error::FormatError;
use crate::error::Result;
use crate::mp4::boxes::box_at;
use crate::mp4::boxes::child_boxes;
use crate::mp4::boxes::child_payloads;
use crate::mp4::boxes::payloads;
use crate::mp4::boxes::slice_views;
use crate::mp4::boxes::read_box;
use crate::mp4::boxes::well_boxed;
use crate::mp4::boxes::TRAK;
use crate::mp4::offsets::chunk_table;
use crate::mp4::offsets::entry_pos;
use crate::mp4::offsets::find_chunk_table;
use crate::mp4::offsets::offset_at;
use vstd::prelude::*;

verus! {

/// The chunk offsets of a track, given its payload; `None` where it has no readable table, or
/// one too short for its entries.
pub open spec fn track_offsets(trak: Seq<u8>) -> Option<Seq<int>> {
    match chunk_table(trak) {
        Some((s, n, wide)) => {
            let count = be32(trak, s + 4);
            if entry_pos(s, count, wide) <= s + n {
                Some(Seq::new(count as nat, |i: int| offset_at(trak, entry_pos(s, i, wide), wide)))
            } else {
                None
            }
        },
        None => None,
    }
}

/// The chunk offsets of tracks; `None` where those of one cannot be read.
pub open spec fn tracks_offsets(traks: Seq<Seq<u8>>) -> Option<Seq<Seq<int>>>
    decreases traks.len(),
{
    if traks.len() == 0 {
        Some(Seq::empty())
    } else {
        match (tracks_offsets(traks.drop_last()), track_offsets(traks.last())) {
            (Some(before), Some(t)) => Some(before.push(t)),
            _ => None,
        }
    }
}

/// The chunk offsets of every track of a movie, given its payload.
pub open spec fn movie_offsets(movie: Seq<u8>) -> Option<Seq<Seq<int>>> {
    if well_boxed(movie) {
        tracks_offsets(payloads(movie, TRAK@))
    } else {
        None
    }
}

/// The chunk offsets of every track of a whole `moov` box.
pub open spec fn moov_offsets(moov: Seq<u8>) -> Option<Seq<Seq<int>>> {
    match box_at(moov, 0) {
        Some(b) => movie_offsets(b.payload(moov)),
        None => None,
    }
}

/// Offsets as mathematical values.
pub open spec fn offset_values(s: Seq<u64>) -> Seq<int> {
    Seq::new(s.len(), |i: int| s[i] as int)
}

/// Offsets of several tracks as mathematical values.
pub open spec fn offset_lists(s: Seq<Vec<u64>>) -> Seq<Seq<int>> {
    Seq::new(s.len(), |i: int| offset_values(s[i]@))
}

/// A track whose offsets cannot be read spoils any longer list.
proof fn unreadable_for_prefix(traks: Seq<Seq<u8>>, n: int)
    requires
        0 <= n <= traks.len(),
        tracks_offsets(traks.take(n)) is None,
    ensures
        tracks_offsets(traks) is None,
    decreases traks.len(),
{
    if n == traks.len() {
        assert(traks.take(n) =~= traks);
    } else {
        assert(traks.drop_last().take(n) =~= traks.take(n));
        unreadable_for_prefix(traks.drop_last(), n);
    }
}

/// The chunk offsets of a track.
fn read_track_offsets(trak: &[u8]) -> (r: Result<Vec<u64>>)
    ensures
        match r {
            Ok(v) => track_offsets(trak@) == Some(offset_values(v@)),
            Err(e) => e == FormatError::Malformed && track_offsets(trak@) is None,
        },
{
    let (s, len, wide) = match find_chunk_table(trak) {
        Ok(t) => t,
        Err(e) => {
            return Err(e);
        },
    };
    let n: usize = trak.len();
    assert(s + 8 <= s + len <= n);
    let count = match read_u32_be(trak, s + 4) {
        Ok(c) => c,
        Err(e) => {
            return Err(e);
        },
    };
    let width: usize = if wide {
        8
    } else {
        4
    };
    let needed: u64 = if wide {
        count as u64 * 8
    } else {
        count as u64 * 4
    };
    if needed > (len - 8) as u64 {
        return Err(FormatError::Malformed);
    }
    let mut out: Vec<u64> = Vec::new();
    let mut i: u32 = 0;
    let mut pos: usize = s + 8;
    while i < count
        invariant
            i <= count,
            s + len <= n == trak@.len(),
            8 <= len,
            width == if wide {
                8int
            } else {
                4
            },
            count * width <= len - 8,
            pos == entry_pos(s as int, i as int, wide),
            out@.len() == i,
            forall|k: int|
                0 <= k < i ==> #[trigger] out@[k] == offset_at(
                    trak@,
                    entry_pos(s as int, k, wide),
                    wide,
                ),
        decreases count - i,
    {
        assert(i * width + width <= count * width) by (nonlinear_arith)
            requires
                i + 1 <= count,
                0 <= width,
        ;
        assert(pos + width <= s + len);
        let v: u64 = if wide {
            match read_u64_be(trak, pos) {
                Ok(v) => v,
                Err(e) => {
                    return Err(e);
                },
            }
        } else {
            match read_u32_be(trak, pos) {
                Ok(v) => v as u64,
                Err(e) => {
                    return Err(e);
                },
            }
        };
        out.push(v);
        pos = pos + width;
        i = i + 1;
    }
    assert(offset_values(out@) =~= track_offsets(trak@)->0);
    Ok(out)
}

/// Every track's chunk offsets, in track order, from a whole `moov` box: the
/// `stco` entries widened, or the `co64` ones.
pub fn chunk_offsets(moov: &[u8]) -> (r: Result<Vec<Vec<u64>>>)
    ensures
        match r {
            Ok(v) => moov_offsets(moov@) == Some(offset_lists(v@)),
            Err(e) => e == FormatError::Malformed && moov_offsets(moov@) is None,
        },
{
    let whole = match read_box(moov, 0) {
        Ok(b) => b,
        Err(e) => {
            return Err(e);
        },
    };
    let movie = whole.payload(moov);
    if child_boxes(movie).is_err() {
        return Err(FormatError::Malformed);
    }
    let traks = child_payloads(movie, &TRAK);
    let ghost all = payloads(movie@, TRAK@);
    let mut out: Vec<Vec<u64>> = Vec::new();
    let mut i: usize = 0;
    assert(all.take(0) =~= Seq::empty());
    assert(offset_lists(out@) =~= Seq::empty());
    while i < traks.len()
        invariant
            all == slice_views(traks@),
            moov_offsets(moov@) == tracks_offsets(all),
            i <= traks@.len(),
            tracks_offsets(all.take(i as int)) == Some(offset_lists(out@)),
        decreases traks@.len() - i,
    {
        assert(all.take(i + 1).drop_last() =~= all.take(i as int));
        assert(all.take(i + 1).last() == traks@[i as int]@);
        proof {
            if tracks_offsets(all.take(i + 1)) is None {
                unreadable_for_prefix(all, i + 1);
            }
        }
        let ghost before = offset_lists(out@);
        match read_track_offsets(traks[i]) {
            Ok(t) => {
                let ghost values = offset_values(t@);
                out.push(t);
                assert(offset_lists(out@) =~= before.push(values));
            },
            Err(e) => {
                return Err(e);
            },
        }
        i = i + 1;
    }
    assert(all.take(i as int) =~= all);
    Ok(out)
}

} // verus!
