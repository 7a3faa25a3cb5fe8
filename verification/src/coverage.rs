//! The check that a layout serves the backing audio whole.

use crate::layout::audio_once_at_end;
use crate::layout::header_bytes;
use crate::layout::is_audio;
use crate::layout::saturated;
use crate::layout::seg_view;
use crate::layout::seg_views;
use crate::layout::total_bytes;
use crate::layout::total_is_header_plus_audio;
use crate::layout::RegionLayout;
use crate::layout::SegView;
use crate::layout::Segment;
use vstd::prelude::*;

verus! {

/// How far a run of backing audio has come.
pub ghost enum Run {
    /// No audio yet.
    Before,
    /// The run goes on, up to this offset in the backing file.
    Open(int),
    /// The run has ended, at this offset in the backing file.
    Closed(int),
    /// Audio is not contiguous, or comes after the run has ended.
    Broken,
}

/// The run of backing audio that should begin at `offset`.
pub open spec fn audio_run(segs: Seq<SegView>, offset: int) -> Run
    decreases segs.len(),
{
    if segs.len() == 0 {
        Run::Before
    } else {
        let before = audio_run(segs.drop_last(), offset);
        match segs.last() {
            SegView::BackingAudio { offset: o, len } => run_joined(before, offset, o, len),
            SegView::OggAudio { offset: o, len, .. } => run_joined(before, offset, o, len),
            _ => match before {
                Run::Open(e) => Run::Closed(e),
                r => r,
            },
        }
    }
}

/// A run followed by `len` bytes of audio from `o` on.
pub open spec fn run_joined(r: Run, offset: int, o: int, len: int) -> Run {
    match r {
        Run::Before => if o == offset {
            Run::Open(o + len)
        } else {
            Run::Broken
        },
        Run::Open(e) => if o == e {
            Run::Open(e + len)
        } else {
            Run::Broken
        },
        _ => Run::Broken,
    }
}

/// The layout serves the backing audio range `[offset, offset + len)` exactly once,
/// contiguously, with no backing-audio run split by another segment, and the served length
/// is the length of the other segments plus `len`.
pub open spec fn covers_audio(segs: Seq<SegView>, offset: int, len: int) -> bool {
    &&& match audio_run(segs, offset) {
        Run::Open(e) => e == offset + len,
        Run::Closed(e) => e == offset + len,
        _ => false,
    }
    &&& saturated(total_bytes(segs)) == saturated(header_bytes(segs)) + len
}

/// Does the layout serve the backing audio range
/// `[audio_offset, audio_offset + audio_length)` exactly once, contiguously,
/// with no backing-audio run split by a non-audio segment, and is the served
/// length `header_len + audio_length`? Non-audio segments may precede or follow the
/// contiguous backing run; what is forbidden is a non-audio segment that interrupts the run
/// (which would corrupt the served audio).
pub fn backing_covers_audio(audio_offset: u64, audio_length: u64, layout: &RegionLayout) -> (r:
    bool)
    ensures
        r == covers_audio(layout.views(), audio_offset as int, audio_length as int),
{
    let segs = layout.segments();
    let ghost all = layout.views();
    let start: u128 = audio_offset as u128;
    let mut seen = false;
    let mut ended = false;
    let mut broken = false;
    let mut end: u128 = start;
    let mut i: usize = 0;
    assert(all.take(0) =~= Seq::empty());
    while i < segs.len()
        invariant
            all == seg_views(segs@),
            i <= segs@.len(),
            start == audio_offset,
            end <= 0x1_ffff_ffff_ffff_fffe,
            !seen ==> end == start && !ended,
            audio_run(all.take(i as int), audio_offset as int) == if broken {
                Run::Broken
            } else if !seen {
                Run::Before
            } else if ended {
                Run::Closed(end as int)
            } else {
                Run::Open(end as int)
            },
        decreases segs@.len() - i,
    {
        assert(all.take(i + 1).drop_last() =~= all.take(i as int));
        assert(all.take(i + 1).last() == seg_view(segs@[i as int]));
        let run: Option<(u64, u64)> = match &segs[i] {
            Segment::BackingAudio { offset, len } => Some((*offset, *len)),
            Segment::OggAudio { offset, len, .. } => Some((*offset, *len)),
            _ => None,
        };
        match run {
            Some((o, n)) => {
                if ended || o as u128 != end {
                    broken = true;
                } else if !broken {
                    end = end + n as u128;
                    seen = true;
                }
            },
            None => {
                if seen {
                    ended = true;
                }
            },
        }
        i = i + 1;
    }
    assert(all.take(i as int) =~= all);
    !broken && seen && end == start + audio_length as u128 && layout.total_len() as u128
        == layout.header_len() as u128 + audio_length as u128
}

/// A layout that serves the audio once, last, and within the size limit covers it.
pub proof fn audio_once_at_end_covers(segs: Seq<SegView>, offset: int, len: int)
    requires
        audio_once_at_end(segs, offset, len),
        0 <= header_bytes(segs),
        0 <= len,
        total_bytes(segs) <= u64::MAX,
    ensures
        covers_audio(segs, offset, len),
{
    let front = segs.drop_last();
    assert forall|i: int| 0 <= i < front.len() implies !is_audio(#[trigger] front[i]) by {
        assert(front[i] == segs[i]);
    }
    no_run_without_audio(front, offset);
    total_is_header_plus_audio(segs);
}

proof fn no_run_without_audio(segs: Seq<SegView>, offset: int)
    requires
        forall|i: int| 0 <= i < segs.len() ==> !is_audio(#[trigger] segs[i]),
    ensures
        audio_run(segs, offset) is Before,
        crate::layout::audio_bytes(segs) == 0,
    decreases segs.len(),
{
    if segs.len() > 0 {
        assert(!is_audio(segs[segs.len() - 1]));
        let front = segs.drop_last();
        assert forall|i: int| 0 <= i < front.len() implies !is_audio(#[trigger] front[i]) by {
            assert(front[i] == segs[i]);
        }
        no_run_without_audio(front, offset);
    }
}

} // verus!
