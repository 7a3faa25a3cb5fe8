//! Layouts segment by segment: what one more adds, when it is at fault, and when the audio is
//! covered.

use crate::coverage::audio_run;
use crate::coverage::backing_covers_audio;
use crate::coverage::Run;
use crate::layout::seg_view;
use crate::layout::seg_views;
use crate::layout::total_bytes;
use crate::layout::LayoutError;
use crate::layout::RegionLayout;
use crate::layout::Segment;
use crate::size::checked_sum;
use crate::error::FormatError;
use crate::error::Result;
use vstd::prelude::*;

verus! {

/// What a segment says of its own length.
pub open spec fn said_length(s: Segment) -> int {
    match s {
        Segment::Inline(b) => b@.len() as int,
        Segment::ArtImage { len, .. } => len.value(),
        Segment::BinaryTag { len, .. } => len.value(),
        Segment::OggArtSlice { len, .. } => len.value(),
        Segment::BackingAudio { len, .. } => len as int,
        Segment::OggAudio { len, .. } => len as int,
    }
}

/// The segment serves backing audio.
pub open spec fn serves_audio(s: Segment) -> bool {
    s is BackingAudio || s is OggAudio
}

/// The length of a segment is that of what it serves.
pub proof fn segments_have_their_length(s: &Segment, n: u64, e: bool)
    requires
        call_ensures(Segment::len, (s,), n),
        call_ensures(Segment::is_empty, (s,), e),
    ensures
        n == said_length(*s),
        e == (said_length(*s) == 0),
{
}

/// The smaller of a sum and the largest length.
pub open spec fn at_most_max(n: int) -> int {
    if n < 0xffff_ffff_ffff_ffff {
        n
    } else {
        0xffff_ffff_ffff_ffff
    }
}

/// One more segment adds its length to the total, and to the header where it is not audio; it
/// makes a layout with a binary tag where it is one. Without segments both lengths are zero.
pub proof fn one_more_segment_adds_its_length(
    before: &RegionLayout,
    after: &RegionLayout,
    s: Segment,
    t1: u64,
    t2: u64,
    h1: u64,
    h2: u64,
    b1: bool,
    b2: bool,
)
    requires
        after.spec_segments() == before.spec_segments().push(s),
        call_ensures(RegionLayout::total_len, (before,), t1),
        call_ensures(RegionLayout::total_len, (after,), t2),
        call_ensures(RegionLayout::header_len, (before,), h1),
        call_ensures(RegionLayout::header_len, (after,), h2),
        call_ensures(RegionLayout::has_binary_tag, (before,), b1),
        call_ensures(RegionLayout::has_binary_tag, (after,), b2),
    ensures
        t2 == at_most_max(t1 + said_length(s)),
        h2 == at_most_max(
            h1 + if serves_audio(s) {
                0
            } else {
                said_length(s)
            },
        ),
        b2 == (b1 || s is BinaryTag),
        before.spec_segments().len() == 0 ==> t1 == 0 && h1 == 0 && !b1,
{
    let x = before.spec_segments();
    let y = after.spec_segments();
    assert(seg_views(y).drop_last() =~= seg_views(x));
    assert(seg_views(y).last() == seg_view(s));
    crate::layout::seg_len_range(s);
    crate::layout::byte_counts_nonneg(x);
    if b1 {
        let i = choose|i: int| 0 <= i < x.len() && x[i] is BinaryTag;
        assert(y[i] is BinaryTag);
    }
    if s is BinaryTag {
        assert(y[x.len() as int] is BinaryTag);
    }
    if b2 {
        let i = choose|i: int| 0 <= i < y.len() && y[i] is BinaryTag;
        if i < x.len() {
            assert(x[i] is BinaryTag);
        }
    }
}

/// What is wrong with one segment: nothing to serve where it is not audio; a range of the
/// backing file, or of a picture or its text in base64, that no 64 bits hold; or a range beyond
/// the picture or its text, which has four characters for every three bytes begun.
pub open spec fn wrong_with(s: Segment) -> Option<LayoutError> {
    let n = said_length(s);
    if n == 0 && !serves_audio(s) {
        Some(LayoutError::EmptySegment)
    } else {
        match s {
            Segment::BackingAudio { offset, .. } => if offset + n > 0xffff_ffff_ffff_ffff {
                Some(LayoutError::BackingRangeOverflow)
            } else {
                None
            },
            Segment::OggAudio { offset, .. } => if offset + n > 0xffff_ffff_ffff_ffff {
                Some(LayoutError::BackingRangeOverflow)
            } else {
                None
            },
            Segment::OggArtSlice { offset, base64, art_total, .. } => {
                let whole = if base64 {
                    (art_total + 2) / 3 * 4
                } else {
                    art_total as int
                };
                if whole > 0xffff_ffff_ffff_ffff || offset + n > 0xffff_ffff_ffff_ffff {
                    Some(LayoutError::OggArtSliceRangeOverflow)
                } else if offset + n > whole {
                    Some(LayoutError::OggArtSliceOutOfBounds)
                } else {
                    None
                }
            },
            _ => None,
        }
    }
}

/// Validation stops at the first segment that is at fault, or with which the total is too much.
pub proof fn first_fault_is_reported(
    before: &RegionLayout,
    after: &RegionLayout,
    s: Segment,
    t: u64,
    v1: std::result::Result<(), LayoutError>,
    v2: std::result::Result<(), LayoutError>,
)
    requires
        after.spec_segments() == before.spec_segments().push(s),
        call_ensures(RegionLayout::total_len, (before,), t),
        call_ensures(RegionLayout::validate, (before,), v1),
        call_ensures(RegionLayout::validate, (after,), v2),
    ensures
        before.spec_segments().len() == 0 ==> v1 is Ok,
        v1 is Err ==> v2 == v1,
        v1 is Ok ==> match wrong_with(s) {
            Some(e) => v2 == Err::<(), LayoutError>(e),
            None => if t + said_length(s) > 0xffff_ffff_ffff_ffff {
                v2 == Err::<(), LayoutError>(LayoutError::TotalOverflow)
            } else {
                v2 is Ok
            },
        },
{
    let x = before.spec_segments();
    let y = after.spec_segments();
    assert(seg_views(y).drop_last() =~= seg_views(x));
    assert(seg_views(y).last() == seg_view(s));
    crate::layout::seg_len_range(s);
    crate::layout::byte_counts_nonneg(x);
    if v1 is Ok {
        crate::layout::sound_totals(*before);
    }
}

/// A validated layout is the segments it was made of, if there is no fault in them.
pub proof fn validation_keeps_the_segments(
    segments: Vec<Segment>,
    l: RegionLayout,
    v: std::result::Result<(), LayoutError>,
    r: std::result::Result<RegionLayout, LayoutError>,
)
    requires
        l.spec_segments() == segments@,
        call_ensures(RegionLayout::validate, (&l,), v),
        call_ensures(RegionLayout::validated, (segments,), r),
    ensures
        match r {
            Ok(m) => v is Ok && m.spec_segments() == segments@,
            Err(e) => v == Err::<(), LayoutError>(e),
        },
{
}

/// Where a segment of audio begins in the backing file.
pub open spec fn audio_from(s: Segment) -> int {
    match s {
        Segment::BackingAudio { offset, .. } => offset as int,
        Segment::OggAudio { offset, .. } => offset as int,
        _ => 0,
    }
}

/// The segments `i` to `j` are all the audio, and serve the backing file from `offset` on
/// without a gap, `len` bytes of it.
pub open spec fn one_run(segs: Seq<Segment>, i: int, j: int, offset: int, len: int) -> bool {
    &&& 0 <= i < j <= segs.len()
    &&& forall|k: int|
        0 <= k < segs.len() ==> serves_audio(#[trigger] segs[k]) == (i <= k < j)
    &&& audio_from(segs[i]) == offset
    &&& forall|k: int|
        i < k < j ==> audio_from(#[trigger] segs[k]) == audio_from(segs[k - 1]) + said_length(
            segs[k - 1],
        )
    &&& audio_from(segs[j - 1]) + said_length(segs[j - 1]) == offset + len
}

/// What a run says of the segments.
proof fn run_is(segs: Seq<Segment>, offset: int) -> (r: (int, int))
    ensures
        match audio_run(seg_views(segs), offset) {
            Run::Before => forall|k: int|
                0 <= k < segs.len() ==> !serves_audio(#[trigger] segs[k]),
            Run::Open(e) => one_run(segs, r.0, r.1, offset, e - offset) && r.1 == segs.len(),
            Run::Closed(e) => one_run(segs, r.0, r.1, offset, e - offset) && r.1 < segs.len(),
            Run::Broken => forall|i: int, j: int, len: int|
                !#[trigger] one_run(segs, i, j, offset, len),
        },
    decreases segs.len(),
{
    if segs.len() == 0 {
        (0, 0)
    } else {
        let f = segs.drop_last();
        let s = segs.last();
        let last = segs.len() - 1;
        let v = seg_views(segs);
        assert(v.drop_last() =~= seg_views(f));
        assert(v.last() == seg_view(s));
        let (i, j) = run_is(f, offset);
        assert forall|k: int| 0 <= k < f.len() implies #[trigger] f[k] == segs[k] by {}
        let before = audio_run(seg_views(f), offset);
        let now = audio_run(v, offset);
        let r = match before {
            Run::Before => if serves_audio(s) {
                (last, segs.len() as int)
            } else {
                (0int, 0int)
            },
            Run::Open(e) => if serves_audio(s) {
                (i, segs.len() as int)
            } else {
                (i, j)
            },
            _ => (i, j),
        };
        match now {
            Run::Before => {
                assert forall|k: int| 0 <= k < segs.len() implies !serves_audio(
                    #[trigger] segs[k],
                ) by {
                    if k < f.len() {
                        assert(!serves_audio(f[k]));
                    }
                }
            },
            Run::Open(e) => {
                assert forall|k: int| 0 <= k < segs.len() implies serves_audio(#[trigger] segs[k])
                    == (r.0 <= k < r.1) by {
                    if k < f.len() {
                        assert(serves_audio(f[k]) == serves_audio(segs[k]));
                    }
                }
                assert forall|k: int| r.0 < k < r.1 implies audio_from(#[trigger] segs[k])
                    == audio_from(segs[k - 1]) + said_length(segs[k - 1]) by {
                    if k < f.len() {
                        assert(f[k] == segs[k] && f[k - 1] == segs[k - 1]);
                    } else {
                        assert(f[k - 1] == segs[k - 1]);
                    }
                }
                if before is Open {
                    assert(f[i] == segs[i]);
                    assert(f[j - 1] == segs[j - 1]);
                }
            },
            Run::Closed(e) => {
                assert forall|k: int| 0 <= k < segs.len() implies serves_audio(#[trigger] segs[k])
                    == (r.0 <= k < r.1) by {
                    if k < f.len() {
                        assert(serves_audio(f[k]) == serves_audio(segs[k]));
                    }
                }
                assert forall|k: int| r.0 < k < r.1 implies audio_from(#[trigger] segs[k])
                    == audio_from(segs[k - 1]) + said_length(segs[k - 1]) by {
                    assert(f[k] == segs[k] && f[k - 1] == segs[k - 1]);
                }
                assert(f[i] == segs[i]);
                assert(f[j - 1] == segs[j - 1]);
            },
            Run::Broken => {
                assert forall|a: int, b: int, len: int| !#[trigger] one_run(
                    segs,
                    a,
                    b,
                    offset,
                    len,
                ) by {
                    if one_run(segs, a, b, offset, len) {
                        broken_stays(segs, offset, a, b, len, i, j);
                    }
                }
            },
        }
        r
    }
}

/// A run in segments is a run in all but the last of them, or the last is all of it.
proof fn broken_stays(segs: Seq<Segment>, offset: int, a: int, b: int, len: int, i: int, j: int)
    requires
        segs.len() > 0,
        one_run(segs, a, b, offset, len),
        match audio_run(seg_views(segs.drop_last()), offset) {
            Run::Before => forall|k: int|
                0 <= k < segs.len() - 1 ==> !serves_audio(#[trigger] segs.drop_last()[k]),
            Run::Open(e) => one_run(segs.drop_last(), i, j, offset, e - offset) && j == segs.len()
                - 1,
            Run::Closed(e) => one_run(segs.drop_last(), i, j, offset, e - offset) && j < segs.len()
                - 1,
            Run::Broken => forall|x: int, y: int, l: int|
                !#[trigger] one_run(segs.drop_last(), x, y, offset, l),
        },
    ensures
        !(audio_run(seg_views(segs), offset) is Broken),
{
    let f = segs.drop_last();
    let s = segs.last();
    let last = segs.len() - 1;
    let v = seg_views(segs);
    assert(v.drop_last() =~= seg_views(f));
    assert(v.last() == seg_view(s));
    assert forall|k: int| 0 <= k < f.len() implies #[trigger] f[k] == segs[k] by {}
    assert(serves_audio(segs[last]) == (a <= last < b));
    if b <= last || a < last {
        let c = if b <= last {
            b
        } else {
            last
        };
        assert(one_run(f, a, c, offset, audio_from(f[c - 1]) + said_length(f[c - 1]) - offset)) by {
            assert forall|k: int| 0 <= k < f.len() implies serves_audio(#[trigger] f[k]) == (a <= k
                < c) by {
                assert(serves_audio(segs[k]) == (a <= k < b));
            }
            assert(f[a] == segs[a]);
            assert forall|k: int| a < k < c implies audio_from(#[trigger] f[k]) == audio_from(
                f[k - 1],
            ) + said_length(f[k - 1]) by {
                assert(audio_from(segs[k]) == audio_from(segs[k - 1]) + said_length(segs[k - 1]));
                assert(f[k - 1] == segs[k - 1]);
            }
        }
        assert(serves_audio(f[a]));
        match audio_run(seg_views(f), offset) {
            Run::Open(e) => {
                if serves_audio(s) {
                    assert(f[j - 1] == segs[j - 1]);
                    assert(audio_from(segs[last]) == audio_from(segs[last - 1]) + said_length(
                        segs[last - 1],
                    ));
                }
            },
            Run::Closed(e) => {
                if serves_audio(s) {
                    assert(f[last - 1] == segs[last - 1]);
                    assert(!serves_audio(f[last - 1]));
                    assert(serves_audio(segs[last - 1]) == (a <= last - 1 < b));
                }
            },
            _ => {},
        }
    } else {
        assert(a == last);
        assert forall|k: int| 0 <= k < f.len() implies !serves_audio(#[trigger] f[k]) by {
            assert(serves_audio(segs[k]) == (a <= k < b));
        }
        match audio_run(seg_views(f), offset) {
            Run::Open(e) => {
                assert(serves_audio(f[i]));
            },
            Run::Closed(e) => {
                assert(serves_audio(f[i]));
            },
            Run::Broken => {
                no_audio_no_break(f, offset);
            },
            Run::Before => {},
        }
    }
}

proof fn no_audio_no_break(segs: Seq<Segment>, offset: int)
    requires
        forall|k: int| 0 <= k < segs.len() ==> !serves_audio(#[trigger] segs[k]),
    ensures
        audio_run(seg_views(segs), offset) is Before,
    decreases segs.len(),
{
    if segs.len() > 0 {
        let f = segs.drop_last();
        assert forall|k: int| 0 <= k < f.len() implies !serves_audio(#[trigger] f[k]) by {
            assert(f[k] == segs[k]);
        }
        no_audio_no_break(f, offset);
        assert(seg_views(segs).drop_last() =~= seg_views(f));
        assert(seg_views(segs).last() == seg_view(segs.last()));
        assert(!serves_audio(segs[segs.len() - 1]));
    }
}

/// A layout whose total fits covers the audio exactly where its audio segments stand in one
/// row and serve the range without a gap, from its start to its end.
pub proof fn covered_is_one_run(
    offset: u64,
    length: u64,
    layout: &RegionLayout,
    i: int,
    j: int,
    r: bool,
)
    requires
        call_ensures(backing_covers_audio, (offset, length, layout), r),
    ensures
        r ==> exists|a: int, b: int|
            #[trigger] one_run(
                layout.spec_segments(),
                a,
                b,
                offset as int,
                length as int,
            ),
        one_run(layout.spec_segments(), i, j, offset as int, length as int) && total_bytes(
            layout.views(),
        ) <= 0xffff_ffff_ffff_ffff ==> r,
{
    let segs = layout.spec_segments();
    let (a, b) = run_is(segs, offset as int);
    crate::layout::byte_counts_nonneg(segs);
    if r {
        assert(one_run(segs, a, b, offset as int, length as int));
    }
    if one_run(segs, i, j, offset as int, length as int) && total_bytes(layout.views())
        <= 0xffff_ffff_ffff_ffff {
        assert(serves_audio(segs[i]));
        same_run(segs, i, j, a, b, offset as int, length as int);
        crate::layout::total_is_header_plus_audio(seg_views(segs));
        audio_adds_up(segs, i, j, offset as int, length as int);
        crate::layout::byte_counts_nonneg(segs);
    }
}

/// There is one run at most.
proof fn same_run(segs: Seq<Segment>, i: int, j: int, a: int, b: int, offset: int, len: int)
    requires
        one_run(segs, i, j, offset, len),
    ensures
        forall|l: int| #[trigger] one_run(segs, a, b, offset, l) ==> a == i && b == j && l == len,
{
    assert forall|l: int| #[trigger] one_run(segs, a, b, offset, l) implies a == i && b == j && l
        == len by {
        assert(serves_audio(segs[i]) == (a <= i < b));
        assert(serves_audio(segs[a]) == (i <= a < j));
        assert(serves_audio(segs[j - 1]) == (a <= j - 1 < b));
        assert(serves_audio(segs[b - 1]) == (i <= b - 1 < j));
    }
}

/// The audio of a run is as long as the run says.
proof fn audio_adds_up(segs: Seq<Segment>, i: int, j: int, offset: int, len: int)
    requires
        one_run(segs, i, j, offset, len),
    ensures
        crate::layout::audio_bytes(seg_views(segs)) == len,
    decreases segs.len(),
{
    let f = segs.drop_last();
    let last = segs.len() - 1;
    let v = seg_views(segs);
    assert(v.drop_last() =~= seg_views(f));
    assert(v.last() == seg_view(segs.last()));
    assert forall|k: int| 0 <= k < f.len() implies #[trigger] f[k] == segs[k] by {}
    assert(serves_audio(segs[last]) == (i <= last < j));
    if j <= last || i < last {
        let c = if j <= last {
            j
        } else {
            last
        };
        let l = audio_from(f[c - 1]) + said_length(f[c - 1]) - offset;
        assert(one_run(f, i, c, offset, l)) by {
            assert forall|k: int| 0 <= k < f.len() implies serves_audio(#[trigger] f[k]) == (i <= k
                < c) by {
                assert(serves_audio(segs[k]) == (i <= k < j));
            }
            assert(f[i] == segs[i]);
            assert forall|k: int| i < k < c implies audio_from(#[trigger] f[k]) == audio_from(
                f[k - 1],
            ) + said_length(f[k - 1]) by {
                assert(audio_from(segs[k]) == audio_from(segs[k - 1]) + said_length(segs[k - 1]));
                assert(f[k - 1] == segs[k - 1]);
            }
        }
        audio_adds_up(f, i, c, offset, l);
        if j > last {
            assert(audio_from(segs[last]) == audio_from(segs[last - 1]) + said_length(
                segs[last - 1],
            ));
        }
    } else {
        assert forall|k: int| 0 <= k < f.len() implies !serves_audio(#[trigger] f[k]) by {
            assert(serves_audio(segs[k]) == (i <= k < j));
        }
        none_adds_nothing(f);
    }
}

proof fn none_adds_nothing(segs: Seq<Segment>)
    requires
        forall|k: int| 0 <= k < segs.len() ==> !serves_audio(#[trigger] segs[k]),
    ensures
        crate::layout::audio_bytes(seg_views(segs)) == 0,
    decreases segs.len(),
{
    if segs.len() > 0 {
        let f = segs.drop_last();
        assert forall|k: int| 0 <= k < f.len() implies !serves_audio(#[trigger] f[k]) by {
            assert(f[k] == segs[k]);
        }
        none_adds_nothing(f);
        assert(seg_views(segs).drop_last() =~= seg_views(f));
        assert(seg_views(segs).last() == seg_view(segs.last()));
        assert(!serves_audio(segs[segs.len() - 1]));
    }
}

/// A sum goes on where it left off, and stays too large once it is.
pub proof fn sums_go_on(
    items: &[u64],
    more: &[u64],
    n: u64,
    a: Result<u64>,
    b: Result<u64>,
)
    requires
        more@ == items@.push(n),
        call_ensures(checked_sum, (items,), a),
        call_ensures(checked_sum, (more,), b),
    ensures
        items@.len() == 0 ==> a == Ok::<u64, FormatError>(0),
        match a {
            Ok(v) => if v + n <= 0xffff_ffff_ffff_ffff {
                b is Ok && b->Ok_0 == v + n
            } else {
                b == Err::<u64, FormatError>(FormatError::TooLarge)
            },
            Err(e) => e == FormatError::TooLarge && b == a,
        },
{
    assert(more@.drop_last() =~= items@);
}

} // verus!
