//! The ordered segment list that describes a synthesized virtual file.

use crate::bytes::copy_range;
use crate::input::BlobLen;
use crate::ogg::b64::b64_len_checked;
use crate::ogg::b64::b64_size;
use vstd::prelude::*;

verus! {

/// Validation errors discovered in a layout at synthesis time.
#[derive(Debug, Clone, PartialEq, Eq)]
pub enum LayoutError {
    /// A segment reported zero length.
    EmptySegment,
    /// Total length overflowed u64.
    TotalOverflow,
    /// A backing-audio run's offset + length overflowed u64.
    BackingRangeOverflow,
    /// An Ogg art slice's offset + length overflowed u64, or its base64 output
    /// length (`b64_len(art_total)`) overflowed u64.
    OggArtSliceRangeOverflow,
    /// An Ogg art slice names an output window past the end of its source art.
    OggArtSliceOutOfBounds,
}

/// One contiguous run of bytes in a synthesized virtual file.
#[derive(Debug, Clone, PartialEq, Eq)]
pub enum Segment {
    /// Generated framing/text bytes, fully materialized.
    Inline(Vec<u8>),
    /// Image bytes the caller splices in from its art store; only the length is known here.
    ArtImage { art_id: i64, len: BlobLen },
    /// A run of the original backing file's audio frames.
    BackingAudio { offset: u64, len: u64 },
    /// A run of original audio pages served with each page's sequence number
    /// shifted by `seq_delta` and its CRC recomputed. The byte length is unchanged
    /// (renumbering patches in place), so `len` equals the backing audio length.
    /// `serial` is the stream's bitstream serial number.
    OggAudio { offset: u64, len: u64, seq_delta: i64, serial: u32 },
    /// A run of an embedded picture's serialized bytes, served lazily from the art
    /// store (never stored in the layout). When `base64`, the run is `len` chars of
    /// `base64(image)` starting at output offset `offset`; otherwise it is `len`
    /// raw image bytes starting at raw offset `offset`. `art_total` is the raw image
    /// byte length (needed to clip the final base64 group).
    OggArtSlice { art_id: i64, offset: u64, len: BlobLen, base64: bool, art_total: u64 },
    /// An opaque binary tag payload (e.g. an ID3 `PRIV` frame body or a FLAC
    /// `APPLICATION` block body) streamed by the caller at read time; only the
    /// length is known here. `payload_id` is the caller's handle.
    BinaryTag { payload_id: i64, len: BlobLen },
}

/// A segment as a mathematical value.
pub enum SegView {
    Inline(Seq<u8>),
    ArtImage { art_id: i64, len: int },
    BackingAudio { offset: int, len: int },
    OggAudio { offset: int, len: int, seq_delta: int, serial: u32 },
    OggArtSlice { art_id: i64, offset: int, len: int, base64: bool, art_total: int },
    BinaryTag { payload_id: i64, len: int },
}

/// What a segment stands for.
pub open spec fn seg_view(s: Segment) -> SegView {
    match s {
        Segment::Inline(b) => SegView::Inline(b@),
        Segment::ArtImage { art_id, len } => SegView::ArtImage { art_id, len: len.value() },
        Segment::BackingAudio { offset, len } => SegView::BackingAudio {
            offset: offset as int,
            len: len as int,
        },
        Segment::OggAudio { offset, len, seq_delta, serial } => SegView::OggAudio {
            offset: offset as int,
            len: len as int,
            seq_delta: seq_delta as int,
            serial,
        },
        Segment::OggArtSlice { art_id, offset, len, base64, art_total } => SegView::OggArtSlice {
            art_id,
            offset: offset as int,
            len: len.value(),
            base64,
            art_total: art_total as int,
        },
        Segment::BinaryTag { payload_id, len } => SegView::BinaryTag {
            payload_id,
            len: len.value(),
        },
    }
}

/// What a list of segments stands for.
pub open spec fn seg_views(s: Seq<Segment>) -> Seq<SegView> {
    Seq::new(s.len(), |i: int| seg_view(s[i]))
}

/// Appending a segment appends what it stands for.
pub proof fn seg_views_push(s: Seq<Segment>, x: Segment)
    ensures
        seg_views(s.push(x)) == seg_views(s).push(seg_view(x)),
{
    assert(seg_views(s.push(x)) =~= seg_views(s).push(seg_view(x)));
}

/// Joining segment lists joins what they stand for.
pub proof fn seg_views_concat(a: Seq<Segment>, b: Seq<Segment>)
    ensures
        seg_views(a + b) == seg_views(a) + seg_views(b),
{
    assert(seg_views(a + b) =~= seg_views(a) + seg_views(b));
}

/// Append a segment.
pub(crate) fn push_segment(segments: &mut Vec<Segment>, s: Segment)
    ensures
        seg_views(final(segments)@) == seg_views(old(segments)@).push(seg_view(s)),
        final(segments)@ == old(segments)@.push(s),
{
    proof {
        seg_views_push(segments@, s);
    }
    segments.push(s);
}

/// The number of bytes a segment contributes to the file.
pub open spec fn view_len(s: SegView) -> int {
    match s {
        SegView::Inline(b) => b.len() as int,
        SegView::ArtImage { len, .. } => len,
        SegView::OggArtSlice { len, .. } => len,
        SegView::BinaryTag { len, .. } => len,
        SegView::BackingAudio { len, .. } => len,
        SegView::OggAudio { len, .. } => len,
    }
}

/// True for a run of the backing file's audio.
pub open spec fn is_audio(s: SegView) -> bool {
    s is BackingAudio || s is OggAudio
}

/// The bytes in all segments together.
pub open spec fn total_bytes(segs: Seq<SegView>) -> int
    decreases segs.len(),
{
    if segs.len() == 0 {
        0
    } else {
        total_bytes(segs.drop_last()) + view_len(segs.last())
    }
}

/// The bytes in all segments that are not backing audio.
pub open spec fn header_bytes(segs: Seq<SegView>) -> int
    decreases segs.len(),
{
    if segs.len() == 0 {
        0
    } else {
        header_bytes(segs.drop_last()) + if is_audio(segs.last()) {
            0
        } else {
            view_len(segs.last())
        }
    }
}

/// The bytes in all segments that are backing audio.
pub open spec fn audio_bytes(segs: Seq<SegView>) -> int
    decreases segs.len(),
{
    if segs.len() == 0 {
        0
    } else {
        audio_bytes(segs.drop_last()) + if is_audio(segs.last()) {
            view_len(segs.last())
        } else {
            0
        }
    }
}

/// `v`, or the largest `u64` when `v` is beyond it.
pub open spec fn saturated(v: int) -> int {
    if v > u64::MAX {
        u64::MAX as int
    } else {
        v
    }
}

/// What is wrong with one segment on its own, if anything.
pub open spec fn segment_fault(s: SegView) -> Option<LayoutError> {
    if view_len(s) == 0 && !is_audio(s) {
        Some(LayoutError::EmptySegment)
    } else {
        match s {
            SegView::BackingAudio { offset, len } => if offset + len > u64::MAX {
                Some(LayoutError::BackingRangeOverflow)
            } else {
                None
            },
            SegView::OggAudio { offset, len, .. } => if offset + len > u64::MAX {
                Some(LayoutError::BackingRangeOverflow)
            } else {
                None
            },
            SegView::OggArtSlice { offset, len, base64, art_total, .. } => {
                let permitted = if base64 {
                    b64_size(art_total)
                } else {
                    art_total
                };
                if permitted > u64::MAX || offset + len > u64::MAX {
                    Some(LayoutError::OggArtSliceRangeOverflow)
                } else if offset + len > permitted {
                    Some(LayoutError::OggArtSliceOutOfBounds)
                } else {
                    None
                }
            },
            _ => None,
        }
    }
}

/// The first fault met in segment order: a segment's own fault, or the running total
/// passing `u64::MAX`.
pub open spec fn layout_fault(segs: Seq<SegView>) -> Option<LayoutError>
    decreases segs.len(),
{
    if segs.len() == 0 {
        None
    } else {
        match layout_fault(segs.drop_last()) {
            Some(e) => Some(e),
            None => match segment_fault(segs.last()) {
                Some(e) => Some(e),
                None => if total_bytes(segs) > u64::MAX {
                    Some(LayoutError::TotalOverflow)
                } else {
                    None
                },
            },
        }
    }
}

/// Header bytes and audio bytes make up the whole.
pub proof fn total_is_header_plus_audio(segs: Seq<SegView>)
    ensures
        total_bytes(segs) == header_bytes(segs) + audio_bytes(segs),
    decreases segs.len(),
{
    if segs.len() > 0 {
        total_is_header_plus_audio(segs.drop_last());
    }
}

/// A segment's length is a `u64`.
pub proof fn seg_len_range(s: Segment)
    ensures
        0 <= view_len(seg_view(s)),
{
    match s {
        Segment::ArtImage { len, .. } => {
            len.value_range();
        },
        Segment::OggArtSlice { len, .. } => {
            len.value_range();
        },
        Segment::BinaryTag { len, .. } => {
            len.value_range();
        },
        _ => {},
    }
}

/// No byte count of a segment list is negative.
pub proof fn byte_counts_nonneg(segs: Seq<Segment>)
    ensures
        0 <= total_bytes(seg_views(segs)),
        0 <= header_bytes(seg_views(segs)),
        0 <= audio_bytes(seg_views(segs)),
    decreases segs.len(),
{
    if segs.len() > 0 {
        assert(seg_views(segs).drop_last() =~= seg_views(segs.drop_last()));
        byte_counts_nonneg(segs.drop_last());
        seg_len_range(segs.last());
    }
}

/// A sound layout's prefix is sound, and a prefix's fault is the whole's.
pub proof fn fault_of_prefix(segs: Seq<SegView>, n: int)
    requires
        0 <= n <= segs.len(),
    ensures
        layout_fault(segs) is None ==> layout_fault(segs.take(n)) is None,
        layout_fault(segs.take(n)) is Some ==> layout_fault(segs) == layout_fault(segs.take(n)),
    decreases segs.len(),
{
    if n == segs.len() {
        assert(segs.take(n) =~= segs);
    } else {
        fault_of_prefix(segs.drop_last(), n);
        assert(segs.drop_last().take(n) =~= segs.take(n));
    }
}

/// A metadata region being drafted: the segments that are closed, and the inline bytes
/// that gather behind them.
pub struct DraftModel {
    pub done: Seq<SegView>,
    pub pending: Seq<u8>,
}

/// A draft with nothing in it.
pub open spec fn empty_draft() -> DraftModel {
    DraftModel { done: Seq::empty(), pending: Seq::empty() }
}

/// `done` followed by what is pending, if anything is.
pub open spec fn flushed(done: Seq<SegView>, pending: Seq<u8>) -> Seq<SegView> {
    if pending.len() == 0 {
        done
    } else {
        done.push(SegView::Inline(pending))
    }
}

/// More inline bytes gather.
pub open spec fn with_bytes(d: DraftModel, b: Seq<u8>) -> DraftModel {
    DraftModel { done: d.done, pending: d.pending + b }
}

/// A streamed segment closes the inline bytes before it.
pub open spec fn with_stream(d: DraftModel, s: SegView) -> DraftModel {
    DraftModel { done: flushed(d.done, d.pending).push(s), pending: Seq::empty() }
}

/// The segments of a draft.
pub open spec fn drafted(d: DraftModel) -> Seq<SegView> {
    flushed(d.done, d.pending)
}

/// A metadata region being drafted.
pub(crate) struct Draft {
    pub segments: Vec<Segment>,
    pub pending: Vec<u8>,
}

impl Draft {
    /// What the draft stands for.
    pub(crate) open spec fn model(&self) -> DraftModel {
        DraftModel { done: seg_views(self.segments@), pending: self.pending@ }
    }

    /// A draft with nothing in it.
    pub(crate) fn new() -> (r: Draft)
        ensures
            r.model() == empty_draft(),
    {
        let r = Draft { segments: Vec::new(), pending: Vec::new() };
        assert(seg_views(r.segments@) =~= Seq::empty());
        r
    }

    /// Append inline bytes.
    pub(crate) fn bytes(&mut self, b: &[u8])
        ensures
            final(self).model() == with_bytes(old(self).model(), b@),
    {
        crate::bytes::append(&mut self.pending, b);
    }

    /// Close the inline bytes, if there are any.
    fn flush(&mut self)
        ensures
            seg_views(final(self).segments@) == flushed(
                seg_views(old(self).segments@),
                old(self).pending@,
            ),
            final(self).pending@ == Seq::<u8>::empty(),
    {
        if self.pending.len() > 0 {
            let mut b: Vec<u8> = Vec::new();
            std::mem::swap(&mut b, &mut self.pending);
            push_segment(&mut self.segments, Segment::Inline(b));
        }
        assert(self.pending@ =~= Seq::<u8>::empty());
    }

    /// Append a streamed segment.
    pub(crate) fn stream(&mut self, s: Segment)
        ensures
            final(self).model() == with_stream(old(self).model(), seg_view(s)),
    {
        self.flush();
        push_segment(&mut self.segments, s);
    }

    /// The segments drafted.
    pub(crate) fn finish(self) -> (r: Vec<Segment>)
        ensures
            seg_views(r@) == drafted(self.model()),
    {
        let mut d = self;
        d.flush();
        d.segments
    }
}

impl Segment {
    /// The number of bytes this segment contributes to the file.
    pub fn len(&self) -> (r: u64)
        ensures
            r == view_len(seg_view(*self)),
    {
        match self {
            Segment::Inline(b) => b.len() as u64,
            Segment::ArtImage { len, .. } => len.get(),
            Segment::OggArtSlice { len, .. } => len.get(),
            Segment::BinaryTag { len, .. } => len.get(),
            Segment::BackingAudio { len, .. } => *len,
            Segment::OggAudio { len, .. } => *len,
        }
    }

    /// True when the segment contributes no byte.
    pub fn is_empty(&self) -> (r: bool)
        ensures
            r == (view_len(seg_view(*self)) == 0),
    {
        self.len() == 0
    }

    /// True for a run of the backing file's audio.
    fn is_audio(&self) -> (r: bool)
        ensures
            r == is_audio(seg_view(*self)),
    {
        match self {
            Segment::BackingAudio { .. } => true,
            Segment::OggAudio { .. } => true,
            _ => false,
        }
    }

    /// What is wrong with this segment on its own, if anything.
    fn fault(&self) -> (r: std::result::Result<(), LayoutError>)
        ensures
            match r {
                Ok(_) => segment_fault(seg_view(*self)) is None,
                Err(e) => segment_fault(seg_view(*self)) == Some(e),
            },
    {
        if self.is_empty() && !self.is_audio() {
            return Err(LayoutError::EmptySegment);
        }
        match self {
            Segment::BackingAudio { offset, len } => {
                if offset.checked_add(*len).is_none() {
                    return Err(LayoutError::BackingRangeOverflow);
                }
            },
            Segment::OggAudio { offset, len, .. } => {
                if offset.checked_add(*len).is_none() {
                    return Err(LayoutError::BackingRangeOverflow);
                }
            },
            Segment::OggArtSlice { offset, len, base64, art_total, .. } => {
                let permitted: u64 = if *base64 {
                    match b64_len_checked(*art_total) {
                        Some(n) => n,
                        None => {
                            return Err(LayoutError::OggArtSliceRangeOverflow);
                        },
                    }
                } else {
                    *art_total
                };
                match offset.checked_add(len.get()) {
                    Some(end) => {
                        if end > permitted {
                            return Err(LayoutError::OggArtSliceOutOfBounds);
                        }
                    },
                    None => {
                        return Err(LayoutError::OggArtSliceRangeOverflow);
                    },
                }
            },
            _ => {},
        }
        Ok(())
    }
}

/// An ordered description of a synthesized virtual file: the metadata region
/// (inline framing + art images) followed by the backing audio. Totals are
/// computed once at construction; `segments` is private so they cannot desync.
#[derive(Debug, PartialEq, Eq)]
pub struct RegionLayout {
    segments: Vec<Segment>,
    total_len: u64,
    header_len: u64,
}

impl RegionLayout {
    /// The segments in order.
    pub closed spec fn spec_segments(&self) -> Seq<Segment> {
        self.segments@
    }

    /// What the segments stand for, in order.
    pub open spec fn views(&self) -> Seq<SegView> {
        seg_views(self.spec_segments())
    }

    #[verifier::type_invariant]
    pub closed spec fn wf(self) -> bool {
        &&& self.total_len == saturated(total_bytes(seg_views(self.segments@)))
        &&& self.header_len == saturated(header_bytes(seg_views(self.segments@)))
    }

    fn from_segments(segments: Vec<Segment>) -> (r: RegionLayout)
        ensures
            r.spec_segments() == segments@,
    {
        let mut total_len: u64 = 0;
        let mut header_len: u64 = 0;
        let mut i: usize = 0;
        while i < segments.len()
            invariant
                i <= segments@.len(),
                total_len == saturated(total_bytes(seg_views(segments@.take(i as int)))),
                header_len == saturated(header_bytes(seg_views(segments@.take(i as int)))),
            decreases segments@.len() - i,
        {
            proof {
                assert(seg_views(segments@.take(i + 1)).drop_last() =~= seg_views(
                    segments@.take(i as int),
                ));
                byte_counts_nonneg(segments@.take(i as int));
            }
            let len: u64 = segments[i].len();
            total_len = total_len.saturating_add(len);
            if !segments[i].is_audio() {
                header_len = header_len.saturating_add(len);
            }
            i = i + 1;
        }
        assert(segments@.take(i as int) =~= segments@);
        RegionLayout { segments, total_len, header_len }
    }

    /// Unvalidated construction, for building layouts to hand to `validate`.
    pub fn new(segments: Vec<Segment>) -> (r: RegionLayout)
        ensures
            r.spec_segments() == segments@,
    {
        RegionLayout::from_segments(segments)
    }

    /// The layout of `segments`, if it is sound; otherwise the first fault.
    pub fn validated(segments: Vec<Segment>) -> (r: std::result::Result<RegionLayout, LayoutError>)
        ensures
            match r {
                Ok(l) => layout_fault(seg_views(segments@)) is None && l.spec_segments()
                    == segments@,
                Err(e) => layout_fault(seg_views(segments@)) == Some(e),
            },
    {
        let layout = RegionLayout::from_segments(segments);
        match layout.validate() {
            Ok(_) => Ok(layout),
            Err(e) => Err(e),
        }
    }

    /// Build a layout **without** validation: an escape hatch for exercising
    /// `validate()` on invalid layouts.
    pub fn new_unchecked(segments: Vec<Segment>) -> (r: RegionLayout)
        ensures
            r.spec_segments() == segments@,
    {
        RegionLayout::from_segments(segments)
    }

    /// The ordered segments composing the synthesized virtual file.
    pub fn segments(&self) -> (r: &[Segment])
        ensures
            r@ == self.spec_segments(),
    {
        self.segments.as_slice()
    }

    /// True if any segment streams an opaque binary tag payload from the caller's store.
    pub fn has_binary_tag(&self) -> (r: bool)
        ensures
            r == exists|i: int|
                0 <= i < self.spec_segments().len() && self.spec_segments()[i] is BinaryTag,
    {
        let mut i: usize = 0;
        while i < self.segments.len()
            invariant
                i <= self.segments@.len(),
                forall|k: int| 0 <= k < i ==> !(self.segments@[k] is BinaryTag),
            decreases self.segments@.len() - i,
        {
            if let Segment::BinaryTag { .. } = &self.segments[i] {
                assert(self.spec_segments()[i as int] is BinaryTag);
                return true;
            }
            i = i + 1;
        }
        false
    }

    /// Total size of the synthesized virtual file in bytes (stored at construction).
    pub fn total_len(&self) -> (r: u64)
        ensures
            r == saturated(total_bytes(self.views())),
    {
        proof {
            use_type_invariant(&*self);
        }
        self.total_len
    }

    /// Size of the synthesized metadata region preceding the backing audio (stored).
    pub fn header_len(&self) -> (r: u64)
        ensures
            r == saturated(header_bytes(self.views())),
    {
        proof {
            use_type_invariant(&*self);
        }
        self.header_len
    }

    /// Validate basic producer invariants. Returns `Ok(())` if the layout is
    /// structurally sound (no empty metadata segments, lengths don't overflow).
    /// Zero-length backing audio is valid for formats that can represent an
    /// empty media payload.
    pub fn validate(&self) -> (r: std::result::Result<(), LayoutError>)
        ensures
            match r {
                Ok(_) => layout_fault(self.views()) is None,
                Err(e) => layout_fault(self.views()) == Some(e),
            },
    {
        let ghost segs = seg_views(self.segments@);
        let mut total: u64 = 0;
        let mut i: usize = 0;
        while i < self.segments.len()
            invariant
                segs == seg_views(self.segments@),
                i <= segs.len(),
                total == total_bytes(segs.take(i as int)),
                layout_fault(segs.take(i as int)) is None,
            decreases segs.len() - i,
        {
            proof {
                assert(segs.take(i + 1).drop_last() =~= segs.take(i as int));
                fault_of_prefix(segs, i + 1);
            }
            match self.segments[i].fault() {
                Ok(_) => {},
                Err(e) => {
                    return Err(e);
                },
            }
            match total.checked_add(self.segments[i].len()) {
                Some(t) => {
                    total = t;
                },
                None => {
                    return Err(LayoutError::TotalOverflow);
                },
            }
            i = i + 1;
        }
        assert(segs.take(i as int) =~= segs);
        Ok(())
    }
}

/// A segment like `s`.
fn copy_of(s: &Segment) -> (r: Segment)
    ensures
        seg_view(r) == seg_view(*s),
{
    match s {
        Segment::Inline(b) => {
            let copy = copy_range(b.as_slice(), 0, b.len());
            assert(copy@ =~= b@);
            Segment::Inline(copy)
        },
        Segment::ArtImage { art_id, len } => Segment::ArtImage { art_id: *art_id, len: *len },
        Segment::BackingAudio { offset, len } => Segment::BackingAudio {
            offset: *offset,
            len: *len,
        },
        Segment::OggAudio { offset, len, seq_delta, serial } => Segment::OggAudio {
            offset: *offset,
            len: *len,
            seq_delta: *seq_delta,
            serial: *serial,
        },
        Segment::OggArtSlice { art_id, offset, len, base64, art_total } => Segment::OggArtSlice {
            art_id: *art_id,
            offset: *offset,
            len: *len,
            base64: *base64,
            art_total: *art_total,
        },
        Segment::BinaryTag { payload_id, len } => Segment::BinaryTag {
            payload_id: *payload_id,
            len: *len,
        },
    }
}

impl Clone for RegionLayout {
    fn clone(&self) -> (r: RegionLayout)
        ensures
            r.views() == self.views(),
    {
        let mut segments: Vec<Segment> = Vec::new();
        let mut i: usize = 0;
        assert(seg_views(segments@) =~= seg_views(self.segments@).take(0));
        while i < self.segments.len()
            invariant
                i <= self.segments@.len(),
                seg_views(segments@) == seg_views(self.segments@).take(i as int),
            decreases self.segments@.len() - i,
        {
            let ghost before = seg_views(segments@);
            let s = copy_of(&self.segments[i]);
            push_segment(&mut segments, s);
            assert(before.push(seg_view(self.segments@[i as int])) =~= seg_views(
                self.segments@,
            ).take(i + 1));
            i = i + 1;
        }
        assert(seg_views(self.segments@).take(i as int) =~= seg_views(self.segments@));
        RegionLayout::from_segments(segments)
    }
}

/// In a sound layout the stored totals are exact: the whole file is the header region
/// followed by as many audio bytes as the audio runs hold.
pub proof fn sound_totals(layout: RegionLayout)
    requires
        layout_fault(layout.views()) is None,
    ensures
        saturated(total_bytes(layout.views())) == total_bytes(layout.views()),
        saturated(header_bytes(layout.views())) == header_bytes(layout.views()),
        total_bytes(layout.views()) == header_bytes(layout.views()) + audio_bytes(layout.views()),
{
    byte_counts_nonneg(layout.spec_segments());
    total_is_header_plus_audio(layout.views());
}

/// The layout ends with one run of backing audio, and holds no other.
pub open spec fn audio_once_at_end(segs: Seq<SegView>, offset: int, len: int) -> bool {
    &&& segs.len() > 0
    &&& match segs.last() {
        SegView::BackingAudio { offset: o, len: n } => o == offset && n == len,
        SegView::OggAudio { offset: o, len: n, .. } => o == offset && n == len,
        _ => false,
    }
    &&& forall|i: int| 0 <= i < segs.len() - 1 ==> !is_audio(#[trigger] segs[i])
}

/// No segment is backing audio.
pub open spec fn no_audio(segs: Seq<SegView>) -> bool {
    forall|i: int| 0 <= i < segs.len() ==> !is_audio(#[trigger] segs[i])
}

/// Segments without audio serve none.
proof fn no_audio_bytes(segs: Seq<SegView>)
    requires
        no_audio(segs),
    ensures
        audio_bytes(segs) == 0,
    decreases segs.len(),
{
    if segs.len() > 0 {
        let f = segs.drop_last();
        assert forall|i: int| 0 <= i < f.len() implies !is_audio(#[trigger] f[i]) by {
            assert(f[i] == segs[i]);
        }
        no_audio_bytes(f);
        assert(!is_audio(segs[segs.len() - 1]));
    }
}

/// What stands in front of one run of audio at the end is the header.
pub proof fn header_before_audio(segs: Seq<SegView>, offset: int, len: int)
    requires
        audio_once_at_end(segs, offset, len),
    ensures
        header_bytes(segs) == total_bytes(segs) - len,
{
    total_is_header_plus_audio(segs);
    let front = segs.drop_last();
    assert forall|i: int| 0 <= i < front.len() implies !is_audio(#[trigger] front[i]) by {
        assert(front[i] == segs[i]);
    }
    no_audio_bytes(front);
}

/// A draft without audio, closed by one run of it, serves that run once and last.
pub proof fn draft_closed_by_audio(d: DraftModel, offset: int, len: int)
    requires
        no_audio(d.done),
    ensures
        audio_once_at_end(
            drafted(with_stream(d, SegView::BackingAudio { offset, len })),
            offset,
            len,
        ),
{
}

/// The bytes that a draft comes to.
pub open spec fn draft_bytes(d: DraftModel) -> int {
    total_bytes(d.done) + d.pending.len()
}

/// How many bytes a draft comes to, and how much each step adds.
pub proof fn draft_bytes_add_up(d: DraftModel, b: Seq<u8>, s: SegView)
    ensures
        total_bytes(drafted(d)) == draft_bytes(d),
        draft_bytes(with_bytes(d, b)) == draft_bytes(d) + b.len(),
        draft_bytes(with_stream(d, s)) == draft_bytes(d) + view_len(s),
        draft_bytes(empty_draft()) == 0,
{
    let f = flushed(d.done, d.pending);
    assert(f.push(s).drop_last() =~= f);
    assert(f.push(s).last() == s);
    assert(total_bytes(f.push(s)) == total_bytes(f) + view_len(s));
    if d.pending.len() > 0 {
        let g = d.done.push(SegView::Inline(d.pending));
        assert(g.drop_last() =~= d.done);
        assert(g.last() == SegView::Inline(d.pending));
        assert(total_bytes(g) == total_bytes(d.done) + d.pending.len());
    }
    assert(total_bytes(f) == draft_bytes(d));
}

/// The total of all segments, or `None` where it is beyond 64 bits.
pub(crate) fn total_checked(segs: &Vec<Segment>) -> (r: Option<u64>)
    ensures
        match r {
            Some(n) => n == total_bytes(seg_views(segs@)),
            None => total_bytes(seg_views(segs@)) > u64::MAX,
        },
{
    let ghost all = seg_views(segs@);
    let mut total: u64 = 0;
    let mut i: usize = 0;
    assert(all.take(0) =~= Seq::empty());
    while i < segs.len()
        invariant
            i <= segs@.len(),
            all == seg_views(segs@),
            total == total_bytes(all.take(i as int)),
        decreases segs@.len() - i,
    {
        proof {
            assert(all.take(i + 1).drop_last() =~= all.take(i as int));
            total_bytes_prefix(segs@, i + 1);
        }
        match total.checked_add(segs[i].len()) {
            Some(t) => {
                total = t;
            },
            None => {
                return None;
            },
        }
        i = i + 1;
    }
    assert(all.take(i as int) =~= all);
    Some(total)
}

/// The first segments come to no more than all of them.
pub proof fn total_bytes_prefix(segs: Seq<Segment>, n: int)
    requires
        0 <= n <= segs.len(),
    ensures
        total_bytes(seg_views(segs).take(n)) <= total_bytes(seg_views(segs)),
    decreases segs.len(),
{
    let all = seg_views(segs);
    if n == segs.len() {
        assert(all.take(n) =~= all);
    } else {
        total_bytes_prefix(segs.drop_last(), n);
        assert(seg_views(segs.drop_last()) =~= all.drop_last());
        assert(all.drop_last().take(n) =~= all.take(n));
        seg_len_range(segs.last());
    }
}

} // verus!
