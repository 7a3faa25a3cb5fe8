//! What a layout is served as, once its streamed payloads are spliced in.

use crate::input::ArtInput;
use crate::input::BinaryTagInput;
use crate::layout::drafted;
use crate::layout::empty_draft;
use crate::layout::flushed;
use crate::layout::with_bytes;
use crate::layout::with_stream;
use crate::layout::DraftModel;
use crate::layout::SegView;
use vstd::prelude::*;

verus! {

/// Where streamed bytes come from: images by art id, binary payloads by payload id, and the
/// backing file.
pub ghost struct Sources {
    pub art: spec_fn(i64) -> Seq<u8>,
    pub payloads: spec_fn(i64) -> Seq<u8>,
    pub backing: Seq<u8>,
}

/// The sources hold what is to be streamed: each payload and each image has the length that
/// was declared for it.
pub open spec fn sources_hold(
    src: Sources,
    binary_tags: Seq<BinaryTagInput>,
    arts: Seq<ArtInput>,
) -> bool {
    &&& forall|i: int|
        0 <= i < binary_tags.len() ==> (src.payloads)((#[trigger] binary_tags[i]).payload_id).len()
            == binary_tags[i].len
    &&& forall|i: int|
        0 <= i < arts.len() ==> (src.art)((#[trigger] arts[i]).art_id).len() == arts[i].data_len
}

/// The bytes that a segment is served as. Ogg segments, whose bytes are computed on the way
/// out, are not covered.
pub open spec fn segment_bytes(src: Sources, s: SegView) -> Seq<u8> {
    match s {
        SegView::Inline(b) => b,
        SegView::ArtImage { art_id, .. } => (src.art)(art_id),
        SegView::BinaryTag { payload_id, .. } => (src.payloads)(payload_id),
        SegView::BackingAudio { offset, len } => src.backing.subrange(offset, offset + len),
        _ => Seq::empty(),
    }
}

/// The bytes that segments are served as.
pub open spec fn served_bytes(src: Sources, segs: Seq<SegView>) -> Seq<u8>
    decreases segs.len(),
{
    if segs.len() == 0 {
        Seq::empty()
    } else {
        served_bytes(src, segs.drop_last()) + segment_bytes(src, segs.last())
    }
}

/// The bytes that a draft is served as.
pub open spec fn served_draft(src: Sources, d: DraftModel) -> Seq<u8> {
    served_bytes(src, d.done) + d.pending
}

/// Appending a segment appends its bytes.
pub proof fn served_push(src: Sources, segs: Seq<SegView>, s: SegView)
    ensures
        served_bytes(src, segs.push(s)) == served_bytes(src, segs) + segment_bytes(src, s),
{
    assert(segs.push(s).drop_last() =~= segs);
}

/// Each step of a draft appends its bytes.
pub proof fn served_draft_adds_up(src: Sources, d: DraftModel, b: Seq<u8>, s: SegView)
    ensures
        served_bytes(src, drafted(d)) == served_draft(src, d),
        served_draft(src, with_bytes(d, b)) == served_draft(src, d) + b,
        served_draft(src, with_stream(d, s)) == served_draft(src, d) + segment_bytes(src, s),
        served_draft(src, empty_draft()) == Seq::<u8>::empty(),
{
    let f = flushed(d.done, d.pending);
    if d.pending.len() > 0 {
        served_push(src, d.done, SegView::Inline(d.pending));
    } else {
        assert(d.pending =~= Seq::empty());
        assert(served_bytes(src, d.done) + d.pending =~= served_bytes(src, d.done));
    }
    served_push(src, f, s);
    let t = with_stream(d, s);
    assert(served_bytes(src, t.done) + Seq::<u8>::empty() =~= served_bytes(src, t.done));
    assert(served_draft(src, with_bytes(d, b)) =~= served_draft(src, d) + b);
    assert(served_draft(src, empty_draft()) =~= Seq::<u8>::empty());
}

/// Segment lists joined are served one after the other.
pub proof fn served_concat(src: Sources, a: Seq<SegView>, b: Seq<SegView>)
    ensures
        served_bytes(src, a + b) == served_bytes(src, a) + served_bytes(src, b),
    decreases b.len(),
{
    if b.len() == 0 {
        assert(a + b =~= a);
        assert(served_bytes(src, a) + Seq::<u8>::empty() =~= served_bytes(src, a));
    } else {
        assert((a + b).drop_last() =~= a + b.drop_last());
        served_concat(src, a, b.drop_last());
        assert(served_bytes(src, a + b) =~= served_bytes(src, a) + served_bytes(src, b));
    }
}

} // verus!
