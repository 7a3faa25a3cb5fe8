//! Lacing a packet that holds art runs into layout segments, without storing the art.

use super::art_source::holds_window;
use super::art_source::ArtSource;
use super::b64::b64_len;
use super::b64::b64_size;
use super::b64::b64_text;
use super::b64::b64_window;
use super::b64::encode_b64_slice;
use super::b64::window_is_substring_of_full_text;
use super::crc::crc;
use super::crc::crc32_update;
use super::crc::crc_of;
use super::crc::crc_of_concat;
use super::page::lace_sum;
use super::page::lace_sum_concat;
use super::page::lace_sum_range;
use super::page::laced;
use super::page::lacing;
use super::page::lacing_sums_to_length;
use super::page::lacing_values;
use super::page::page;
use super::page::page_count;
use super::page::page_flags;
use super::page::page_header;
use super::page::page_share;
use super::page::pages_of;
use super::page::push_page_header;
use super::page::table_sum;
use super::page::FLAG_BOS;
use super::page::FLAG_CONTINUED;
use crate::bytes::append;
use crate::error::FormatError;
use crate::error::Result;
use crate::input::BlobLen;
use crate::layout::flushed;
use crate::layout::push_segment;
use crate::layout::seg_views;
use crate::layout::SegView;
use crate::layout::Segment;
use vstd::prelude::*;

verus! {

/// One span of a packet's payload during chunk-aware lacing.
pub enum PayloadChunk {
    /// Literal bytes copied verbatim into the layout as `Inline`.
    Bytes(Vec<u8>),
    /// An art run. Carries no bytes: its OUTPUT length is derived from `art_total`
    /// (base64-expanded when `base64`), and its bytes are streamed from an
    /// `ArtSource` to compute page CRCs, then never stored: the layout keeps an
    /// `OggArtSlice` referencing `art_id`. `art_total` is the raw image length.
    Art { art_id: i64, base64: bool, art_total: u64 },
}

/// A chunk as a mathematical value.
pub enum ChunkModel {
    Bytes(Seq<u8>),
    Art { art_id: i64, base64: bool, art_total: u64 },
}

/// What a chunk stands for.
pub open spec fn chunk_model(c: PayloadChunk) -> ChunkModel {
    match c {
        PayloadChunk::Bytes(b) => ChunkModel::Bytes(b@),
        PayloadChunk::Art { art_id, base64, art_total } => ChunkModel::Art {
            art_id,
            base64,
            art_total,
        },
    }
}

/// What a list of chunks stands for.
pub open spec fn chunk_models(s: Seq<PayloadChunk>) -> Seq<ChunkModel> {
    Seq::new(s.len(), |i: int| chunk_model(s[i]))
}

/// The output length of a chunk.
pub open spec fn chunk_len(c: ChunkModel) -> int {
    match c {
        ChunkModel::Bytes(b) => b.len() as int,
        ChunkModel::Art { base64, art_total, .. } => if base64 {
            b64_size(art_total as int)
        } else {
            art_total as int
        },
    }
}

/// The output length of a list of chunks.
pub open spec fn chunks_len(chunks: Seq<ChunkModel>) -> int
    decreases chunks.len(),
{
    if chunks.len() == 0 {
        0
    } else {
        chunks_len(chunks.drop_last()) + chunk_len(chunks.last())
    }
}

/// The output bytes of an art run over `image`.
pub open spec fn art_output(image: Seq<u8>, base64: bool, art_total: int) -> Seq<u8> {
    if base64 {
        b64_text(image.take(art_total))
    } else {
        image.take(art_total)
    }
}

/// The output bytes of a chunk, art taken from `images`.
pub open spec fn chunk_bytes(images: spec_fn(i64) -> Seq<u8>, c: ChunkModel) -> Seq<u8> {
    match c {
        ChunkModel::Bytes(b) => b,
        ChunkModel::Art { art_id, base64, art_total } => art_output(
            images(art_id),
            base64,
            art_total as int,
        ),
    }
}

/// The packet that a list of chunks makes, art taken from `images`.
pub open spec fn payload_bytes(
    images: spec_fn(i64) -> Seq<u8>,
    chunks: Seq<ChunkModel>,
) -> Seq<u8>
    decreases chunks.len(),
{
    if chunks.len() == 0 {
        Seq::empty()
    } else {
        payload_bytes(images, chunks.drop_last()) + chunk_bytes(images, chunks.last())
    }
}

/// The bytes that a segment of a header region is served as, art taken from `images`.
pub open spec fn served_segment(images: spec_fn(i64) -> Seq<u8>, s: SegView) -> Seq<u8> {
    match s {
        SegView::Inline(b) => b,
        SegView::OggArtSlice { art_id, offset, len, base64, art_total } => art_output(
            images(art_id),
            base64,
            art_total,
        ).subrange(offset, offset + len),
        _ => Seq::empty(),
    }
}

/// The bytes that a list of segments is served as, art taken from `images`.
pub open spec fn served(images: spec_fn(i64) -> Seq<u8>, segs: Seq<SegView>) -> Seq<u8>
    decreases segs.len(),
{
    if segs.len() == 0 {
        Seq::empty()
    } else {
        served(images, segs.drop_last()) + served_segment(images, segs.last())
    }
}

/// The images that a source holds.
pub open spec fn images_of<S: ArtSource>(src: &S) -> spec_fn(i64) -> Seq<u8> {
    |id: i64| src.image(id)->0
}

/// The image for an art run is stored, and is as long as the run says.
pub open spec fn art_available<S: ArtSource>(src: &S, c: ChunkModel) -> bool {
    match c {
        ChunkModel::Bytes(_) => true,
        ChunkModel::Art { art_id, art_total, .. } => art_total > 0 ==> holds_window(
            src.image(art_id),
            0,
            art_total as int,
        ),
    }
}

/// Every art run's image is stored in full.
pub open spec fn arts_available<S: ArtSource>(src: &S, chunks: Seq<ChunkModel>) -> bool {
    forall|k: int| 0 <= k < chunks.len() ==> #[trigger] art_available(src, chunks[k])
}

/// Segments and bytes pending after the first `k` chunks, for a page with header
/// `header` that carries the payload `[p0, end)`: literal spans gather behind what is
/// pending, an art span closes it and is named, not copied.
pub open spec fn emit_state(
    header: Seq<u8>,
    chunks: Seq<ChunkModel>,
    p0: int,
    end: int,
    k: nat,
) -> (Seq<SegView>, Seq<u8>)
    decreases k,
{
    if k == 0 {
        (Seq::empty(), header)
    } else {
        let (done, buf) = emit_state(header, chunks, p0, end, (k - 1) as nat);
        let c = chunks[k - 1];
        let cs = chunks_len(chunks.take(k - 1));
        let ce = cs + chunk_len(c);
        let os = if p0 > cs {
            p0
        } else {
            cs
        };
        let oe = if end < ce {
            end
        } else {
            ce
        };
        if os < oe {
            match c {
                ChunkModel::Bytes(b) => (done, buf + b.subrange(os - cs, oe - cs)),
                ChunkModel::Art { art_id, base64, art_total } => (
                    flushed(done, buf).push(
                        SegView::OggArtSlice {
                            art_id,
                            offset: os - cs,
                            len: oe - os,
                            base64,
                            art_total: art_total as int,
                        },
                    ),
                    Seq::empty(),
                ),
            }
        } else {
            (done, buf)
        }
    }
}

/// The segments of one page.
pub open spec fn page_segments(
    header: Seq<u8>,
    chunks: Seq<ChunkModel>,
    p0: int,
    end: int,
) -> Seq<SegView> {
    let (done, buf) = emit_state(header, chunks, p0, end, chunks.len());
    flushed(done, buf)
}

proof fn served_push(images: spec_fn(i64) -> Seq<u8>, segs: Seq<SegView>, s: SegView)
    ensures
        served(images, segs.push(s)) == served(images, segs) + served_segment(images, s),
{
    assert(segs.push(s).drop_last() =~= segs);
}

/// Joined segment lists are served one after the other.
pub proof fn served_concat(images: spec_fn(i64) -> Seq<u8>, a: Seq<SegView>, b: Seq<SegView>)
    ensures
        served(images, a + b) == served(images, a) + served(images, b),
    decreases b.len(),
{
    if b.len() == 0 {
        assert(a + b =~= a);
        assert(served(images, a) + Seq::<u8>::empty() =~= served(images, a));
    } else {
        assert((a + b).drop_last() =~= a + b.drop_last());
        served_concat(images, a, b.drop_last());
        assert(served(images, a) + served(images, b.drop_last()) + served_segment(
            images,
            b.last(),
        ) =~= served(images, a) + served(images, b));
    }
}

proof fn served_flushed(images: spec_fn(i64) -> Seq<u8>, done: Seq<SegView>, buf: Seq<u8>)
    ensures
        served(images, flushed(done, buf)) == served(images, done) + buf,
{
    if buf.len() == 0 {
        assert(served(images, done) + buf =~= served(images, done));
    } else {
        served_push(images, done, SegView::Inline(buf));
    }
}

proof fn chunk_len_nonneg(c: ChunkModel)
    ensures
        0 <= chunk_len(c),
{
}

proof fn chunks_len_prefix(chunks: Seq<ChunkModel>, k: int)
    requires
        0 <= k <= chunks.len(),
    ensures
        0 <= chunks_len(chunks.take(k)) <= chunks_len(chunks),
        k < chunks.len() ==> chunks_len(chunks.take(k + 1)) == chunks_len(chunks.take(k))
            + chunk_len(chunks[k]),
    decreases chunks.len(),
{
    if k == chunks.len() {
        assert(chunks.take(k) =~= chunks);
        if k > 0 {
            chunks_len_prefix(chunks.drop_last(), k - 1);
            chunk_len_nonneg(chunks.last());
            assert(chunks.drop_last() =~= chunks.take(k - 1));
        }
    } else {
        chunks_len_prefix(chunks.drop_last(), k);
        assert(chunks.drop_last().take(k) =~= chunks.take(k));
        assert(chunks.take(k + 1).drop_last() =~= chunks.take(k));
        chunk_len_nonneg(chunks.last());
    }
}

/// An available chunk has as many bytes as its length says.
proof fn chunk_bytes_len<S: ArtSource>(src: &S, c: ChunkModel)
    requires
        art_available(src, c),
    ensures
        chunk_bytes(images_of(src), c).len() == chunk_len(c),
{
    match c {
        ChunkModel::Art { art_id, art_total, .. } => {
            let img = images_of(src)(art_id);
            assert(img.take(art_total as int).len() == art_total);
        },
        _ => {},
    }
}

/// Where the bytes of the first `k` chunks lie in the packet.
pub proof fn payload_prefix<S: ArtSource>(src: &S, chunks: Seq<ChunkModel>, k: int)
    requires
        0 <= k <= chunks.len(),
        arts_available(src, chunks),
    ensures
        payload_bytes(images_of(src), chunks.take(k)).len() == chunks_len(chunks.take(k)),
        payload_bytes(images_of(src), chunks).len() == chunks_len(chunks),
        payload_bytes(images_of(src), chunks).subrange(0, chunks_len(chunks.take(k)))
            == payload_bytes(images_of(src), chunks.take(k)),
        0 <= chunks_len(chunks.take(k)) <= chunks_len(chunks),
    decreases chunks.len(),
{
    let images = images_of(src);
    chunks_len_prefix(chunks, k);
    if chunks.len() == 0 {
        assert(chunks.take(k) =~= chunks);
        assert(payload_bytes(images, chunks).subrange(0, 0) =~= Seq::<u8>::empty());
    } else {
        let before = chunks.drop_last();
        assert forall|j: int| 0 <= j < before.len() implies #[trigger] art_available(
            src,
            before[j],
        ) by {
            assert(before[j] == chunks[j]);
        }
        assert(art_available(src, chunks[chunks.len() - 1]));
        chunk_bytes_len(src, chunks.last());
        if k == chunks.len() {
            assert(chunks.take(k) =~= chunks);
            payload_prefix(src, before, before.len() as int);
            assert(payload_bytes(images, chunks).subrange(0, chunks_len(chunks)) =~= payload_bytes(
                images,
                chunks,
            ));
        } else {
            payload_prefix(src, before, k);
            assert(before.take(k) =~= chunks.take(k));
            assert(payload_bytes(images, chunks).subrange(0, chunks_len(chunks.take(k)))
                =~= payload_bytes(images, before).subrange(0, chunks_len(chunks.take(k))));
        }
    }
}

/// Where the bytes of chunk `k` lie in the packet.
proof fn payload_chunk<S: ArtSource>(src: &S, chunks: Seq<ChunkModel>, k: int)
    requires
        0 <= k < chunks.len(),
        arts_available(src, chunks),
    ensures
        payload_bytes(images_of(src), chunks).len() == chunks_len(chunks),
        chunks_len(chunks.take(k)) + chunk_len(chunks[k]) <= chunks_len(chunks),
        0 <= chunks_len(chunks.take(k)),
        payload_bytes(images_of(src), chunks).subrange(
            chunks_len(chunks.take(k)),
            chunks_len(chunks.take(k)) + chunk_len(chunks[k]),
        ) == chunk_bytes(images_of(src), chunks[k]),
{
    let images = images_of(src);
    payload_prefix(src, chunks, k);
    payload_prefix(src, chunks, k + 1);
    assert(chunks.take(k + 1).drop_last() =~= chunks.take(k));
    assert(art_available(src, chunks[k]));
    chunk_bytes_len(src, chunks[k]);
    let cs = chunks_len(chunks.take(k));
    let ce = cs + chunk_len(chunks[k]);
    let all = payload_bytes(images, chunks);
    assert(all.subrange(cs, ce) =~= all.subrange(0, ce).subrange(cs, ce));
    assert(all.subrange(0, ce).subrange(cs, ce) =~= chunk_bytes(images, chunks[k]));
}

/// How much of the image the first `o` output bytes of an art run need.
spec fn needed(c: ChunkModel, o: int) -> int {
    match c {
        ChunkModel::Bytes(_) => 0,
        ChunkModel::Art { base64, art_total, .. } => if base64 {
            let after = ((o - 1) / 4 + 1) * 3;
            if after < art_total {
                after
            } else {
                art_total as int
            }
        } else {
            o
        },
    }
}

/// The first `o` output bytes of chunk `c` have been read.
spec fn seen<S: ArtSource>(src: &S, c: ChunkModel, o: int) -> bool {
    match c {
        ChunkModel::Bytes(_) => true,
        ChunkModel::Art { art_id, .. } => o > 0 ==> holds_window(
            src.image(art_id),
            0,
            needed(c, o),
        ),
    }
}

/// The part of chunk `k` that lies before payload position `end`.
spec fn part_before(chunks: Seq<ChunkModel>, k: int, end: int) -> int {
    let cs = chunks_len(chunks.take(k));
    if end < cs + chunk_len(chunks[k]) {
        end - cs
    } else {
        chunk_len(chunks[k])
    }
}

/// The part of chunk `k` that lies before payload position `end` has been read.
spec fn chunk_seen<S: ArtSource>(src: &S, chunks: Seq<ChunkModel>, k: int, end: int) -> bool {
    seen(src, chunks[k], part_before(chunks, k, end))
}

/// All that lies before payload position `end` has been read.
spec fn seen_to<S: ArtSource>(src: &S, chunks: Seq<ChunkModel>, end: int) -> bool {
    forall|k: int| 0 <= k < chunks.len() ==> #[trigger] chunk_seen(src, chunks, k, end)
}

/// The chunks hold no art to read.
pub open spec fn no_art(chunks: Seq<ChunkModel>) -> bool {
    forall|k: int| 0 <= k < chunks.len() ==> #[trigger] chunks[k] is Bytes
}

/// Chunks without art have none that is missing.
pub proof fn no_art_no_missing<S: ArtSource>(src: &S, chunks: Seq<ChunkModel>)
    requires
        no_art(chunks),
    ensures
        first_missing(src, chunks) is None,
        arts_available(src, chunks),
{
    assert forall|k: int| 0 <= k < chunks.len() implies #[trigger] art_available(
        src,
        chunks[k],
    ) by {
        assert(chunks[k] is Bytes);
    }
    none_missing(src, chunks);
}

/// The id of the first image that is not stored as its run says.
pub open spec fn first_missing<S: ArtSource>(src: &S, chunks: Seq<ChunkModel>) -> Option<i64>
    decreases chunks.len(),
{
    if chunks.len() == 0 {
        None
    } else {
        match first_missing(src, chunks.drop_last()) {
            Some(id) => Some(id),
            None => match chunks.last() {
                ChunkModel::Art { art_id, .. } if !art_available(src, chunks.last()) => Some(
                    art_id,
                ),
                _ => None,
            },
        }
    }
}

/// No image is missing exactly when all are available.
pub proof fn none_missing<S: ArtSource>(src: &S, chunks: Seq<ChunkModel>)
    ensures
        first_missing(src, chunks) is None <==> arts_available(src, chunks),
    decreases chunks.len(),
{
    if chunks.len() > 0 {
        let front = chunks.drop_last();
        none_missing(src, front);
        if arts_available(src, chunks) {
            assert forall|k: int| 0 <= k < front.len() implies #[trigger] art_available(
                src,
                front[k],
            ) by {
                assert(art_available(src, chunks[k]));
            }
            assert(art_available(src, chunks[chunks.len() - 1]));
        }
        if first_missing(src, chunks) is None {
            assert forall|k: int| 0 <= k < chunks.len() implies #[trigger] art_available(
                src,
                chunks[k],
            ) by {
                if k < front.len() {
                    assert(art_available(src, front[k]));
                }
            }
        }
    }
}

/// The first image that is not available is the first missing.
proof fn missing_at<S: ArtSource>(src: &S, chunks: Seq<ChunkModel>, k: int, id: i64)
    requires
        0 <= k < chunks.len(),
        forall|j: int| 0 <= j < k ==> #[trigger] art_available(src, chunks[j]),
        !art_available(src, chunks[k]),
        chunks[k] matches ChunkModel::Art { art_id, .. } && art_id == id,
    ensures
        first_missing(src, chunks) == Some(id),
    decreases chunks.len(),
{
    let front = chunks.drop_last();
    if k < front.len() {
        assert forall|j: int| 0 <= j < k implies #[trigger] art_available(src, front[j]) by {
            assert(art_available(src, chunks[j]));
        }
        assert(front[k] == chunks[k]);
        missing_at(src, front, k, id);
    } else {
        assert forall|j: int| 0 <= j < front.len() implies #[trigger] art_available(
            src,
            front[j],
        ) by {
            assert(art_available(src, chunks[j]));
        }
        none_missing(src, front);
    }
}

/// When the whole packet has been read, every image was there.
proof fn all_seen_is_available<S: ArtSource>(src: &S, chunks: Seq<ChunkModel>)
    requires
        seen_to(src, chunks, chunks_len(chunks)),
    ensures
        arts_available(src, chunks),
{
    assert forall|k: int| 0 <= k < chunks.len() implies #[trigger] art_available(
        src,
        chunks[k],
    ) by {
        chunks_len_prefix(chunks, k);
        chunks_len_prefix(chunks, k + 1);
        let c = chunks[k];
        assert(part_before(chunks, k, chunks_len(chunks)) == chunk_len(c));
        assert(chunk_seen(src, chunks, k, chunks_len(chunks)));
        assert(seen(src, c, chunk_len(c)));
    }
}

/// A chunk read before another, which begins before `end`, was read in full.
proof fn seen_before<S: ArtSource>(src: &S, chunks: Seq<ChunkModel>, j: int, i: int, end: int)
    requires
        0 <= j < i < chunks.len(),
        chunks_len(chunks.take(i)) <= end,
        chunk_seen(src, chunks, j, end),
    ensures
        art_available(src, chunks[j]),
{
    let front = chunks.take(i);
    chunks_len_prefix(front, j);
    chunks_len_prefix(front, j + 1);
    assert(front.take(j) =~= chunks.take(j));
    assert(front[j] == chunks[j]);
    let c = chunks[j];
    assert(part_before(chunks, j, end) == chunk_len(c));
    assert(seen(src, c, chunk_len(c)));
}

impl PayloadChunk {
    /// The output length of this chunk.
    fn out_len(&self) -> (r: u64)
        requires
            chunk_len(chunk_model(*self)) <= u64::MAX,
        ensures
            r == chunk_len(chunk_model(*self)),
    {
        match self {
            PayloadChunk::Bytes(b) => b.len() as u64,
            PayloadChunk::Art { base64, art_total, .. } => if *base64 {
                b64_len(*art_total)
            } else {
                *art_total
            },
        }
    }

    /// The output length of this chunk, or `None` where it is beyond 64 bits.
    fn out_len_checked(&self) -> (r: Option<u64>)
        ensures
            match r {
                Some(n) => n == chunk_len(chunk_model(*self)),
                None => chunk_len(chunk_model(*self)) > u64::MAX,
            },
    {
        match self {
            PayloadChunk::Bytes(b) => Some(b.len() as u64),
            PayloadChunk::Art { base64, art_total, .. } => if *base64 {
                super::b64::b64_len_checked(*art_total)
            } else {
                Some(*art_total)
            },
        }
    }
}

/// The length of the packet, or `None` where it does not fit a `usize`.
fn packet_len(chunks: &[PayloadChunk]) -> (r: Option<usize>)
    ensures
        match r {
            Some(n) => n == chunks_len(chunk_models(chunks@)),
            None => chunks_len(chunk_models(chunks@)) > usize::MAX,
        },
{
    let ghost cm = chunk_models(chunks@);
    let mut total: u64 = 0;
    let mut i: usize = 0;
    while i < chunks.len()
        invariant
            i <= cm.len(),
            cm == chunk_models(chunks@),
            total == chunks_len(cm.take(i as int)),
        decreases cm.len() - i,
    {
        proof {
            chunks_len_prefix(cm, i as int);
            chunks_len_prefix(cm, i + 1);
        }
        match chunks[i].out_len_checked() {
            Some(n) => match total.checked_add(n) {
                Some(t) => {
                    total = t;
                },
                None => {
                    return None;
                },
            },
            None => {
                return None;
            },
        }
        i = i + 1;
    }
    assert(cm.take(i as int) =~= cm);
    if total > usize::MAX as u64 {
        return None;
    }
    Some(total as usize)
}

/// The most payload that one page carries.
pub const MAX_PAGE_PAYLOAD: usize = 65_025;

/// The window of an image that `len` output bytes of its run from `off` on need: offset and
/// length. They are the bytes themselves, or the base64 groups that the characters belong to.
pub open spec fn art_window(base64: bool, art_total: int, off: int, len: int) -> (int, int) {
    if base64 {
        let first = off / 4 * 3;
        let after = ((off + len - 1) / 4 + 1) * 3;
        (
            first,
            if after < art_total {
                after - first
            } else {
                art_total - first
            },
        )
    } else {
        (off, len)
    }
}

/// Every window of an image that lacing reads is bounded: whatever part of a run a page
/// carries, its window is not empty, lies within the image, and is no longer than the payload
/// of one page.
pub proof fn art_windows_are_bounded(base64: bool, art_total: u64, off: int, len: int)
    requires
        0 <= off,
        0 < len <= MAX_PAGE_PAYLOAD,
        off + len <= if base64 {
            b64_size(art_total as int)
        } else {
            art_total as int
        },
    ensures
        ({
            let (start, n) = art_window(base64, art_total as int, off, len);
            page_window(start, n, art_total as int)
        }),
{
}

/// A window of an image that lacing may read: not empty, no longer than one page's payload,
/// and within the image as long as its run says it is.
pub open spec fn page_window(offset: int, len: int, art_total: int) -> bool {
    0 < len <= MAX_PAGE_PAYLOAD && 0 <= offset && offset + len <= art_total
}

/// Read what `out_len` output bytes of an art run from `out_off` on need of its image: one
/// window, never empty, within the image and never longer than the payload of one page.
/// Lacing reads art here and nowhere else.
pub fn read_page_window<S: ArtSource>(
    src: &S,
    art_id: i64,
    base64: bool,
    art_total: u64,
    out_off: u64,
    out_len: usize,
) -> (r: Result<Vec<u8>>)
    requires
        0 < out_len <= MAX_PAGE_PAYLOAD,
        out_off + out_len <= chunk_len((ChunkModel::Art { art_id, base64, art_total })),
        chunk_len((ChunkModel::Art { art_id, base64, art_total })) <= u64::MAX,
    ensures
        ({
            let (start, n) = art_window(
                base64,
                art_total as int,
                out_off as int,
                out_len as int,
            );
            &&& page_window(start, n, art_total as int)
            &&& match r {
                Ok(v) => holds_window(src.image(art_id), start, n) && v@ == src.image(
                    art_id,
                )->0.subrange(start, start + n),
                Err(e) => src.is_reliable() ==> !holds_window(src.image(art_id), start, n) && e == (
                FormatError::ArtRead { art_id }),
            }
        }),
{
    proof {
        art_windows_are_bounded(base64, art_total, out_off as int, out_len as int);
    }
    let (start, n): (u64, u64) = if base64 {
        let w = b64_window(out_off, out_len as u64, art_total);
        (w.in_start, w.in_len)
    } else {
        (out_off, out_len as u64)
    };
    let mut raw: Vec<u8> = vec![0u8; n as usize];
    match src.read_window(art_id, start, raw.as_mut_slice()) {
        Ok(_) => Ok(raw),
        Err(e) => Err(e),
    }
}

/// Fold one art window, output bytes `[out_off, out_off+out_len)` of the run,
/// into `crc`, base64-encoding on the fly when `base64`. `out_len` is page-bounded.
fn crc_feed_art<S: ArtSource>(
    crc: u32,
    src: &S,
    art_id: i64,
    base64: bool,
    art_total: u64,
    out_off: u64,
    out_len: usize,
) -> (r: Result<u32>)
    requires
        0 < out_len <= MAX_PAGE_PAYLOAD,
        out_off + out_len <= chunk_len((ChunkModel::Art { art_id, base64, art_total })),
        chunk_len((ChunkModel::Art { art_id, base64, art_total })) <= u64::MAX,
    ensures
        ({
            let c = ChunkModel::Art { art_id, base64, art_total };
            match r {
                Ok(v) => seen(src, c, out_off + out_len) && (art_available(src, c) ==> v == crc_of(
                    crc,
                    chunk_bytes(images_of(src), c).subrange(out_off as int, out_off + out_len),
                )),
                Err(e) => src.is_reliable() ==> !art_available(src, c) && e == (
                FormatError::ArtRead { art_id }),
            }
        }),
{
    let ghost c = ChunkModel::Art { art_id, base64, art_total };
    let raw = match read_page_window(src, art_id, base64, art_total, out_off, out_len) {
        Ok(v) => v,
        Err(e) => {
            return Err(e);
        },
    };
    let ghost img = src.image(art_id)->0;
    if base64 {
        let w = b64_window(out_off, out_len as u64, art_total);
        assert(w.in_start + w.in_len == needed(c, out_off + out_len));
        proof {
            let whole = Seq::new(art_total as nat, |i: int| 0u8);
            window_is_substring_of_full_text(whole, out_off as int, out_len as int, w);
            if art_available(src, c) {
                let image = img.take(art_total as int);
                window_is_substring_of_full_text(image, out_off as int, out_len as int, w);
                assert(raw@ =~= image.subrange(w.in_start as int, w.in_start + w.in_len));
            }
        }
        match encode_b64_slice(raw.as_slice(), w.skip, out_len) {
            Some(enc) => Ok(crc32_update(crc, enc.as_slice())),
            None => Err(FormatError::ArtRead { art_id }),
        }
    } else {
        proof {
            if art_available(src, c) {
                assert(raw@ =~= img.take(art_total as int).subrange(
                    out_off as int,
                    out_off + out_len,
                ));
            }
        }
        Ok(crc32_update(crc, raw.as_slice()))
    }
}

/// `x` brought into `[lo, hi]`.
spec fn clamp(x: int, lo: int, hi: int) -> int {
    if x < lo {
        lo
    } else if x > hi {
        hi
    } else {
        x
    }
}

/// Fold the output bytes `[off, off+len)` of one chunk into `crc`.
fn crc_feed_chunk<S: ArtSource>(
    crc: u32,
    chunk: &PayloadChunk,
    src: &S,
    off: usize,
    len: usize,
) -> (r: Result<u32>)
    requires
        0 < len <= MAX_PAGE_PAYLOAD,
        off + len <= chunk_len(chunk_model(*chunk)) <= u64::MAX,
    ensures
        match r {
            Ok(v) => seen(src, chunk_model(*chunk), off + len) && (art_available(src, chunk_model(*chunk)) ==> v == crc_of(
                crc,
                chunk_bytes(images_of(src), chunk_model(*chunk)).subrange(off as int, off + len),
            )),
            Err(e) => *chunk is Art && (src.is_reliable() ==> !art_available(
                src,
                chunk_model(*chunk),
            ) && match *chunk {
                PayloadChunk::Art { art_id, .. } => e == (FormatError::ArtRead { art_id }),
                PayloadChunk::Bytes(_) => false,
            }),
        },
{
    match chunk {
        PayloadChunk::Bytes(b) => {
            let n: usize = b.len();
            assert(off + len <= n);
            Ok(crc32_update(crc, vstd::slice::slice_subrange(b.as_slice(), off, off + len)))
        },
        PayloadChunk::Art { art_id, base64, art_total } => crc_feed_art(
            crc,
            src,
            *art_id,
            *base64,
            *art_total,
            off as u64,
            len,
        ),
    }
}

/// Feeding a span of chunk `k` behind what was fed of the packet up to that span.
proof fn fed_span<S: ArtSource>(
    src: &S,
    chunks: Seq<ChunkModel>,
    k: int,
    crc: u32,
    p0: int,
    os: int,
    oe: int,
)
    requires
        arts_available(src, chunks),
        0 <= k < chunks.len(),
        0 <= p0 <= os < oe,
        chunks_len(chunks.take(k)) <= os,
        oe <= chunks_len(chunks.take(k)) + chunk_len(chunks[k]),
    ensures
        ({
            let all = payload_bytes(images_of(src), chunks);
            let cs = chunks_len(chunks.take(k));
            crc_of(
                crc_of(crc, all.subrange(p0, os)),
                chunk_bytes(images_of(src), chunks[k]).subrange(os - cs, oe - cs),
            ) == crc_of(crc, all.subrange(p0, oe))
        }),
{
    let all = payload_bytes(images_of(src), chunks);
    let cs = chunks_len(chunks.take(k));
    let ce = cs + chunk_len(chunks[k]);
    payload_chunk(src, chunks, k);
    assert(all.subrange(cs, ce).subrange(os - cs, oe - cs) =~= all.subrange(os, oe));
    crc_of_concat(crc, all.subrange(p0, os), all.subrange(os, oe));
    assert(all.subrange(p0, os) + all.subrange(os, oe) =~= all.subrange(p0, oe));
}

/// Fold payload bytes `[p0, p0+plen)` (packet-payload coordinates) into `crc`,
/// reading art runs from `src` instead of materializing them.
fn crc_feed_payload<S: ArtSource>(
    crc: u32,
    chunks: &[PayloadChunk],
    src: &S,
    p0: usize,
    plen: usize,
) -> (r: Result<u32>)
    requires
        plen <= MAX_PAGE_PAYLOAD,
        p0 + plen <= chunks_len(chunk_models(chunks@)) <= usize::MAX,
        seen_to(src, chunk_models(chunks@), p0 as int),
    ensures
        match r {
            Ok(v) => {
                &&& seen_to(src, chunk_models(chunks@), p0 + plen)
                &&& arts_available(src, chunk_models(chunks@)) ==> v == crc_of(
                    crc,
                    payload_bytes(images_of(src), chunk_models(chunks@)).subrange(p0 as int, p0 + plen),
                )
            },
            Err(e) => !no_art(chunk_models(chunks@)) && (src.is_reliable() ==> match first_missing(
                src,
                chunk_models(chunks@),
            ) {
                Some(art_id) => e == (FormatError::ArtRead { art_id }),
                None => false,
            }),
        },
{
    let ghost cm = chunk_models(chunks@);
    let ghost all = payload_bytes(images_of(src), cm);
    let end: usize = p0 + plen;
    let mut acc: u32 = crc;
    let mut cs: usize = 0;
    let mut i: usize = 0;
    proof {
        assert(cm.take(0) =~= Seq::<ChunkModel>::empty());
        if arts_available(src, cm) {
            payload_prefix(src, cm, 0);
            assert(all.subrange(p0 as int, p0 as int) =~= Seq::<u8>::empty());
        }
    }
    while i < chunks.len()
        invariant
            i <= cm.len(),
            cm == chunk_models(chunks@),
            plen <= MAX_PAGE_PAYLOAD,
            end == p0 + plen,
            end <= chunks_len(cm) <= usize::MAX,
            cs == chunks_len(cm.take(i as int)),
            all == payload_bytes(images_of(src), cm),
            seen_to(src, cm, p0 as int),
            forall|k: int| 0 <= k < i ==> #[trigger] chunk_seen(src, cm, k, end as int),
            arts_available(src, cm) ==> acc == crc_of(
                crc,
                all.subrange(p0 as int, clamp(cs as int, p0 as int, end as int)),
            ),
        decreases cm.len() - i,
    {
        proof {
            chunks_len_prefix(cm, i as int);
            chunks_len_prefix(cm, i + 1);
        }
        let ce: usize = cs + chunks[i].out_len() as usize;
        let os: usize = if p0 > cs {
            p0
        } else {
            cs
        };
        let oe: usize = if end < ce {
            end
        } else {
            ce
        };
        assert(chunk_seen(src, cm, i as int, p0 as int));
        if os < oe {
            match crc_feed_chunk(acc, &chunks[i], src, os - cs, oe - os) {
                Ok(v) => {
                    proof {
                        if arts_available(src, cm) {
                            assert(art_available(src, cm[i as int]));
                            fed_span(src, cm, i as int, crc, p0 as int, os as int, oe as int);
                        }
                    }
                    acc = v;
                },
                Err(e) => {
                    proof {
                        assert(!(cm[i as int] is Bytes));
                        if src.is_reliable() {
                            assert forall|j: int| 0 <= j < i implies #[trigger] art_available(
                                src,
                                cm[j],
                            ) by {
                                seen_before(src, cm, j, i as int, end as int);
                            }
                            if let ChunkModel::Art { art_id, .. } = cm[i as int] {
                                missing_at(src, cm, i as int, art_id);
                            }
                        }
                    }
                    return Err(e);
                },
            }
        }
        cs = ce;
        i = i + 1;
    }
    proof {
        assert(cm.take(i as int) =~= cm);
    }
    Ok(acc)
}

/// The segments emitted for the first `k` chunks are served as the header and the part
/// of the payload that those chunks give.
proof fn emitted_is_served<S: ArtSource>(
    src: &S,
    header: Seq<u8>,
    chunks: Seq<ChunkModel>,
    p0: int,
    end: int,
    k: nat,
)
    requires
        arts_available(src, chunks),
        0 <= p0 <= end <= chunks_len(chunks),
        k <= chunks.len(),
    ensures
        ({
            let (done, buf) = emit_state(header, chunks, p0, end, k);
            served(images_of(src), done) + buf == header + payload_bytes(
                images_of(src),
                chunks,
            ).subrange(p0, clamp(chunks_len(chunks.take(k as int)), p0, end))
        }),
    decreases k,
{
    let images = images_of(src);
    let all = payload_bytes(images, chunks);
    let (done, buf) = emit_state(header, chunks, p0, end, k);
    payload_prefix(src, chunks, k as int);
    if k == 0 {
        assert(chunks.take(0) =~= Seq::<ChunkModel>::empty());
        assert(served(images, done) + buf =~= header + all.subrange(p0, p0));
    } else {
        let j = k - 1;
        emitted_is_served(src, header, chunks, p0, end, j as nat);
        let (done0, buf0) = emit_state(header, chunks, p0, end, j as nat);
        let c = chunks[j];
        let cs = chunks_len(chunks.take(j));
        let ce = cs + chunk_len(c);
        chunks_len_prefix(chunks, j);
        payload_chunk(src, chunks, j);
        let os = if p0 > cs {
            p0
        } else {
            cs
        };
        let oe = if end < ce {
            end
        } else {
            ce
        };
        if os < oe {
            let span = all.subrange(os, oe);
            assert(all.subrange(cs, ce).subrange(os - cs, oe - cs) =~= span);
            assert(header + all.subrange(p0, os) + span =~= header + all.subrange(p0, oe));
            match c {
                ChunkModel::Bytes(b) => {
                    assert(served(images, done) + buf =~= served(images, done0) + buf0 + span);
                },
                ChunkModel::Art { art_id, base64, art_total } => {
                    let s = SegView::OggArtSlice {
                        art_id,
                        offset: os - cs,
                        len: oe - os,
                        base64,
                        art_total: art_total as int,
                    };
                    served_flushed(images, done0, buf0);
                    served_push(images, flushed(done0, buf0), s);
                    assert(served_segment(images, s) =~= span);
                    assert(served(images, done) + buf =~= served(images, done0) + buf0 + span);
                },
            }
        }
    }
}

/// The segments of one page are served as its header and its payload.
proof fn page_segments_served<S: ArtSource>(
    src: &S,
    header: Seq<u8>,
    chunks: Seq<ChunkModel>,
    p0: int,
    end: int,
)
    requires
        arts_available(src, chunks),
        0 <= p0 <= end <= chunks_len(chunks),
    ensures
        served(images_of(src), page_segments(header, chunks, p0, end)) == header
            + payload_bytes(images_of(src), chunks).subrange(p0, end),
{
    emitted_is_served(src, header, chunks, p0, end, chunks.len());
    let (done, buf) = emit_state(header, chunks, p0, end, chunks.len());
    served_flushed(images_of(src), done, buf);
    assert(chunks.take(chunks.len() as int) =~= chunks);
}

/// Emit the page header + payload `[p0, p0+plen)` as layout segments: `Inline` for
/// the header and literal byte spans, `OggArtSlice` for art spans.
fn emit_segments(
    segments: &mut Vec<Segment>,
    header: Vec<u8>,
    chunks: &[PayloadChunk],
    p0: usize,
    plen: usize,
)
    requires
        p0 + plen <= chunks_len(chunk_models(chunks@)) <= usize::MAX,
    ensures
        seg_views(final(segments)@) == seg_views(old(segments)@) + page_segments(
            header@,
            chunk_models(chunks@),
            p0 as int,
            p0 + plen,
        ),
{
    let ghost cm = chunk_models(chunks@);
    let end: usize = p0 + plen;
    let ghost start = seg_views(segments@);
    let ghost head = header@;
    let mut buf: Vec<u8> = header;
    let mut cs: usize = 0;
    let mut i: usize = 0;
    proof {
        assert(cm.take(0) =~= Seq::<ChunkModel>::empty());
        assert(seg_views(segments@) =~= start + Seq::<SegView>::empty());
    }
    while i < chunks.len()
        invariant
            i <= cm.len(),
            cm == chunk_models(chunks@),
            end == p0 + plen,
            end <= chunks_len(cm) <= usize::MAX,
            cs == chunks_len(cm.take(i as int)),
            seg_views(segments@) == start + emit_state(
                head,
                cm,
                p0 as int,
                end as int,
                i as nat,
            ).0,
            buf@ == emit_state(head, cm, p0 as int, end as int, i as nat).1,
        decreases cm.len() - i,
    {
        proof {
            chunks_len_prefix(cm, i as int);
            chunks_len_prefix(cm, i + 1);
        }
        let ghost done = emit_state(head, cm, p0 as int, end as int, i as nat).0;
        let ce: usize = cs + chunks[i].out_len() as usize;
        let os: usize = if p0 > cs {
            p0
        } else {
            cs
        };
        let oe: usize = if end < ce {
            end
        } else {
            ce
        };
        if os < oe {
            match &chunks[i] {
                PayloadChunk::Bytes(b) => {
                    append(
                        &mut buf,
                        vstd::slice::slice_subrange(b.as_slice(), os - cs, oe - cs),
                    );
                },
                PayloadChunk::Art { art_id, base64, art_total } => {
                    if let Some(len) = BlobLen::new((oe - os) as u64) {
                        let ghost pending = buf@;
                        if buf.len() > 0 {
                            push_segment(segments, Segment::Inline(buf));
                            buf = Vec::new();
                        }
                        assert(seg_views(segments@) =~= start + flushed(done, pending));
                        push_segment(
                            segments,
                            Segment::OggArtSlice {
                                art_id: *art_id,
                                offset: (os - cs) as u64,
                                len,
                                base64: *base64,
                                art_total: *art_total,
                            },
                        );
                        assert(seg_views(segments@) =~= start + emit_state(
                            head,
                            cm,
                            p0 as int,
                            end as int,
                            (i + 1) as nat,
                        ).0);
                        assert(buf@ =~= Seq::<u8>::empty());
                    }
                },
            }
        }
        cs = ce;
        i = i + 1;
    }
    if buf.len() > 0 {
        push_segment(segments, Segment::Inline(buf));
    }
    assert(seg_views(segments@) =~= start + page_segments(
        head,
        cm,
        p0 as int,
        end as int,
    ));
}

/// The segments of the pages that carry `payload`, from position `p0` on, under the
/// lacing values `laces`.
pub open spec fn segments_of(
    serial: u32,
    seq: u32,
    bos: bool,
    first: bool,
    laces: Seq<u8>,
    chunks: Seq<ChunkModel>,
    p0: int,
    payload: Seq<u8>,
) -> Seq<SegView>
    decreases laces.len(),
{
    let k = page_share(laces.len() as int);
    let n = lace_sum(laces.take(k));
    let flags = page_flags(bos, first);
    let c = crc(
        page_header(flags, 0, serial, seq, 0, laces.take(k)) + payload.subrange(p0, p0 + n),
    );
    let head = page_segments(
        page_header(flags, 0, serial, seq, c, laces.take(k)),
        chunks,
        p0,
        p0 + n,
    );
    if laces.len() > 255 {
        head + segments_of(
            serial,
            (seq + 1) as u32,
            bos,
            false,
            laces.skip(k),
            chunks,
            p0 + n,
            payload,
        )
    } else {
        head
    }
}

/// The segments are served as the pages that lacing the whole packet gives.
pub proof fn segments_served<S: ArtSource>(
    src: &S,
    serial: u32,
    seq: u32,
    bos: bool,
    first: bool,
    laces: Seq<u8>,
    chunks: Seq<ChunkModel>,
    p0: int,
)
    requires
        arts_available(src, chunks),
        0 <= p0,
        p0 + lace_sum(laces) == chunks_len(chunks),
        seq + laces.len() / 255 <= u32::MAX,
    ensures
        ({
            let all = payload_bytes(images_of(src), chunks);
            served(images_of(src), segments_of(serial, seq, bos, first, laces, chunks, p0, all))
                == pages_of(serial, seq, bos, first, 0, laces, all.skip(p0))
        }),
    decreases laces.len(),
{
    reveal(page);
    let images = images_of(src);
    let all = payload_bytes(images, chunks);
    let k = page_share(laces.len() as int);
    let table = laces.take(k);
    let n = lace_sum(table);
    assert(laces =~= table + laces.skip(k));
    lace_sum_concat(table, laces.skip(k));
    lace_sum_range(table);
    lace_sum_range(laces.skip(k));
    payload_prefix(src, chunks, 0);
    let flags = page_flags(bos, first);
    let body = all.subrange(p0, p0 + n);
    assert(all.skip(p0).take(n) =~= body);
    let c = crc(page_header(flags, 0, serial, seq, 0, table) + body);
    let head = page_header(flags, 0, serial, seq, c, table);
    page_segments_served(src, head, chunks, p0, p0 + n);
    if laces.len() > 255 {
        let rest = segments_of(
            serial,
            (seq + 1) as u32,
            bos,
            false,
            laces.skip(k),
            chunks,
            p0 + n,
            all,
        );
        segments_served(
            src,
            serial,
            (seq + 1) as u32,
            bos,
            false,
            laces.skip(k),
            chunks,
            p0 + n,
        );
        assert(all.skip(p0).skip(n) =~= all.skip(p0 + n));
        served_concat(images, page_segments(head, chunks, p0, p0 + n), rest);
    }
}

/// The packet's length fits, and so do the sequence numbers of its pages.
pub open spec fn lacing_fits(seq_start: u32, chunks: Seq<ChunkModel>) -> bool {
    &&& chunks_len(chunks) <= usize::MAX
    &&& seq_start + page_count(chunks_len(chunks)) <= u32::MAX
}

/// Lace one packet (a chunk list) into pages from sequence `seq_start`, emitting
/// layout segments: page headers + literal payload as `Inline` (CRCs baked in),
/// art runs as `OggArtSlice` (no bytes stored). Art bytes are streamed from `src`
/// only to compute page CRCs. Returns `(segments, pages_used)`. Served with the art of
/// `src`, the segments are the pages that lacing the whole packet gives.
#[verifier::spinoff_prover]
#[verifier::rlimit(60)]
pub fn lace_chunks_to_segments<S: ArtSource>(
    serial: u32,
    seq_start: u32,
    bos: bool,
    chunks: &[PayloadChunk],
    src: &S,
) -> (r: Result<(Vec<Segment>, u32)>)
    ensures
        !lacing_fits(seq_start, chunk_models(chunks@)) ==> r == Err::<(Vec<Segment>, u32), FormatError>(
            FormatError::TooLarge,
        ),
        lacing_fits(seq_start, chunk_models(chunks@)) && no_art(chunk_models(chunks@)) ==> r is Ok,
        match r {
            Ok((segs, pages)) => {
                let all = payload_bytes(images_of(src), chunk_models(chunks@));
                &&& lacing_fits(seq_start, chunk_models(chunks@))
                &&& arts_available(src, chunk_models(chunks@))
                &&& pages == page_count(chunks_len(chunk_models(chunks@)))
                &&& all.len() == chunks_len(chunk_models(chunks@))
                &&& seg_views(segs@) == segments_of(
                    serial,
                    seq_start,
                    bos,
                    true,
                    lacing(chunks_len(chunk_models(chunks@))),
                    chunk_models(chunks@),
                    0,
                    all,
                )
                &&& served(images_of(src), seg_views(segs@)) == laced(
                    serial,
                    seq_start,
                    bos,
                    0,
                    all,
                )
            },
            Err(e) => lacing_fits(seq_start, chunk_models(chunks@)) && (src.is_reliable() || no_art(
                chunk_models(chunks@),
            )) ==> match first_missing(src, chunk_models(chunks@)) {
                Some(art_id) => e == (FormatError::ArtRead { art_id }),
                None => false,
            },
        },
{
    let ghost cm = chunk_models(chunks@);
    proof {
        if no_art(cm) {
            no_art_no_missing(src, cm);
        }
    }
    let total: usize = match packet_len(chunks) {
        Some(n) => n,
        None => {
            return Err(FormatError::TooLarge);
        },
    };
    let pages: usize = total / 255 / 255 + 1;
    if pages > (u32::MAX - seq_start) as usize {
        return Err(FormatError::TooLarge);
    }
    let laces = lacing_values(total);
    let ghost all = payload_bytes(images_of(src), cm);
    let ghost avail = arts_available(src, cm);
    let mut segments: Vec<Segment> = Vec::new();
    let mut seq: u32 = seq_start;
    let mut lace_pos: usize = 0;
    let mut payload_pos: usize = 0;
    let mut first: bool = true;
    let ghost goal = segments_of(serial, seq_start, bos, true, laces@, cm, 0, all);
    proof {
        lacing_sums_to_length(total as int);
        assert(laces@.skip(0) =~= laces@);
        assert(seg_views(segments@) + goal =~= goal);
        assert forall|k: int| 0 <= k < cm.len() implies #[trigger] chunk_seen(
            src,
            cm,
            k,
            0,
        ) by {
            chunks_len_prefix(cm, k);
        }
    }
    while lace_pos < laces.len()
        invariant
            lace_pos <= laces@.len(),
            cm == chunk_models(chunks@),
            total == chunks_len(cm),
            laces@ == lacing(total as int),
            all == payload_bytes(images_of(src), cm),
            avail == arts_available(src, cm),
            payload_pos <= total,
            lace_sum(laces@.skip(lace_pos as int)) == total - payload_pos,
            first == (lace_pos == 0),
            seq >= seq_start,
            pages == total / 255 / 255 + 1,
            seq_start + pages <= u32::MAX,
            lace_pos < laces@.len() ==> lace_pos == 255 * (seq - seq_start),
            lace_pos == laces@.len() ==> 255 * (seq - seq_start - 1) < lace_pos <= 255 * (seq
                - seq_start),
            seen_to(src, cm, payload_pos as int),
            avail && lace_pos < laces@.len() ==> seg_views(segments@) + segments_of(
                serial,
                seq,
                bos,
                first,
                laces@.skip(lace_pos as int),
                cm,
                payload_pos as int,
                all,
            ) == goal,
            avail && lace_pos == laces@.len() ==> seg_views(segments@) == goal,
            lacing_fits(seq_start, cm),
        decreases laces@.len() - lace_pos,
    {
        let left: usize = laces.len() - lace_pos;
        let seg_count: usize = if left < 255 {
            left
        } else {
            255
        };
        let table = vstd::slice::slice_subrange(laces.as_slice(), lace_pos, lace_pos + seg_count);
        let page_payload: usize = table_sum(table);
        let ghost rest = laces@.skip(lace_pos as int);
        proof {
            assert(table@ =~= rest.take(seg_count as int));
            assert(rest =~= rest.take(seg_count as int) + rest.skip(seg_count as int));
            lace_sum_concat(rest.take(seg_count as int), rest.skip(seg_count as int));
            lace_sum_range(rest.skip(seg_count as int));
            lace_sum_range(table@);
            assert(rest.skip(seg_count as int) =~= laces@.skip(lace_pos + seg_count));
        }
        let flags: u8 = if !first {
            FLAG_CONTINUED
        } else if bos {
            FLAG_BOS
        } else {
            0
        };
        // The header and lacing table with the CRC field zero, then the CRC streamed
        // over header and payload without materializing the payload.
        let mut blank: Vec<u8> = Vec::new();
        push_page_header(&mut blank, flags, 0, serial, seq, 0, table);
        let crc: u32 = match crc_feed_payload(
            crc32_update(0, blank.as_slice()),
            chunks,
            src,
            payload_pos,
            page_payload,
        ) {
            Ok(c) => c,
            Err(e) => {
                return Err(e);
            },
        };
        let mut header: Vec<u8> = Vec::new();
        push_page_header(&mut header, flags, 0, serial, seq, crc, table);
        let ghost before = seg_views(segments@);
        let ghost head = header@;
        proof {
            let empty = Seq::<u8>::empty();
            assert(blank@ =~= page_header(flags, 0, serial, seq, 0, table@));
            assert(header@ =~= page_header(flags, 0, serial, seq, crc, table@));
            crc_of_concat(
                0,
                blank@,
                all.subrange(payload_pos as int, payload_pos + page_payload),
            );
        }
        emit_segments(&mut segments, header, chunks, payload_pos, page_payload);
        proof {
            if avail && lace_pos + seg_count < laces@.len() {
                let tail = segments_of(
                    serial,
                    (seq + 1) as u32,
                    bos,
                    false,
                    laces@.skip(lace_pos + seg_count),
                    cm,
                    payload_pos + page_payload,
                    all,
                );
                assert(before + (page_segments(
                    head,
                    cm,
                    payload_pos as int,
                    payload_pos + page_payload,
                ) + tail) =~= seg_views(segments@) + tail);
            }
        }
        payload_pos = payload_pos + page_payload;
        lace_pos = lace_pos + seg_count;
        seq = seq + 1;
        first = false;
    }
    proof {
        assert(laces@.skip(laces@.len() as int) =~= Seq::<u8>::empty());
        all_seen_is_available(src, cm);
        payload_prefix(src, cm, 0);
        segments_served(src, serial, seq_start, bos, true, laces@, cm, 0);
        assert(all.skip(0) =~= all);
        let used = seq - seq_start;
        assert(255 * (used - 1) < total as int / 255 + 1 <= 255 * used);
        assert(used == total as int / 255 / 255 + 1);
    }
    Ok((segments, seq - seq_start))
}

} // verus!
