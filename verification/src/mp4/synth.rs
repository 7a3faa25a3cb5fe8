//! The layout of a re-tagged file: `[ftyp][regenerated moov][mdat header][mdat payload]`.

use crate::bytes::append;
use crate::bytes::be32_bytes;
use crate::bytes::push_u32_be;
use crate::error::FormatError;
use crate::error::Result;
use crate::input::ArtInput;
use crate::input::BinaryTagInput;
use crate::input::TagInput;
use crate::layout::audio_once_at_end;
use crate::layout::draft_bytes;
use crate::layout::draft_bytes_add_up;
use crate::layout::draft_closed_by_audio;
use crate::layout::drafted;
use crate::layout::empty_draft;
use crate::layout::layout_fault;
use crate::layout::no_audio;
use crate::layout::with_bytes;
use crate::layout::with_stream;
use crate::layout::Draft;
use crate::layout::DraftModel;
use crate::layout::RegionLayout;
use crate::layout::SegView;
use crate::layout::Segment;
use crate::mp4::atoms::draft_udta;
use crate::mp4::atoms::udta_adds;
use crate::mp4::atoms::udta_bytes;
use crate::mp4::atoms::with_art_datas;
use crate::mp4::atoms::with_binary_atoms;
use crate::mp4::atoms::with_udta;
use crate::mp4::boxes::box_at;
use crate::mp4::boxes::boxes;
use crate::mp4::boxes::child_boxes;
use crate::mp4::boxes::of_kind;
use crate::mp4::boxes::read_box;
use crate::mp4::boxes::well_boxed;
use crate::mp4::boxes::MOOV;
use crate::mp4::boxes::TRAK;
use crate::mp4::offsets::every_chunk_offset_moves;
use crate::mp4::offsets::patch_chunk_offsets;
use crate::mp4::offsets::patched;
use crate::mp4::offsets::track_moved;
use crate::mp4::offsets::Patched;
use crate::mp4::strip::chapter_list;
use crate::mp4::strip::find_chapters;
use crate::mp4::strip::keep_movie;
use crate::mp4::strip::kept_movie;
use crate::mp4::strip::MAX_BOX;
use crate::mp4::structure::Mp4Scan;
use vstd::prelude::*;
use vstd::slice::slice_subrange;

verus! {

/// The payload of the `moov` of a scan; `None` where its header is unreadable or its
/// children are not boxes throughout.
pub open spec fn movie_of(moov: Seq<u8>) -> Option<Seq<u8>> {
    match box_at(moov, 0) {
        Some(b) => if well_boxed(moov.skip(b.header)) {
            Some(moov.skip(b.header))
        } else {
            None
        },
        None => None,
    }
}

/// The chapter list of a movie, or nothing.
pub open spec fn carried_chapters(movie: Seq<u8>) -> Seq<u8> {
    match chapter_list(movie) {
        Some(c) => c,
        None => Seq::empty(),
    }
}

/// The size of the regenerated `moov`. It does not depend on where the audio comes to lie.
pub open spec fn new_moov_size(
    movie: Seq<u8>,
    tags: Seq<TagInput>,
    binary_tags: Seq<BinaryTagInput>,
    arts: Seq<ArtInput>,
) -> int {
    8 + kept_movie(movie).len() + udta_bytes(tags, binary_tags, arts, carried_chapters(movie))
}

/// Where the audio comes to lie.
pub open spec fn new_audio_pos(
    scan: Mp4Scan,
    movie: Seq<u8>,
    tags: Seq<TagInput>,
    binary_tags: Seq<BinaryTagInput>,
    arts: Seq<ArtInput>,
) -> int {
    scan.ftyp@.len() + new_moov_size(movie, tags, binary_tags, arts) + scan.mdat_header@.len()
}

/// How far the audio moves.
pub open spec fn audio_shift(
    scan: Mp4Scan,
    movie: Seq<u8>,
    tags: Seq<TagInput>,
    binary_tags: Seq<BinaryTagInput>,
    arts: Seq<ArtInput>,
) -> int {
    new_audio_pos(scan, movie, tags, binary_tags, arts) - scan.mdat_payload_offset
}

/// The draft of everything before the audio, around the kept children `kept`.
pub open spec fn mp4_draft(
    scan: Mp4Scan,
    movie: Seq<u8>,
    kept: Seq<u8>,
    tags: Seq<TagInput>,
    binary_tags: Seq<BinaryTagInput>,
    arts: Seq<ArtInput>,
) -> DraftModel {
    let head = scan.ftyp@ + be32_bytes(new_moov_size(movie, tags, binary_tags, arts)) + MOOV@
        + kept;
    with_bytes(
        with_udta(
            with_bytes(empty_draft(), head),
            tags,
            binary_tags,
            arts,
            carried_chapters(movie),
        ),
        scan.mdat_header@,
    )
}

/// The segments of a re-tagged file, around the kept children `kept`.
pub open spec fn mp4_segments(
    scan: Mp4Scan,
    movie: Seq<u8>,
    kept: Seq<u8>,
    tags: Seq<TagInput>,
    binary_tags: Seq<BinaryTagInput>,
    arts: Seq<ArtInput>,
) -> Seq<SegView> {
    drafted(
        with_stream(
            mp4_draft(scan, movie, kept, tags, binary_tags, arts),
            SegView::BackingAudio {
                offset: scan.mdat_payload_offset as int,
                len: scan.mdat_payload_len as int,
            },
        ),
    )
}

/// What synthesis comes to.
pub ghost enum Synthesis {
    Malformed,
    TooLarge,
    Segments(Seq<SegView>),
}

/// What synthesis comes to: `Malformed` where the `moov` or a chunk-offset table is
/// unreadable, `TooLarge` where the new `moov` does not fit 32 bits, where the audio lies or
/// comes to lie beyond a signed 64-bit offset, or where a 32-bit chunk offset leaves its range.
pub open spec fn synthesis(
    scan: Mp4Scan,
    tags: Seq<TagInput>,
    binary_tags: Seq<BinaryTagInput>,
    arts: Seq<ArtInput>,
) -> Synthesis {
    match movie_of(scan.moov@) {
        None => Synthesis::Malformed,
        Some(movie) => if new_moov_size(movie, tags, binary_tags, arts) > MAX_BOX
            || new_audio_pos(scan, movie, tags, binary_tags, arts) > i64::MAX
            || scan.mdat_payload_offset > i64::MAX {
            Synthesis::TooLarge
        } else {
            match patched(
                kept_movie(movie),
                audio_shift(scan, movie, tags, binary_tags, arts),
            ) {
                Patched::Malformed => Synthesis::Malformed,
                Patched::TooLarge => Synthesis::TooLarge,
                Patched::Done(kept) => Synthesis::Segments(
                    mp4_segments(scan, movie, kept, tags, binary_tags, arts),
                ),
            }
        },
    }
}

/// Regenerate a re-tagged `moov` and produce the serving layout
/// `[ftyp][regenerated moov][mdat header][mdat payload]`. The mdat payload is
/// served verbatim, merely relocated, so every chunk offset shifts by a constant
/// `delta`. Patching only offset VALUES (never box sizes) means the size of the new `moov`
/// is computable before `delta`: no circular dependency. Cover art (every non-empty art
/// row, in input order) and opaque `----` binary tags stream at read time, splicing into
/// the layout. Keyed metadata is dropped, so the served file carries the regenerated tags
/// alone; a Nero chapter list is carried through.
pub fn synthesize_layout(
    scan: &Mp4Scan,
    tags: &[TagInput],
    binary_tags: &[BinaryTagInput],
    arts: &[ArtInput],
) -> (r: Result<RegionLayout>)
    ensures
        match synthesis(*scan, tags@, binary_tags@, arts@) {
            Synthesis::Malformed => r matches Err(FormatError::Malformed),
            Synthesis::TooLarge => r matches Err(FormatError::TooLarge),
            Synthesis::Segments(segs) => match layout_fault(segs) {
                Some(e) => r == Err::<RegionLayout, _>(FormatError::InvalidLayout(e)),
                None => match r {
                    Ok(l) => l.views() == segs,
                    Err(_) => false,
                },
            },
        },
{
    let n: usize = scan.moov.len();
    let moov = scan.moov.as_slice();
    let header: usize = match read_box(moov, 0) {
        Ok(b) => b.header_len,
        Err(e) => {
            return Err(e);
        },
    };
    let movie = slice_subrange(moov, header, n);
    assert(movie@ =~= scan.moov@.skip(header as int));
    if child_boxes(movie).is_err() {
        return Err(FormatError::Malformed);
    }
    let ghost m = movie@;
    proof {
        udta_adds(empty_draft(), tags@, binary_tags@, arts@, carried_chapters(m));
    }
    let none: [u8; 0] = [];
    let chapters: &[u8] = match find_chapters(movie) {
        Some(c) => c,
        None => none.as_slice(),
    };
    assert(chapters@ =~= carried_chapters(m));
    let mut kept = match keep_movie(movie) {
        Ok(v) => v,
        Err(e) => {
            return Err(e);
        },
    };
    let ghost k0 = kept@;
    // The user data is drafted once to learn its size, which the head needs.
    let mut trial = Draft::new();
    let udta_len = match draft_udta(&mut trial, tags, binary_tags, arts, chapters) {
        Ok(v) => v,
        Err(e) => {
            return Err(e);
        },
    };
    let kept_len: u64 = kept.len() as u64;
    if kept_len > MAX_BOX || 8 + kept_len + udta_len > MAX_BOX {
        return Err(FormatError::TooLarge);
    }
    let moov_size: u64 = 8 + kept_len + udta_len;
    assert(moov_size == new_moov_size(m, tags@, binary_tags@, arts@));
    let ftyp_len: u64 = scan.ftyp.len() as u64;
    let mdat_header_len: u64 = scan.mdat_header.len() as u64;
    let limit: u64 = 0x7fff_ffff_ffff_ffff;
    if ftyp_len > limit - moov_size || mdat_header_len > limit - moov_size - ftyp_len
        || scan.mdat_payload_offset > limit {
        return Err(FormatError::TooLarge);
    }
    let audio_pos: u64 = ftyp_len + moov_size + mdat_header_len;
    let delta: i64 = audio_pos as i64 - scan.mdat_payload_offset as i64;
    match patch_chunk_offsets(&mut kept, delta) {
        Ok(_) => {},
        Err(e) => {
            return Err(e);
        },
    }
    let mut head: Vec<u8> = Vec::new();
    append(&mut head, scan.ftyp.as_slice());
    push_u32_be(&mut head, moov_size as u32);
    append(&mut head, MOOV.as_slice());
    append(&mut head, kept.as_slice());
    let ghost h = head@;
    assert(h =~= scan.ftyp@ + be32_bytes(moov_size as int) + MOOV@ + kept@);
    let mut draft = Draft::new();
    draft.bytes(head.as_slice());
    assert(draft.model() == with_bytes(empty_draft(), h));
    match draft_udta(&mut draft, tags, binary_tags, arts, chapters) {
        Ok(_) => {},
        Err(e) => {
            return Err(e);
        },
    }
    draft.bytes(scan.mdat_header.as_slice());
    draft.stream(
        Segment::BackingAudio { offset: scan.mdat_payload_offset, len: scan.mdat_payload_len },
    );
    match RegionLayout::validated(draft.finish()) {
        Ok(l) => Ok(l),
        Err(e) => Err(FormatError::InvalidLayout(e)),
    }
}

proof fn binary_atoms_are_no_audio(d: DraftModel, tags: Seq<BinaryTagInput>)
    requires
        no_audio(d.done),
    ensures
        no_audio(with_binary_atoms(d, tags).done),
    decreases tags.len(),
{
    if tags.len() > 0 {
        binary_atoms_are_no_audio(d, tags.drop_last());
    }
}

proof fn art_datas_are_no_audio(d: DraftModel, arts: Seq<ArtInput>)
    requires
        no_audio(d.done),
    ensures
        no_audio(with_art_datas(d, arts).done),
    decreases arts.len(),
{
    if arts.len() > 0 {
        art_datas_are_no_audio(d, arts.drop_last());
    }
}

/// A re-tagged file serves the `mdat` payload exactly once, whole, and last.
pub proof fn audio_served_once(
    scan: Mp4Scan,
    movie: Seq<u8>,
    kept: Seq<u8>,
    tags: Seq<TagInput>,
    binary_tags: Seq<BinaryTagInput>,
    arts: Seq<ArtInput>,
)
    ensures
        audio_once_at_end(
            mp4_segments(scan, movie, kept, tags, binary_tags, arts),
            scan.mdat_payload_offset as int,
            scan.mdat_payload_len as int,
        ),
{
    let chapters = carried_chapters(movie);
    let head = scan.ftyp@ + be32_bytes(new_moov_size(movie, tags, binary_tags, arts)) + MOOV@
        + kept;
    let d0 = with_bytes(empty_draft(), head);
    let n = crate::mp4::atoms::ilst_bytes(tags, binary_tags, arts);
    let d1 = with_bytes(
        with_bytes(d0, crate::mp4::atoms::udta_front(n, chapters.len() as int)),
        crate::mp4::atoms::tag_atoms(tags),
    );
    binary_atoms_are_no_audio(d1, binary_tags);
    let d2 = with_binary_atoms(d1, binary_tags);
    let c = be32_bytes(8 + crate::mp4::atoms::art_bytes(arts)) + crate::mp4::boxes::COVR@;
    art_datas_are_no_audio(with_bytes(d2, c), arts);
    draft_closed_by_audio(
        mp4_draft(scan, movie, kept, tags, binary_tags, arts),
        scan.mdat_payload_offset as int,
        scan.mdat_payload_len as int,
    );
}

/// Where synthesis succeeds, every chunk offset of every track moves exactly as far as the
/// audio: from its place in the backing file to where the bytes before it end. So each
/// offset goes on pointing at the same byte of audio.
pub proof fn chunk_offsets_follow_the_audio(
    scan: Mp4Scan,
    movie: Seq<u8>,
    kept: Seq<u8>,
    tags: Seq<TagInput>,
    binary_tags: Seq<BinaryTagInput>,
    arts: Seq<ArtInput>,
)
    requires
        movie_of(scan.moov@) == Some(movie),
        patched(kept_movie(movie), audio_shift(scan, movie, tags, binary_tags, arts))
            == Patched::Done(kept),
    ensures
        draft_bytes(mp4_draft(scan, movie, kept, tags, binary_tags, arts))
            == scan.mdat_payload_offset + audio_shift(scan, movie, tags, binary_tags, arts),
        forall|k: int|
            0 <= k < of_kind(boxes(kept_movie(movie)), TRAK@).len() ==> track_moved(
                kept_movie(movie),
                kept,
                #[trigger] of_kind(boxes(kept_movie(movie)), TRAK@)[k],
                audio_shift(scan, movie, tags, binary_tags, arts),
            ),
{
    every_chunk_offset_moves(
        kept_movie(movie),
        audio_shift(scan, movie, tags, binary_tags, arts),
        kept,
    );
    let chapters = carried_chapters(movie);
    let head = scan.ftyp@ + be32_bytes(new_moov_size(movie, tags, binary_tags, arts)) + MOOV@
        + kept;
    let s = SegView::Inline(head);
    assert(MOOV@.len() == 4);
    draft_bytes_add_up(empty_draft(), head, s);
    udta_adds(with_bytes(empty_draft(), head), tags, binary_tags, arts, chapters);
    draft_bytes_add_up(
        with_udta(with_bytes(empty_draft(), head), tags, binary_tags, arts, chapters),
        scan.mdat_header@,
        s,
    );
}

} // verus!
