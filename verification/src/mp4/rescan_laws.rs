//! A synthesized MP4 file is a file like the one it was made from: it scans again, its movie
//! has the children that were kept, and its chunk offsets have moved with the audio.

use crate::bytes::be32;
use crate::input::ArtInput;
use crate::input::BinaryTagInput;
use crate::input::TagInput;
use crate::layout::draft_bytes_add_up;
use crate::layout::header_before_audio;
use crate::layout::header_bytes;
use crate::layout::SegView;
use crate::mp4::atoms::boxed_bytes;
use crate::mp4::atoms::udta_adds;
use crate::mp4::boxes::box_at;
use crate::mp4::boxes::boxes;
use crate::mp4::boxes::boxes_end;
use crate::mp4::boxes::boxes_lie_inside;
use crate::mp4::boxes::of_kind;
use crate::mp4::boxes::payloads;
use crate::mp4::boxes::BoxModel;
use crate::mp4::boxes::FTYP;
use crate::mp4::boxes::MDAT;
use crate::mp4::boxes::META;
use crate::mp4::boxes::MOOF;
use crate::mp4::boxes::MOOV;
use crate::mp4::boxes::MVEX;
use crate::mp4::boxes::TRAK;
use crate::mp4::boxes::UDTA;
use crate::mp4::file_laws::file_served;
use crate::mp4::file_laws::meta_body;
use crate::mp4::file_laws::patched_children_stand;
use crate::mp4::file_laws::run_places;
use crate::mp4::file_laws::sized;
use crate::mp4::file_laws::udta_body;
use crate::mp4::file_laws::udta_body_len;
use crate::mp4::file_laws::verbatim_box;
use crate::mp4::kept_laws::kept_movie_kids;
use crate::mp4::kept_laws::kept_tracks;
use crate::mp4::kept_laws::movie_kids;
use crate::mp4::kept_laws::stripped_track_reads;
use crate::mp4::kids::bodies;
use crate::mp4::kids::bodies_concat;
use crate::mp4::kids::boxes_concat;
use crate::mp4::kids::end_concat;
use crate::mp4::kids::first_body;
use crate::mp4::kids::first_body_concat;
use crate::mp4::kids::first_payload_is_first_body;
use crate::mp4::kids::kids;
use crate::mp4::kids::kids_concat;
use crate::mp4::kids::kids_of_box;
use crate::mp4::kids::payloads_are_bodies;
use crate::mp4::kids::sealed;
use crate::mp4::kids::sealed_concat;
use crate::mp4::kids::sealed_end;
use crate::mp4::kids::single_body;
use crate::mp4::laws::ilst_contents;
use crate::mp4::moved_laws::moved_track_offsets;
use crate::mp4::moved_laws::moved_track_reads;
use crate::mp4::moved_laws::shifted;
use crate::mp4::offsets::chunk_table;
use crate::mp4::offsets::entry_pos;
use crate::mp4::offsets::every_chunk_offset_moves;
use crate::mp4::offsets::offset_at;
use crate::mp4::offsets::patched;
use crate::mp4::offsets::table_is_inside;
use crate::mp4::offsets::track_moved;
use crate::mp4::offsets::Patched;
use crate::mp4::relocation::moov_offsets;
use crate::mp4::relocation::movie_offsets;
use crate::mp4::relocation::track_offsets;
use crate::mp4::relocation::tracks_offsets;
use crate::mp4::retag_laws::body_is_of_a_kid;
use crate::mp4::retag_laws::member_of_kind;
use crate::mp4::retag_laws::of_kind_member;
use crate::mp4::retag_laws::patched_payloads;
use crate::mp4::retag_laws::same_but_table;
use crate::mp4::strip::kept_movie;
use crate::mp4::strip::stripped_track;
use crate::mp4::strip::MAX_BOX;
use crate::mp4::structure::is_scan_of;
use crate::mp4::structure::moov_verdict;
use crate::mp4::structure::shape;
use crate::mp4::structure::track_handler;
use crate::mp4::structure::track_handlers;
use crate::mp4::structure::Mp4Scan;
use crate::mp4::structure::Shape;
use crate::mp4::synth::audio_served_once;
use crate::mp4::synth::audio_shift;
use crate::mp4::synth::carried_chapters;
use crate::mp4::synth::chunk_offsets_follow_the_audio;
use crate::mp4::synth::movie_of;
use crate::mp4::synth::mp4_draft;
use crate::mp4::synth::mp4_segments;
use crate::mp4::synth::new_audio_pos;
use crate::mp4::synth::new_moov_size;
use crate::serving::served_bytes;
use crate::serving::sources_hold;
use crate::serving::Sources;
use vstd::prelude::*;

verus! {

/// Body `j` of a type is the same child in lists of children with the same types.
proof fn body_in_both(
    a: Seq<(Seq<u8>, Seq<u8>)>,
    b: Seq<(Seq<u8>, Seq<u8>)>,
    kind: Seq<u8>,
    j: int,
) -> (i: int)
    requires
        a.len() == b.len(),
        forall|i: int| 0 <= i < a.len() ==> (#[trigger] a[i]).0 == b[i].0,
        0 <= j < bodies(a, kind).len(),
    ensures
        bodies(a, kind).len() == bodies(b, kind).len(),
        0 <= i < a.len(),
        a[i].0 == kind,
        bodies(a, kind)[j] == a[i].1,
        bodies(b, kind)[j] == b[i].1,
    decreases a.len(),
{
    let x = a.drop_last();
    let y = b.drop_last();
    assert(a[a.len() - 1].0 == b[a.len() - 1].0);
    assert forall|i: int| 0 <= i < x.len() implies (#[trigger] x[i]).0 == y[i].0 by {
        assert(x[i] == a[i] && y[i] == b[i]);
    }
    bodies_as_many(x, y, kind);
    if a.last().0 == kind && j == bodies(x, kind).len() {
        a.len() - 1
    } else {
        let i = body_in_both(x, y, kind, j);
        assert(x[i] == a[i] && y[i] == b[i]);
        assert(bodies(a, kind)[j] == bodies(x, kind)[j]);
        assert(bodies(b, kind)[j] == bodies(y, kind)[j]);
        i
    }
}

proof fn bodies_as_many(a: Seq<(Seq<u8>, Seq<u8>)>, b: Seq<(Seq<u8>, Seq<u8>)>, kind: Seq<u8>)
    requires
        a.len() == b.len(),
        forall|i: int| 0 <= i < a.len() ==> (#[trigger] a[i]).0 == b[i].0,
    ensures
        bodies(a, kind).len() == bodies(b, kind).len(),
    decreases a.len(),
{
    if a.len() > 0 {
        let x = a.drop_last();
        let y = b.drop_last();
        assert(a[a.len() - 1].0 == b[a.len() - 1].0);
        assert forall|i: int| 0 <= i < x.len() implies (#[trigger] x[i]).0 == y[i].0 by {
            assert(x[i] == a[i] && y[i] == b[i]);
        }
        bodies_as_many(x, y, kind);
    }
}

proof fn first_as_missing(a: Seq<(Seq<u8>, Seq<u8>)>, b: Seq<(Seq<u8>, Seq<u8>)>, kind: Seq<u8>)
    requires
        a.len() == b.len(),
        forall|i: int| 0 <= i < a.len() ==> (#[trigger] a[i]).0 == b[i].0,
        first_body(a, kind) is None,
    ensures
        first_body(b, kind) is None,
    decreases a.len(),
{
    if a.len() > 0 {
        let x = a.drop_first();
        let y = b.drop_first();
        assert(a[0].0 == b[0].0);
        assert forall|i: int| 0 <= i < x.len() implies (#[trigger] x[i]).0 == y[i].0 by {
            assert(x[i] == a[i + 1] && y[i] == b[i + 1]);
        }
        first_as_missing(x, y, kind);
    }
}

/// The child `x` is the child `k`, but that the entries of a track's chunk-offset table may
/// differ.
pub open spec fn same_but_offsets(k: (Seq<u8>, Seq<u8>), x: (Seq<u8>, Seq<u8>)) -> bool {
    k.0 == x.0 && if k.0 == TRAK@ {
        same_but_table(k.1, x.1)
    } else {
        k.1 == x.1
    }
}

/// What is kept of a movie, its chunk offsets moved: the children that are kept, in order,
/// and nothing changed in them but chunk offsets.
proof fn patched_kids(movie: Seq<u8>, delta: int, x: Seq<u8>)
    requires
        sized(movie),
        kept_movie(movie).len() <= MAX_BOX,
        patched(kept_movie(movie), delta) == Patched::Done(x),
    ensures
        sealed(x),
        x.len() == kept_movie(movie).len(),
        boxes(x) == boxes(kept_movie(movie)),
        kids(x).len() == movie_kids(kids(movie)).len(),
        forall|i: int|
            0 <= i < kids(x).len() ==> same_but_offsets(
                movie_kids(kids(movie))[i],
                #[trigger] kids(x)[i],
            ),
{
    reveal(kids);
    let kept = kept_movie(movie);
    kept_movie_kids(movie);
    crate::mp4::strip_laws::kept_movie_stands(movie);
    crate::mp4::retag_laws::no_bodies_no_first(kids(kept), UDTA@);
    patched_children_stand(kept, delta, x);
    assert forall|i: int| 0 <= i < kids(x).len() implies same_but_offsets(
        movie_kids(kids(movie))[i],
        #[trigger] kids(x)[i],
    ) by {
        patched_payloads(kept, delta, x, i);
    }
}

/// Track `j` of a patched movie.
proof fn patched_track(movie: Seq<u8>, delta: int, x: Seq<u8>, j: int)
    requires
        sized(movie),
        kept_movie(movie).len() <= MAX_BOX,
        patched(kept_movie(movie), delta) == Patched::Done(x),
        0 <= j < bodies(kids(movie), TRAK@).len(),
    ensures
        bodies(kids(x), TRAK@).len() == bodies(kids(movie), TRAK@).len(),
        track_handler(bodies(kids(x), TRAK@)[j]) == track_handler(bodies(kids(movie), TRAK@)[j]),
        track_offsets(bodies(kids(movie), TRAK@)[j]) is Some,
        track_offsets(bodies(kids(x), TRAK@)[j]) == Some(
            shifted(track_offsets(bodies(kids(movie), TRAK@)[j])->0, delta),
        ),
{
    reveal(kids);
    let kept = kept_movie(movie);
    kept_movie_kids(movie);
    kept_tracks(kids(movie));
    patched_kids(movie, delta, x);
    assert(kids(kept) == movie_kids(kids(movie)));
    assert forall|i: int| 0 <= i < kids(kept).len() implies (#[trigger] kids(kept)[i]).0 == kids(
        x,
    )[i].0 by {
        assert(same_but_offsets(movie_kids(kids(movie))[i], kids(x)[i]));
    }
    let t0 = bodies(kids(movie), TRAK@)[j];
    let i0 = body_is_of_a_kid(kids(movie), TRAK@, j);
    assert(boxes(movie)[i0].kind == TRAK@);
    assert(stripped_track(t0).len() <= MAX_BOX);
    stripped_track_reads(t0);
    let i = body_in_both(kids(kept), kids(x), TRAK@, j);
    let b = boxes(kept)[i];
    let t = b.payload(kept);
    let y = b.payload(x);
    assert(kids(kept)[i].1 == t && kids(x)[i].1 == y);
    assert(t == stripped_track(t0));
    patched_payloads(kept, delta, x, i);
    moved_track_reads(t, y);
    boxes_lie_inside(kept, 0);
    assert(b.inside(kept));
    every_chunk_offset_moves(kept, delta, x);
    let k = member_of_kind(boxes(kept), TRAK@, i);
    assert(track_moved(kept, x, of_kind(boxes(kept), TRAK@)[k], delta));
    track_by_itself(kept, x, b, delta);
    moved_track_offsets(t, y, delta);
}

/// A track that has moved, by its payload.
proof fn track_by_itself(orig: Seq<u8>, x: Seq<u8>, b: BoxModel, delta: int)
    requires
        b.inside(orig),
        x.len() == orig.len(),
        track_moved(orig, x, b, delta),
    ensures
        match chunk_table(b.payload(orig)) {
            Some((s, n, wide)) => {
                let t = b.payload(orig);
                &&& entry_pos(s, be32(t, s + 4), wide) <= s + n
                &&& forall|i: int|
                    0 <= i < be32(t, s + 4) ==> #[trigger] offset_at(
                        b.payload(x),
                        entry_pos(s, i, wide),
                        wide,
                    ) == offset_at(t, entry_pos(s, i, wide), wide) + delta
            },
            None => false,
        },
{
    let t = b.payload(orig);
    let y = b.payload(x);
    table_is_inside(t);
    if let Some((s, n, wide)) = chunk_table(t) {
        let at = b.body() + s;
        assert(t[s + 4] == orig[at + 4] && t[s + 5] == orig[at + 5] && t[s + 6] == orig[at + 6]
            && t[s + 7] == orig[at + 7]);
        let count = be32(t, s + 4);
        assert(count == be32(orig, at + 4));
        assert forall|i: int| 0 <= i < count implies #[trigger] offset_at(
            y,
            entry_pos(s, i, wide),
            wide,
        ) == offset_at(t, entry_pos(s, i, wide), wide) + delta by {
            let q = entry_pos(s, i, wide);
            let p = entry_pos(at, i, wide);
            assert(p == b.body() + q);
            assert(entry_pos(s, i + 1, wide) <= entry_pos(s, count, wide));
            assert(offset_at(x, p, wide) == offset_at(orig, p, wide) + delta);
            same_offset(orig, b, q, wide);
            same_offset(x, b, q, wide);
        }
    }
}

/// An offset in the payload of a box.
proof fn same_offset(d: Seq<u8>, b: BoxModel, q: int, wide: bool)
    requires
        0 <= b.body() <= b.end() <= d.len(),
        0 <= q,
        q + (if wide {
            8int
        } else {
            4
        }) <= b.payload(d).len(),
    ensures
        offset_at(b.payload(d), q, wide) == offset_at(d, b.body() + q, wide),
{
    let t = b.payload(d);
    let p = b.body() + q;
    assert(t[q] == d[p] && t[q + 1] == d[p + 1] && t[q + 2] == d[p + 2] && t[q + 3] == d[p + 3]);
    if wide {
        assert(t[q + 4] == d[p + 4] && t[q + 5] == d[p + 5] && t[q + 6] == d[p + 6] && t[q + 7]
            == d[p + 7]);
    }
}

/// Tracks with the same handlers.
proof fn same_handlers(a: Seq<Seq<u8>>, b: Seq<Seq<u8>>)
    requires
        a.len() == b.len(),
        forall|j: int| 0 <= j < a.len() ==> track_handler(#[trigger] a[j]) == track_handler(b[j]),
    ensures
        track_handlers(a) == track_handlers(b),
    decreases a.len(),
{
    if a.len() > 0 {
        let x = a.drop_last();
        let y = b.drop_last();
        assert forall|j: int| 0 <= j < x.len() implies track_handler(#[trigger] x[j])
            == track_handler(y[j]) by {
            assert(x[j] == a[j] && y[j] == b[j]);
        }
        same_handlers(x, y);
        assert(track_handler(a[a.len() - 1]) == track_handler(b[a.len() - 1]));
    }
}

/// The offsets of all tracks moved by `delta`.
pub open spec fn all_shifted(s: Seq<Seq<int>>, delta: int) -> Seq<Seq<int>> {
    Seq::new(s.len(), |i: int| shifted(s[i], delta))
}

/// Tracks all of whose offsets are moved.
proof fn all_tracks_shifted(a: Seq<Seq<u8>>, b: Seq<Seq<u8>>, delta: int)
    requires
        a.len() == b.len(),
        forall|j: int|
            0 <= j < a.len() ==> track_offsets(#[trigger] a[j]) is Some && track_offsets(b[j])
                == Some(shifted(track_offsets(a[j])->0, delta)),
    ensures
        tracks_offsets(a) is Some,
        tracks_offsets(b) == Some(all_shifted(tracks_offsets(a)->0, delta)),
    decreases a.len(),
{
    if a.len() > 0 {
        let x = a.drop_last();
        let y = b.drop_last();
        assert forall|j: int| 0 <= j < x.len() implies track_offsets(#[trigger] x[j]) is Some
            && track_offsets(y[j]) == Some(shifted(track_offsets(x[j])->0, delta)) by {
            assert(x[j] == a[j] && y[j] == b[j]);
        }
        all_tracks_shifted(x, y, delta);
        assert(track_offsets(a[a.len() - 1]) is Some);
        assert(tracks_offsets(b)->0 =~= all_shifted(tracks_offsets(a)->0, delta));
    } else {
        assert(tracks_offsets(b)->0 =~= all_shifted(tracks_offsets(a)->0, delta));
    }
}

/// The regenerated movie payload.
pub open spec fn new_movie(kept: Seq<u8>, contents: Seq<u8>, chapters: Seq<u8>) -> Seq<u8> {
    kept + boxed_bytes(UDTA@, udta_body(contents, chapters))
}

/// A regenerated movie holds what was kept of the movie, child by child in order and changed
/// in nothing but chunk offsets, and then one `udta`, which is the new `meta` followed by the
/// chapter list as it stood.
pub proof fn regenerated_movie_kids(
    movie: Seq<u8>,
    delta: int,
    x: Seq<u8>,
    contents: Seq<u8>,
)
    requires
        sized(movie),
        kept_movie(movie).len() <= MAX_BOX,
        patched(kept_movie(movie), delta) == Patched::Done(x),
        8 + udta_body(contents, carried_chapters(movie)).len() <= MAX_BOX,
    ensures
        ({
            let new = kids(new_movie(x, contents, carried_chapters(movie)));
            let kept = movie_kids(kids(movie));
            &&& new.len() == kept.len() + 1
            &&& forall|i: int|
                0 <= i < kept.len() ==> same_but_offsets(#[trigger] kept[i], new[i])
            &&& new.last() == (
                UDTA@,
                boxed_bytes(META@, meta_body(contents)) + carried_chapters(movie),
            )
        }),
{
    let chapters = carried_chapters(movie);
    let ub = udta_body(contents, chapters);
    let u = boxed_bytes(UDTA@, ub);
    assert(UDTA@.len() == 4);
    patched_kids(movie, delta, x);
    kids_of_box(UDTA@, ub);
    kids_concat(x, u);
    let new = kids(new_movie(x, contents, chapters));
    let kept = movie_kids(kids(movie));
    assert forall|i: int| 0 <= i < kept.len() implies same_but_offsets(#[trigger] kept[i], new[i]) by {
        assert(new[i] == kids(x)[i]);
        assert(same_but_offsets(movie_kids(kids(movie))[i], kids(x)[i]));
    }
}

/// A regenerated movie is a good one if the movie was, and every chunk offset has moved.
proof fn regenerated_movie_reads(movie: Seq<u8>, delta: int, x: Seq<u8>, contents: Seq<u8>)
    requires
        sized(movie),
        kept_movie(movie).len() <= MAX_BOX,
        patched(kept_movie(movie), delta) == Patched::Done(x),
        8 + udta_body(contents, carried_chapters(movie)).len() <= MAX_BOX,
        moov_verdict(movie) is Good,
    ensures
        moov_verdict(new_movie(x, contents, carried_chapters(movie))) is Good,
        movie_offsets(movie) is Some,
        movie_offsets(new_movie(x, contents, carried_chapters(movie))) == Some(
            all_shifted(movie_offsets(movie)->0, delta),
        ),
{
    let chapters = carried_chapters(movie);
    let ub = udta_body(contents, chapters);
    let u = boxed_bytes(UDTA@, ub);
    let new = x + u;
    assert(UDTA@.len() == 4);
    assert(UDTA@[0] == 0x75 && TRAK@[0] == 0x74 && MVEX@[0] == 0x6d);
    kept_movie_kids(movie);
    kept_tracks(kids(movie));
    patched_kids(movie, delta, x);
    kids_of_box(UDTA@, ub);
    kids_concat(x, u);
    sealed_concat(x, u);
    sealed_end(new);
    let k = movie_kids(kids(movie));
    assert forall|i: int| 0 <= i < k.len() implies (#[trigger] k[i]).0 == kids(x)[i].0 by {
        assert(same_but_offsets(movie_kids(kids(movie))[i], kids(x)[i]));
    }
    first_payload_is_first_body(movie, MVEX@);
    first_payload_is_first_body(new, MVEX@);
    first_as_missing(k, kids(x), MVEX@);
    first_body_concat(kids(x), kids(u), MVEX@);
    single_body(UDTA@, ub, MVEX@);
    bodies_as_many(k, kids(x), TRAK@);
    bodies_concat(kids(x), kids(u), TRAK@);
    single_body(UDTA@, ub, TRAK@);
    payloads_are_bodies(movie, TRAK@);
    payloads_are_bodies(new, TRAK@);
    let a = payloads(movie, TRAK@);
    let b = payloads(new, TRAK@);
    assert(bodies(kids(x), TRAK@) + Seq::<Seq<u8>>::empty() =~= bodies(kids(x), TRAK@));
    assert forall|j: int| 0 <= j < a.len() implies track_handler(#[trigger] a[j]) == track_handler(
        b[j],
    ) && track_offsets(a[j]) is Some && track_offsets(b[j]) == Some(
        shifted(track_offsets(a[j])->0, delta),
    ) by {
        patched_track(movie, delta, x, j);
    }
    same_handlers(a, b);
    all_tracks_shifted(a, b, delta);
}

/// The one box of a type that a shape names stands where it says.
proof fn named_box(d: Seq<u8>, kind: Seq<u8>)
    requires
        of_kind(boxes(d), kind).len() == 1,
    ensures
        box_at(d, of_kind(boxes(d), kind)[0].start) == Some(of_kind(boxes(d), kind)[0]),
        of_kind(boxes(d), kind)[0].kind == kind,
        of_kind(boxes(d), kind)[0].inside(d),
        of_kind(boxes(d), kind)[0].start >= 0,
{
    boxes_lie_inside(d, 0);
    let i = of_kind_member(boxes(d), kind, 0);
    run_places(d, 0, i);
    assert(boxes(d)[i].inside(d));
}

/// Three boxes in a row make a file of that shape.
proof fn three_boxes(f: Seq<u8>, m: Seq<u8>, a: Seq<u8>, fh: int, ah: int)
    requires
        sealed(f),
        boxes(f) == seq![BoxModel { kind: FTYP@, start: 0, header: fh, total: f.len() as int }],
        8 + m.len() <= MAX_BOX,
        boxes(a) == seq![BoxModel { kind: MDAT@, start: 0, header: ah, total: a.len() as int }],
        boxes_end(a, 0) == a.len(),
    ensures
        ({
            let n = f.len() as int;
            let k = (8 + m.len()) as int;
            shape(f + (boxed_bytes(MOOV@, m) + a)) == Some(
                Shape {
                    ftyp: BoxModel { kind: FTYP@, start: 0, header: fh, total: n },
                    moov: BoxModel { kind: MOOV@, start: n, header: 8, total: k },
                    mdat: BoxModel {
                        kind: MDAT@,
                        start: n + k,
                        header: ah,
                        total: a.len() as int,
                    },
                },
            )
        }),
        ({
            let d = f + (boxed_bytes(MOOV@, m) + a);
            let b = BoxModel {
                kind: MOOV@,
                start: f.len() as int,
                header: 8,
                total: (8 + m.len()) as int,
            };
            &&& b.payload(d) == m
            &&& b.bytes(d) == boxed_bytes(MOOV@, m)
        }),
{
    let v = boxed_bytes(MOOV@, m);
    let d = f + (v + a);
    let n = f.len() as int;
    let k = (8 + m.len()) as int;
    assert(MOOV@.len() == 4);
    assert(v.len() == k);
    kids_of_box(MOOV@, m);
    boxes_concat(v, a);
    boxes_concat(f, v + a);
    end_concat(v, a);
    end_concat(f, v + a);
    let x = BoxModel { kind: FTYP@, start: 0, header: fh, total: n };
    let y = BoxModel { kind: MOOV@, start: n, header: 8, total: k };
    let z = BoxModel { kind: MDAT@, start: n + k, header: ah, total: a.len() as int };
    let top = seq![x, y, z];
    assert(boxes(d) =~= top);
    kinds_of_three(x, y, z);
    assert(y.payload(d) =~= m);
    assert(y.bytes(d) =~= v);
}

/// The boxes of each type among the three.
proof fn kinds_of_three(x: BoxModel, y: BoxModel, z: BoxModel)
    requires
        x.kind == FTYP@,
        y.kind == MOOV@,
        z.kind == MDAT@,
    ensures
        of_kind(seq![x, y, z], FTYP@) == seq![x],
        of_kind(seq![x, y, z], MOOV@) == seq![y],
        of_kind(seq![x, y, z], MDAT@) == seq![z],
        of_kind(seq![x, y, z], MOOF@) == Seq::<BoxModel>::empty(),
{
    let three = seq![x, y, z];
    let two = seq![x, y];
    let one = seq![x];
    assert(three.drop_last() =~= two);
    assert(two.drop_last() =~= one);
    assert(one.drop_last() =~= Seq::empty());
    assert(FTYP@[0] == 0x66 && MOOV@[1] == 0x6f && MOOV@[3] == 0x76 && MOOV@[0] == 0x6d && MDAT@[1]
        == 0x64 && MDAT@[0] == 0x6d && MOOF@[3] == 0x66 && MOOF@[1] == 0x6f && MOOF@[0] == 0x6d);
    assert(three.last() == z && two.last() == y && one.last() == x);
    assert(of_kind(one.drop_last(), FTYP@) =~= Seq::empty());
    assert(of_kind(one.drop_last(), MOOV@) =~= Seq::empty());
    assert(of_kind(one.drop_last(), MDAT@) =~= Seq::empty());
    assert(of_kind(one.drop_last(), MOOF@) =~= Seq::empty());
    assert(of_kind(one, FTYP@) =~= seq![x]);
    assert(of_kind(one, MOOV@) =~= Seq::empty());
    assert(of_kind(one, MDAT@) =~= Seq::empty());
    assert(of_kind(one, MOOF@) =~= Seq::empty());
    assert(of_kind(two, FTYP@) =~= seq![x]);
    assert(of_kind(two, MOOV@) =~= seq![y]);
    assert(of_kind(two, MDAT@) =~= Seq::empty());
    assert(of_kind(two, MOOF@) =~= Seq::empty());
    assert(of_kind(three, MDAT@) =~= seq![z]);
}

/// The bytes in front of the audio are as many as the audio's new place says.
proof fn header_reaches_audio(
    scan: Mp4Scan,
    movie: Seq<u8>,
    kept: Seq<u8>,
    tags: Seq<TagInput>,
    binary_tags: Seq<BinaryTagInput>,
    arts: Seq<ArtInput>,
)
    requires
        movie_of(scan.moov@) == Some(movie),
        patched(kept_movie(movie), audio_shift(scan, movie, tags, binary_tags, arts))
            == Patched::Done(kept),
    ensures
        header_bytes(mp4_segments(scan, movie, kept, tags, binary_tags, arts)) == new_audio_pos(
            scan,
            movie,
            tags,
            binary_tags,
            arts,
        ),
{
    let segs = mp4_segments(scan, movie, kept, tags, binary_tags, arts);
    let d = mp4_draft(scan, movie, kept, tags, binary_tags, arts);
    let s = SegView::BackingAudio {
        offset: scan.mdat_payload_offset as int,
        len: scan.mdat_payload_len as int,
    };
    let empty = Seq::<u8>::empty();
    chunk_offsets_follow_the_audio(scan, movie, kept, tags, binary_tags, arts);
    draft_bytes_add_up(d, empty, s);
    draft_bytes_add_up(crate::layout::with_stream(d, s), empty, s);
    audio_served_once(scan, movie, kept, tags, binary_tags, arts);
    header_before_audio(
        segs,
        scan.mdat_payload_offset as int,
        scan.mdat_payload_len as int,
    );
}

/// A synthesized MP4 file scans again. It has the shape of a supported file and a good
/// `moov`; its audio begins where the header region ends, and is as long as it was; and every
/// chunk offset of every track, audio and chapters alike, is what it was in the source, moved
/// as far as the audio, with as many of them as before.
///
/// The file's `ftyp` and every child of its `moov` that is kept as it stands must say their
/// size: one that leaves it open ("extends to end") would swallow what is put behind it.
pub proof fn synthesized_file_scans_again(
    s: Shape,
    scan: Mp4Scan,
    movie: Seq<u8>,
    kept: Seq<u8>,
    tags: Seq<TagInput>,
    binary_tags: Seq<BinaryTagInput>,
    arts: Seq<ArtInput>,
    src: Sources,
)
    requires
        shape(src.backing) == Some(s),
        moov_verdict(s.moov.payload(src.backing)) is Good,
        is_scan_of(scan, s, src.backing),
        movie_of(scan.moov@) == Some(movie),
        new_moov_size(movie, tags, binary_tags, arts) <= MAX_BOX,
        patched(kept_movie(movie), audio_shift(scan, movie, tags, binary_tags, arts))
            == Patched::Done(kept),
        sized(movie),
        be32(src.backing, s.ftyp.start) != 0,
        sources_hold(src, binary_tags, arts),
    ensures
        ({
            let segs = mp4_segments(scan, movie, kept, tags, binary_tags, arts);
            let file = served_bytes(src, segs);
            let delta = audio_shift(scan, movie, tags, binary_tags, arts);
            match shape(file) {
                Some(again) => {
                    &&& moov_verdict(again.moov.payload(file)) is Good
                    &&& again.moov.payload(file) == new_movie(
                        kept,
                        ilst_contents(tags, binary_tags, arts, src),
                        carried_chapters(movie),
                    )
                    &&& again.mdat.body() == header_bytes(segs)
                    &&& again.mdat.body() == scan.mdat_payload_offset + delta
                    &&& again.mdat.total - again.mdat.header == scan.mdat_payload_len
                    &&& moov_offsets(scan.moov@) is Some
                    &&& moov_offsets(again.moov.bytes(file)) == Some(
                        all_shifted(moov_offsets(scan.moov@)->0, delta),
                    )
                },
                None => false,
            }
        }),
{
    let delta = audio_shift(scan, movie, tags, binary_tags, arts);
    let contents = ilst_contents(tags, binary_tags, arts, src);
    let m = new_movie(kept, contents, carried_chapters(movie));
    let a = s.mdat.bytes(src.backing);
    source_movie(src.backing, s, scan, movie);
    scanned_boxes(s, scan, src.backing);
    served_in_three(scan, movie, kept, tags, binary_tags, arts, src);
    header_reaches_audio(scan, movie, kept, tags, binary_tags, arts);
    regenerated_movie_reads(movie, delta, kept, contents);
    three_boxes(scan.ftyp@, m, a, s.ftyp.header, s.mdat.header);
    movie_in_box(m);
}

/// A synthesized MP4 file keeps the children of its source's `moov`, metadata of other
/// handlers among them, in order and changed in nothing but chunk offsets. What it leaves out
/// is the old user data, and keyed metadata of the movie, its tracks and their media. Behind
/// them stands one `udta`: the new `meta`, followed by the source's chapter list byte for
/// byte.
pub proof fn kept_children_are_served(
    s: Shape,
    scan: Mp4Scan,
    movie: Seq<u8>,
    kept: Seq<u8>,
    tags: Seq<TagInput>,
    binary_tags: Seq<BinaryTagInput>,
    arts: Seq<ArtInput>,
    src: Sources,
)
    requires
        shape(src.backing) == Some(s),
        moov_verdict(s.moov.payload(src.backing)) is Good,
        is_scan_of(scan, s, src.backing),
        movie_of(scan.moov@) == Some(movie),
        new_moov_size(movie, tags, binary_tags, arts) <= MAX_BOX,
        patched(kept_movie(movie), audio_shift(scan, movie, tags, binary_tags, arts))
            == Patched::Done(kept),
        sized(movie),
        be32(src.backing, s.ftyp.start) != 0,
        sources_hold(src, binary_tags, arts),
    ensures
        ({
            let file = served_bytes(
                src,
                mp4_segments(scan, movie, kept, tags, binary_tags, arts),
            );
            let old_kids = movie_kids(kids(s.moov.payload(src.backing)));
            match shape(file) {
                Some(again) => {
                    let new_kids = kids(again.moov.payload(file));
                    &&& new_kids.len() == old_kids.len() + 1
                    &&& forall|i: int|
                        0 <= i < old_kids.len() ==> same_but_offsets(
                            #[trigger] old_kids[i],
                            new_kids[i],
                        )
                    &&& new_kids.last() == (
                        UDTA@,
                        boxed_bytes(
                            META@,
                            meta_body(ilst_contents(tags, binary_tags, arts, src)),
                        ) + carried_chapters(movie),
                    )
                },
                None => false,
            }
        }),
{
    let contents = ilst_contents(tags, binary_tags, arts, src);
    source_movie(src.backing, s, scan, movie);
    synthesized_file_scans_again(s, scan, movie, kept, tags, binary_tags, arts, src);
    served_in_three(scan, movie, kept, tags, binary_tags, arts, src);
    regenerated_movie_kids(
        movie,
        audio_shift(scan, movie, tags, binary_tags, arts),
        kept,
        contents,
    );
}

/// The boxes that a scan takes over from its source.
proof fn scanned_boxes(s: Shape, scan: Mp4Scan, d: Seq<u8>)
    requires
        shape(d) == Some(s),
        is_scan_of(scan, s, d),
        be32(d, s.ftyp.start) != 0,
    ensures
        ({
            let a = s.mdat.bytes(d);
            let f = scan.ftyp@;
            &&& sealed(f)
            &&& boxes(f) == seq![
                BoxModel { kind: FTYP@, start: 0, header: s.ftyp.header, total: f.len() as int },
            ]
            &&& boxes(a) == seq![
                BoxModel { kind: MDAT@, start: 0, header: s.mdat.header, total: a.len() as int },
            ]
            &&& boxes_end(a, 0) == a.len()
            &&& a.len() == s.mdat.total
            &&& scan.mdat_header@.len() == s.mdat.header
            &&& scan.mdat_header@ + d.subrange(
                scan.mdat_payload_offset as int,
                scan.mdat_payload_offset + scan.mdat_payload_len,
            ) == a
        }),
{
    named_box(d, FTYP@);
    named_box(d, MDAT@);
    verbatim_box(d, s.ftyp);
    verbatim_box(d, s.mdat);
    let audio = d.subrange(
        scan.mdat_payload_offset as int,
        scan.mdat_payload_offset + scan.mdat_payload_len,
    );
    assert(scan.mdat_header@ + audio =~= s.mdat.bytes(d));
}

/// A synthesized file is the `ftyp` box, the regenerated `moov` and the `mdat` box.
proof fn served_in_three(
    scan: Mp4Scan,
    movie: Seq<u8>,
    kept: Seq<u8>,
    tags: Seq<TagInput>,
    binary_tags: Seq<BinaryTagInput>,
    arts: Seq<ArtInput>,
    src: Sources,
)
    requires
        new_moov_size(movie, tags, binary_tags, arts) <= MAX_BOX,
        patched(kept_movie(movie), audio_shift(scan, movie, tags, binary_tags, arts))
            == Patched::Done(kept),
        sources_hold(src, binary_tags, arts),
    ensures
        ({
            let segs = mp4_segments(scan, movie, kept, tags, binary_tags, arts);
            let contents = ilst_contents(tags, binary_tags, arts, src);
            let m = new_movie(kept, contents, carried_chapters(movie));
            let audio = src.backing.subrange(
                scan.mdat_payload_offset as int,
                scan.mdat_payload_offset + scan.mdat_payload_len,
            );
            &&& served_bytes(src, segs) == scan.ftyp@ + (boxed_bytes(MOOV@, m) + (scan.mdat_header@
                + audio))
            &&& 8 + m.len() == new_moov_size(movie, tags, binary_tags, arts)
            &&& kept_movie(movie).len() <= MAX_BOX
            &&& 8 + udta_body(contents, carried_chapters(movie)).len() <= MAX_BOX
        }),
{
    let contents = ilst_contents(tags, binary_tags, arts, src);
    let chapters = carried_chapters(movie);
    let shift = audio_shift(scan, movie, tags, binary_tags, arts);
    udta_adds(crate::layout::empty_draft(), tags, binary_tags, arts, chapters);
    every_chunk_offset_moves(kept_movie(movie), shift, kept);
    file_served(scan, movie, kept, tags, binary_tags, arts, src);
    let audio = src.backing.subrange(
        scan.mdat_payload_offset as int,
        scan.mdat_payload_offset + scan.mdat_payload_len,
    );
    udta_body_len(contents, chapters);
    front_and_rest(
        scan.ftyp@,
        boxed_bytes(MOOV@, new_movie(kept, contents, chapters)),
        scan.mdat_header@ + audio,
    );
}

proof fn front_and_rest(f: Seq<u8>, v: Seq<u8>, a: Seq<u8>)
    ensures
        (f + v) + a == f + (v + a),
{
    assert((f + v) + a =~= f + (v + a));
}

/// A movie in a box of its own.
proof fn movie_in_box(m: Seq<u8>)
    requires
        8 + m.len() <= MAX_BOX,
    ensures
        moov_offsets(boxed_bytes(MOOV@, m)) == movie_offsets(m),
{
    boxed_payload(m);
}

proof fn boxed_payload(m: Seq<u8>)
    requires
        8 + m.len() <= MAX_BOX,
    ensures
        ({
            let v = boxed_bytes(MOOV@, m);
            box_at(v, 0) is Some && (box_at(v, 0)->0).payload(v) == m
        }),
{
    let v = boxed_bytes(MOOV@, m);
    assert(MOOV@.len() == 4);
    kids_of_box(MOOV@, m);
    run_places(v, 0, 0);
    let b = boxes(v)[0];
    assert(b.payload(v) =~= m);
}

/// The movie of a scan is the payload of the source's `moov`.
proof fn source_movie(d: Seq<u8>, s: Shape, scan: Mp4Scan, movie: Seq<u8>)
    requires
        shape(d) == Some(s),
        is_scan_of(scan, s, d),
        movie_of(scan.moov@) == Some(movie),
    ensures
        movie == s.moov.payload(d),
        moov_offsets(scan.moov@) == movie_offsets(movie),
{
    named_box(d, MOOV@);
    verbatim_box(d, s.moov);
    let v = s.moov.bytes(d);
    run_places(v, 0, 0);
    let b = boxes(v)[0];
    assert(box_at(v, 0) == Some(b));
    assert(v.skip(b.header) =~= s.moov.payload(d));
    assert(b.payload(v) =~= s.moov.payload(d));
}

} // verus!
