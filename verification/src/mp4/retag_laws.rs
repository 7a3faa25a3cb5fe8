//! A re-tagged MP4 file carries the regenerated tags alone.

use crate::bytes::be32;
use crate::groups::groups_of;
use crate::input::ArtInput;
use crate::input::BinaryTagInput;
use crate::input::TagInput;
use crate::mp4::atoms::boxed_bytes;
use crate::mp4::atoms::udta_adds;
use crate::mp4::offsets::path_stays_inside;
use crate::mp4::offsets::first_is_inside;
use crate::mp4::offsets::track_moved;
use crate::mp4::boxes::path_from;
use crate::mp4::boxes::path_end;
use crate::mp4::boxes::CO64;
use crate::mp4::boxes::STCO;
use crate::mp4::boxes::STBL;
use crate::mp4::boxes::PathEnd;
use crate::mp4::boxes::well_boxed;
use crate::mp4::boxes::boxes_end;
use crate::mp4::boxes::box_at;
use crate::mp4::boxes::boxes;
use crate::mp4::boxes::boxes_from;
use crate::mp4::boxes::boxes_lie_inside;
use crate::mp4::boxes::first_of;
use crate::mp4::boxes::of_kind;
use crate::mp4::boxes::payloads;
use crate::mp4::boxes::BoxModel;
use crate::mp4::boxes::CHPL;
use crate::mp4::boxes::MDIA;
use crate::mp4::boxes::META;
use crate::mp4::boxes::MINF;
use crate::mp4::boxes::MOOV;
use crate::mp4::boxes::TRAK;
use crate::mp4::boxes::UDTA;
use crate::mp4::file_laws::file_served;
use crate::mp4::file_laws::front_reads;
use crate::mp4::file_laws::meta_body;
use crate::mp4::file_laws::meta_body_reads;
use crate::mp4::file_laws::patched_children_stand;
use crate::mp4::file_laws::run_places;
use crate::mp4::file_laws::sized;
use crate::mp4::file_laws::synthesized_file_reads_back;
use crate::mp4::file_laws::udta_body;
use crate::mp4::file_laws::verbatim_box;
use crate::mp4::keyed::all_items;
use crate::mp4::keyed::file_keyed_metas;
use crate::mp4::keyed::keyed_containers;
use crate::mp4::keyed::keyed_of;
use crate::mp4::keyed::track_containers;
use crate::mp4::keyed::ItemModel;
use crate::mp4::kids::bodies;
use crate::mp4::kids::bodies_concat;
use crate::mp4::kids::first_body;
use crate::mp4::kids::kids;
use crate::mp4::kids::kids_concat;
use crate::mp4::kids::kids_of_box;
use crate::mp4::kids::no_kids;
use crate::mp4::kids::payloads_are_bodies;
use crate::mp4::kids::sealed;
use crate::mp4::kids::single_body;
use crate::mp4::laws::groups_back;
use crate::mp4::laws::ilst_contents;
use crate::mp4::laws::images_back;
use crate::mp4::offsets::chunk_table;
use crate::mp4::offsets::every_chunk_offset_moves;
use crate::mp4::offsets::off_table;
use crate::mp4::offsets::off_tables;
use crate::mp4::offsets::patched;
use crate::mp4::offsets::run_is_ordered;
use crate::mp4::offsets::table_is_inside;
use crate::mp4::offsets::Patched;
use crate::mp4::read::file_images;
use crate::mp4::read::file_tags;
use crate::mp4::read::keyed_artwork;
use crate::mp4::read::text_values;
use crate::mp4::strip::chapters_among;
use crate::mp4::strip::kept_movie;
use crate::mp4::strip::MAX_BOX;
use crate::mp4::strip_laws::all_plain;
use crate::mp4::strip_laws::holds_no_keyed;
use crate::mp4::strip_laws::is_stripped_track;
use crate::mp4::strip_laws::kept_movie_stands;
use crate::mp4::strip_laws::plain_containers;
use crate::mp4::strip_laws::plain_track;
use crate::mp4::strip_laws::plain_tracks;
use crate::mp4::strip_laws::stripped_track_and_media;
use crate::mp4::structure::Mp4Scan;
use crate::mp4::synth::audio_shift;
use crate::mp4::synth::carried_chapters;
use crate::mp4::synth::movie_of;
use crate::mp4::synth::mp4_segments;
use crate::mp4::synth::new_moov_size;
use crate::serving::served_bytes;
use crate::serving::sources_hold;
use crate::serving::Sources;
use vstd::prelude::*;

verus! {

/// `x` agrees with `d` outside the payload of `b`.
pub open spec fn agree_outside(d: Seq<u8>, x: Seq<u8>, b: BoxModel) -> bool {
    &&& d.len() == x.len()
    &&& forall|q: int| 0 <= q < d.len() && (q < b.body() || q >= b.end()) ==> #[trigger] x[q] == d[q]
}

/// Bytes that agree outside the payload of one box hold the same boxes.
pub proof fn same_boxes_outside(d: Seq<u8>, x: Seq<u8>, b: BoxModel, p: int)
    requires
        0 <= p <= d.len(),
        agree_outside(d, x, b),
        b.inside(d),
        p >= b.end() || exists|i: int| 0 <= i < boxes_from(d, p).len() && boxes_from(d, p)[i] == b,
    ensures
        boxes_from(x, p) == boxes_from(d, p),
        boxes_end(x, p) == boxes_end(d, p),
    decreases d.len() - p,
{
    run_is_ordered(d, p);
    let s = boxes_from(d, p);
    if p < b.end() {
        let i = choose|i: int| 0 <= i < s.len() && s[i] == b;
        let c = box_at(d, p)->0;
        assert(s[0] == c);
        if i > 0 {
            assert(s[0].end() <= s[i].start);
        }
        boxes_lie_inside(d, p);
        assert(s[0].inside(d));
        same_box_at(d, x, p, c.body());
        let rest = boxes_from(d, c.end());
        if i > 0 {
            assert(rest[i - 1] == s[i]);
        }
        same_boxes_outside(d, x, b, c.end());
    } else {
        same_box_at(d, x, p, d.len() as int);
        match box_at(d, p) {
            Some(c) if c.total > 0 => {
                same_boxes_outside(d, x, b, c.end());
            },
            _ => {},
        }
    }
}

/// Bytes that agree from `p` up to `n` hold the same box at `p`, if its header is in there.
proof fn same_box_at(d: Seq<u8>, x: Seq<u8>, p: int, n: int)
    requires
        0 <= p <= n <= d.len(),
        d.len() == x.len(),
        forall|q: int| p <= q < n ==> #[trigger] x[q] == d[q],
        n == d.len() || (box_at(d, p) is Some && n == box_at(d, p)->0.body()),
    ensures
        box_at(x, p) == box_at(d, p),
{
    let u = d.skip(p);
    let v = x.skip(p);
    assert forall|k: int| 0 <= k < n - p implies u[k] == v[k] by {
        assert(x[p + k] == d[p + k]);
    }
    if n - p >= 8 {
        assert(u[0] == v[0] && u[1] == v[1] && u[2] == v[2] && u[3] == v[3]);
        assert(x.subrange(p + 4, p + 8) =~= d.subrange(p + 4, p + 8)) by {
            assert(x[p + 4] == d[p + 4] && x[p + 5] == d[p + 5] && x[p + 6] == d[p + 6] && x[p + 7]
                == d[p + 7]);
        }
        if be32(u, 0) == 1 && n - p >= 16 {
            assert(u[8] == v[8] && u[9] == v[9] && u[10] == v[10] && u[11] == v[11] && u[12]
                == v[12] && u[13] == v[13] && u[14] == v[14] && u[15] == v[15]);
        }
    }
}

/// Lists of children with the same types, and the same payloads for one type, agree on the
/// payloads of that type.
pub proof fn bodies_alike(a: Seq<(Seq<u8>, Seq<u8>)>, b: Seq<(Seq<u8>, Seq<u8>)>, kind: Seq<u8>)
    requires
        a.len() == b.len(),
        forall|i: int| 0 <= i < a.len() ==> (#[trigger] a[i]).0 == b[i].0,
        forall|i: int| 0 <= i < a.len() && (#[trigger] a[i]).0 == kind ==> a[i].1 == b[i].1,
    ensures
        bodies(a, kind) == bodies(b, kind),
    decreases a.len(),
{
    if a.len() > 0 {
        let x = a.drop_last();
        let y = b.drop_last();
        assert(a[a.len() - 1].0 == b[a.len() - 1].0);
        assert forall|i: int| 0 <= i < x.len() implies (#[trigger] x[i]).0 == y[i].0 by {
            assert(x[i] == a[i] && y[i] == b[i]);
        }
        assert forall|i: int| 0 <= i < x.len() && (#[trigger] x[i]).0 == kind implies x[i].1
            == y[i].1 by {
            assert(x[i] == a[i] && y[i] == b[i]);
        }
        bodies_alike(x, y, kind);
    } else {
        assert(bodies(a, kind) =~= bodies(b, kind));
    }
}

/// A body of a type is the payload of a child of that type.
pub proof fn body_is_of_a_kid(s: Seq<(Seq<u8>, Seq<u8>)>, kind: Seq<u8>, j: int) -> (k: int)
    requires
        0 <= j < bodies(s, kind).len(),
    ensures
        0 <= k < s.len(),
        s[k].0 == kind,
        s[k].1 == bodies(s, kind)[j],
    decreases s.len(),
{
    let f = s.drop_last();
    let before = bodies(f, kind);
    if s.last().0 == kind && j == before.len() {
        s.len() - 1
    } else {
        let k = body_is_of_a_kid(f, kind, j);
        assert(f[k] == s[k]);
        k
    }
}

/// The payload of a child of a type is a body of that type.
pub proof fn kid_is_a_body(s: Seq<(Seq<u8>, Seq<u8>)>, kind: Seq<u8>, k: int) -> (j: int)
    requires
        0 <= k < s.len(),
        s[k].0 == kind,
    ensures
        0 <= j < bodies(s, kind).len(),
        bodies(s, kind)[j] == s[k].1,
    decreases s.len(),
{
    let f = s.drop_last();
    let before = bodies(f, kind);
    if k == s.len() - 1 {
        before.len() as int
    } else {
        assert(f[k] == s[k]);
        let j = kid_is_a_body(f, kind, k);
        assert(bodies(s, kind)[j] == before[j]);
        j
    }
}

/// Bytes that agree outside the payload of child `i` have the same children but for the
/// payload of that one.
pub proof fn kids_outside(d: Seq<u8>, x: Seq<u8>, i: int)
    requires
        0 <= i < boxes(d).len(),
        agree_outside(d, x, boxes(d)[i]),
    ensures
        boxes(x) == boxes(d),
        well_boxed(x) == well_boxed(d),
        kids(x).len() == kids(d).len(),
        forall|k: int| 0 <= k < kids(d).len() ==> (#[trigger] kids(d)[k]).0 == kids(x)[k].0,
        forall|k: int| 0 <= k < kids(d).len() && k != i ==> #[trigger] kids(d)[k] == kids(x)[k],
{
    reveal(kids);
    let b = boxes(d)[i];
    boxes_lie_inside(d, 0);
    run_is_ordered(d, 0);
    assert(b.inside(d));
    same_boxes_outside(d, x, b, 0);
    let s = boxes(d);
    assert forall|k: int| 0 <= k < kids(d).len() && k != i implies #[trigger] kids(d)[k]
        == kids(x)[k] by {
        let c = s[k];
        assert(c.inside(d));
        if k < i {
            assert(s[k].end() <= s[i].start);
        } else {
            assert(s[i].end() <= s[k].start);
        }
        assert(c.payload(d) =~= c.payload(x));
    }
}

/// The chunk-offset table of a track lies inside the `minf` of its media.
pub proof fn table_is_in_minf(t: Seq<u8>)
    requires
        chunk_table(t) is Some,
    ensures
        first_of(boxes(t), MDIA@) is Some,
        ({
            let b = first_of(boxes(t), MDIA@)->0;
            let m = b.payload(t);
            let c = first_of(boxes(m), MINF@)->0;
            let (s, n, _) = chunk_table(t)->0;
            &&& b.inside(t)
            &&& b.kind == MDIA@
            &&& first_of(boxes(m), MINF@) is Some
            &&& c.inside(m)
            &&& c.kind == MINF@
            &&& b.body() + c.body() <= s
            &&& 8 <= n
            &&& s + n <= b.body() + c.end()
        }),
{
    let (_, _, wide) = chunk_table(t)->0;
    let path = if wide {
        seq![MDIA@, MINF@, STBL@, CO64@]
    } else {
        seq![MDIA@, MINF@, STBL@, STCO@]
    };
    boxes_lie_inside(t, 0);
    first_is_inside(boxes(t), MDIA@, t);
    let b = first_of(boxes(t), MDIA@)->0;
    let m = b.payload(t);
    boxes_lie_inside(m, 0);
    first_is_inside(boxes(m), MINF@, m);
    let c = first_of(boxes(m), MINF@)->0;
    let p1 = path.drop_first();
    let p2 = p1.drop_first();
    assert(p1[0] == MINF@ && p1.len() == 3 && p2.len() == 2);
    let at = PathEnd::At(b.body() + c.body(), c.total - c.header);
    assert(path_end(t, path) == path_from(
        m,
        b.body(),
        p1,
        PathEnd::At(b.body(), b.total - b.header),
    ));
    assert(path_end(t, path) == path_from(c.payload(m), b.body() + c.body(), p2, at));
    path_stays_inside(c.payload(m), b.body() + c.body(), p2, at);
}

/// `y` is the track payload `t` but for the entries of its chunk-offset table.
pub open spec fn same_but_table(t: Seq<u8>, y: Seq<u8>) -> bool {
    &&& t.len() == y.len()
    &&& match chunk_table(t) {
        Some((s, n, _)) => forall|q: int|
            0 <= q < t.len() && (q < s + 8 || q >= s + n) ==> #[trigger] y[q] == t[q],
        None => t == y,
    }
}

/// A track without keyed metadata has none after its chunk offsets have moved.
proof fn moved_track_is_plain(t: Seq<u8>, y: Seq<u8>)
    requires
        plain_track(t),
        chunk_table(t) is Some,
        same_but_table(t, y),
    ensures
        plain_track(y),
{
    reveal(kids);
    table_is_in_minf(t);
    let i = first_index(boxes(t), MDIA@);
    let b = boxes(t)[i];
    let m = b.payload(t);
    let j = first_index(boxes(m), MINF@);
    let c = boxes(m)[j];
    boxes_lie_inside(t, 0);
    boxes_lie_inside(m, 0);
    assert(b.inside(t));
    assert(c.inside(m));
    assert(agree_outside(t, y, b));
    kids_outside(t, y, i);
    let m2 = b.payload(y);
    assert(agree_outside(m, m2, c)) by {
        assert forall|q: int| 0 <= q < m.len() && (q < c.body() || q >= c.end()) implies
            #[trigger] m2[q] == m[q] by {
            assert(y[b.body() + q] == t[b.body() + q]);
        }
    }
    kids_outside(m, m2, j);
    assert(MDIA@[1] != META@[1] && MINF@[1] != META@[1]);
    bodies_alike(kids(t), kids(y), META@);
    bodies_alike(kids(m), kids(m2), META@);
    payloads_are_bodies(t, META@);
    payloads_are_bodies(y, META@);
    payloads_are_bodies(m, META@);
    payloads_are_bodies(m2, META@);
    payloads_are_bodies(t, MDIA@);
    payloads_are_bodies(y, MDIA@);
    let k0 = kid_is_a_body(kids(t), MDIA@, i);
    assert(holds_no_keyed(payloads(t, MDIA@)[k0]));
    assert(kids(t)[i].1 == m);
    assert forall|l: int| 0 <= l < payloads(y, MDIA@).len() implies holds_no_keyed(
        #[trigger] payloads(y, MDIA@)[l],
    ) by {
        let k = body_is_of_a_kid(kids(y), MDIA@, l);
        if k == i {
            assert(kids(y)[k].1 == m2);
        } else {
            assert(kids(t)[k] == kids(y)[k]);
            let l2 = kid_is_a_body(kids(t), MDIA@, k);
            assert(holds_no_keyed(payloads(t, MDIA@)[l2]));
        }
    }
}

/// The boxes of one type, by index.
pub proof fn of_kind_member(s: Seq<BoxModel>, kind: Seq<u8>, k: int) -> (j: int)
    requires
        0 <= k < of_kind(s, kind).len(),
    ensures
        0 <= j < s.len(),
        s[j] == of_kind(s, kind)[k],
        s[j].kind == kind,
    decreases s.len(),
{
    let front = s.drop_last();
    let before = of_kind(front, kind);
    if k < before.len() {
        let j = of_kind_member(front, kind, k);
        assert(front[j] == s[j]);
        j
    } else {
        s.len() - 1
    }
}

/// A box of a type is among the boxes of that type.
pub proof fn member_of_kind(s: Seq<BoxModel>, kind: Seq<u8>, j: int) -> (k: int)
    requires
        0 <= j < s.len(),
        s[j].kind == kind,
    ensures
        0 <= k < of_kind(s, kind).len(),
        of_kind(s, kind)[k] == s[j],
    decreases s.len(),
{
    let front = s.drop_last();
    let before = of_kind(front, kind);
    if j == s.len() - 1 {
        before.len() as int
    } else {
        assert(front[j] == s[j]);
        let k = member_of_kind(front, kind, j);
        assert(of_kind(s, kind)[k] == before[k]);
        k
    }
}

/// After patching, every child but the tracks is as it was, and every track is as it was but
/// for the entries of its chunk-offset table.
pub proof fn patched_payloads(kept: Seq<u8>, delta: int, x: Seq<u8>, i: int)
    requires
        sealed(kept),
        patched(kept, delta) == Patched::Done(x),
        boxes(x) == boxes(kept),
        0 <= i < boxes(kept).len(),
    ensures
        boxes(kept)[i].kind != TRAK@ ==> boxes(kept)[i].payload(x) == boxes(kept)[i].payload(kept),
        boxes(kept)[i].kind == TRAK@ ==> same_but_table(
            boxes(kept)[i].payload(kept),
            boxes(kept)[i].payload(x),
        ) && chunk_table(boxes(kept)[i].payload(kept)) is Some,
{
    every_chunk_offset_moves(kept, delta, x);
    let s = boxes(kept);
    let b = s[i];
    let traks = of_kind(s, TRAK@);
    boxes_lie_inside(kept, 0);
    run_is_ordered(kept, 0);
    assert(b.inside(kept));
    let t = b.payload(kept);
    let y = b.payload(x);
    assert forall|q: int|
        0 <= q < t.len() && (b.kind == TRAK@ ==> off_table(kept, b, b.body() + q)) implies
        #[trigger] y[q] == t[q] by {
        let p = b.body() + q;
        assert forall|k: int| 0 <= k < traks.len() implies off_table(kept, #[trigger] traks[k], p) by {
            let j = of_kind_member(s, TRAK@, k);
            let c = s[j];
            assert(c.inside(kept));
            table_is_inside(c.payload(kept));
            if j < i {
                assert(s[j].end() <= s[i].start);
            } else if j > i {
                assert(s[i].end() <= s[j].start);
            }
        }
        assert(off_tables(kept, traks, p));
        assert(x[p] == kept[p]);
    }
    if b.kind == TRAK@ {
        table_is_inside(t);
        let k = member_of_kind(s, TRAK@, i);
        assert(track_moved(kept, x, traks[k], delta));
        match chunk_table(t) {
            Some((a, n, _)) => {
                assert forall|q: int| 0 <= q < t.len() && (q < a + 8 || q >= a + n) implies
                    #[trigger] y[q] == t[q] by {
                    assert(off_table(kept, b, b.body() + q));
                }
            },
            None => {
                assert forall|q: int| 0 <= q < t.len() implies #[trigger] y[q] == t[q] by {
                    assert(off_table(kept, b, b.body() + q));
                }
                assert(t =~= y);
            },
        }
    } else {
        assert(t =~= y);
    }
}

/// What is kept of a movie, its chunk offsets moved, holds no keyed metadata.
proof fn patched_movie_is_plain(movie: Seq<u8>, delta: int, x: Seq<u8>)
    requires
        sized(movie),
        kept_movie(movie).len() <= MAX_BOX,
        patched(kept_movie(movie), delta) == Patched::Done(x),
    ensures
        sealed(x),
        bodies(kids(x), UDTA@) == Seq::<Seq<u8>>::empty(),
        first_body(kids(x), UDTA@) is None,
        all_plain(bodies(kids(x), META@)),
        forall|k: int|
            0 <= k < bodies(kids(x), TRAK@).len() ==> plain_track(
                #[trigger] bodies(kids(x), TRAK@)[k],
            ),
{
    reveal(kids);
    let kept = kept_movie(movie);
    kept_movie_stands(movie);
    assert(TRAK@[0] == 0x74 && META@[0] == 0x6d && UDTA@[0] == 0x75);
    no_bodies_no_first(kids(kept), UDTA@);
    patched_children_stand(kept, delta, x);
    assert forall|i: int| 0 <= i < kids(kept).len() && (#[trigger] kids(kept)[i]).0 == META@ implies
        kids(kept)[i].1 == kids(x)[i].1 by {
        patched_payloads(kept, delta, x, i);
    }
    assert forall|i: int| 0 <= i < kids(kept).len() && (#[trigger] kids(kept)[i]).0 == UDTA@ implies
        kids(kept)[i].1 == kids(x)[i].1 by {
        patched_payloads(kept, delta, x, i);
    }
    bodies_alike(kids(kept), kids(x), META@);
    bodies_alike(kids(kept), kids(x), UDTA@);
    payloads_are_bodies(kept, TRAK@);
    assert forall|k: int| 0 <= k < bodies(kids(x), TRAK@).len() implies plain_track(
        #[trigger] bodies(kids(x), TRAK@)[k],
    ) by {
        let i = body_is_of_a_kid(kids(x), TRAK@, k);
        patched_payloads(kept, delta, x, i);
        let l = kid_is_a_body(kids(kept), TRAK@, i);
        let t = kids(kept)[i].1;
        assert(is_stripped_track(bodies(kids(kept), TRAK@)[l]));
        stripped_track_and_media(t);
        moved_track_is_plain(t, kids(x)[i].1);
    }
}

/// Where no child has a type, there is no first one.
pub proof fn no_bodies_no_first(s: Seq<(Seq<u8>, Seq<u8>)>, kind: Seq<u8>)
    requires
        bodies(s, kind) == Seq::<Seq<u8>>::empty(),
    ensures
        first_body(s, kind) is None,
    decreases s.len(),
{
    if s.len() > 0 {
        let rest = s.drop_first();
        let one = seq![s[0]];
        assert(s =~= one + rest);
        bodies_concat(one, rest, kind);
        single_body(s[0].0, s[0].1, kind);
        assert(bodies(rest, kind) =~= Seq::empty());
        no_bodies_no_first(rest, kind);
    }
}

/// A carried chapter list holds no `meta`.
proof fn chapters_hold_no_meta(udtas: Seq<Seq<u8>>)
    ensures
        match chapters_among(udtas) {
            Some(c) => bodies(kids(c), META@) == Seq::<Seq<u8>>::empty(),
            None => true,
        },
    decreases udtas.len(),
{
    if udtas.len() > 0 {
        let u = udtas[0];
        boxes_lie_inside(u, 0);
        crate::mp4::offsets::first_is_inside(boxes(u), CHPL@, u);
        match first_of(boxes(u), CHPL@) {
            Some(b) => {
                first_has_place(boxes(u), CHPL@, u);
                verbatim_box(u, b);
                assert(CHPL@[0] == 0x63 && META@[0] == 0x6d);
                single_body(b.kind, b.payload(u), META@);
            },
            None => {
                chapters_hold_no_meta(udtas.drop_first());
            },
        }
    }
}

/// The first box of a type among the boxes of `d` is the box at its place.
proof fn first_has_place(s: Seq<BoxModel>, kind: Seq<u8>, d: Seq<u8>)
    requires
        s == boxes(d),
    ensures
        match first_of(s, kind) {
            Some(b) => box_at(d, b.start) == Some(b) && b.start >= 0,
            None => true,
        },
{
    if let Some(b) = first_of(s, kind) {
        let i = first_index(s, kind);
        run_places(d, 0, i);
    }
}

/// Where the first box of a type stands in a list.
pub proof fn first_index(s: Seq<BoxModel>, kind: Seq<u8>) -> (i: int)
    requires
        first_of(s, kind) is Some,
    ensures
        0 <= i < s.len(),
        first_of(s, kind) == Some(s[i]),
    decreases s.len(),
{
    if s[0].kind == kind {
        0
    } else {
        let i = first_index(s.drop_first(), kind);
        assert(s.drop_first()[i] == s[i + 1]);
        i + 1
    }
}

/// A regenerated movie payload holds no keyed metadata.
proof fn regenerated_movie_is_plain(
    movie: Seq<u8>,
    delta: int,
    x: Seq<u8>,
    contents: Seq<u8>,
)
    requires
        sized(movie),
        kept_movie(movie).len() <= MAX_BOX,
        patched(kept_movie(movie), delta) == Patched::Done(x),
        8 + udta_body(contents, carried_chapters(movie)).len() <= MAX_BOX,
    ensures
        keyed_of(
            keyed_containers(
                x + boxed_bytes(UDTA@, udta_body(contents, carried_chapters(movie))),
            ),
        ) == Seq::<Seq<u8>>::empty(),
{
    let chapters = carried_chapters(movie);
    let ub = udta_body(contents, chapters);
    let u = boxed_bytes(UDTA@, ub);
    let m = x + u;
    let none = Seq::<Seq<u8>>::empty();
    patched_movie_is_plain(movie, delta, x);
    assert(UDTA@.len() == 4 && META@.len() == 4 && UDTA@[0] == 0x75 && META@[0] == 0x6d
        && TRAK@[0] == 0x74);
    kids_of_box(UDTA@, ub);
    kids_concat(x, u);
    bodies_concat(kids(x), kids(u), META@);
    bodies_concat(kids(x), kids(u), UDTA@);
    bodies_concat(kids(x), kids(u), TRAK@);
    single_body(UDTA@, ub, META@);
    single_body(UDTA@, ub, UDTA@);
    single_body(UDTA@, ub, TRAK@);
    payloads_are_bodies(m, META@);
    payloads_are_bodies(m, UDTA@);
    payloads_are_bodies(m, TRAK@);
    let traks = bodies(kids(x), TRAK@);
    assert(bodies(kids(x), META@) + none =~= bodies(kids(x), META@));
    assert(none + seq![ub] =~= seq![ub]);
    assert(traks + none =~= traks);
    user_data_is_plain(movie, contents);
    let cs = keyed_containers(m);
    assert(cs =~= seq![m] + seq![ub] + track_containers(traks));
    assert forall|i: int| 0 <= i < cs.len() implies holds_no_keyed(#[trigger] cs[i]) by {
        if i > 1 {
            plain_tracks(traks, i - 2);
            assert(cs[i] == track_containers(traks)[i - 2]);
        }
    }
    plain_containers(cs);
}

/// Regenerated user data holds no keyed metadata.
proof fn user_data_is_plain(movie: Seq<u8>, contents: Seq<u8>)
    requires
        8 + udta_body(contents, carried_chapters(movie)).len() <= MAX_BOX,
    ensures
        holds_no_keyed(udta_body(contents, carried_chapters(movie))),
{
    let chapters = carried_chapters(movie);
    let mb = meta_body(contents);
    let mx = boxed_bytes(META@, mb);
    let ub = udta_body(contents, chapters);
    assert(META@.len() == 4);
    meta_body_reads(contents);
    kids_of_box(META@, mb);
    kids_concat(mx, chapters);
    bodies_concat(kids(mx), kids(chapters), META@);
    single_body(META@, mb, META@);
    chapters_hold_no_meta(payloads(movie, UDTA@));
    if chapters.len() == 0 {
        no_kids(chapters);
        assert(bodies(kids(chapters), META@) =~= Seq::empty());
    }
    payloads_are_bodies(ub, META@);
    let one = seq![mb];
    assert(one + Seq::<Seq<u8>>::empty() =~= one);
}

/// A re-tagged MP4 file carries the regenerated tags alone: its tags are the text tags that
/// went in, its images the images that went in. Nothing of the keyed metadata that the file
/// had comes back.
///
/// As for the `ilst` alone, the file's `ftyp` and every child of its `moov` that is kept as it
/// stands must say their size.
pub proof fn only_regenerated_tags(
    scan: Mp4Scan,
    movie: Seq<u8>,
    kept: Seq<u8>,
    tags: Seq<TagInput>,
    binary_tags: Seq<BinaryTagInput>,
    arts: Seq<ArtInput>,
    src: Sources,
)
    requires
        movie_of(scan.moov@) == Some(movie),
        new_moov_size(movie, tags, binary_tags, arts) <= MAX_BOX,
        patched(kept_movie(movie), audio_shift(scan, movie, tags, binary_tags, arts))
            == Patched::Done(kept),
        sized(movie),
        sealed(scan.ftyp@),
        first_body(kids(scan.ftyp@), MOOV@) is None,
        sources_hold(src, binary_tags, arts),
        scan.mdat_payload_offset + scan.mdat_payload_len <= src.backing.len(),
    ensures
        ({
            let file = served_bytes(
                src,
                mp4_segments(scan, movie, kept, tags, binary_tags, arts),
            );
            &&& file_keyed_metas(file) == Seq::<Seq<u8>>::empty()
            &&& file_tags(file) == text_values(groups_back(groups_of(tags, false)))
            &&& file_images(file) == images_back(arts, src)
        }),
{
    let delta = audio_shift(scan, movie, tags, binary_tags, arts);
    let contents = ilst_contents(tags, binary_tags, arts, src);
    let chapters = carried_chapters(movie);
    let audio = src.backing.subrange(
        scan.mdat_payload_offset as int,
        scan.mdat_payload_offset + scan.mdat_payload_len,
    );
    synthesized_file_reads_back(scan, movie, kept, tags, binary_tags, arts, src);
    udta_adds(crate::layout::empty_draft(), tags, binary_tags, arts, chapters);
    patched_movie_is_plain(movie, delta, kept);
    every_chunk_offset_moves(kept_movie(movie), delta, kept);
    file_served(scan, movie, kept, tags, binary_tags, arts, src);
    front_reads(scan.ftyp@, kept, contents, chapters, scan.mdat_header@ + audio);
    regenerated_movie_is_plain(movie, delta, kept, contents);
    let file = served_bytes(src, mp4_segments(scan, movie, kept, tags, binary_tags, arts));
    let none = Seq::<Seq<u8>>::empty();
    assert(all_items(none) =~= Seq::<ItemModel>::empty());
    crate::mp4::laws::ilst_reads_back(tags, binary_tags, arts, src);
    if images_back(arts, src).len() == 0 {
        assert(keyed_artwork(Seq::<ItemModel>::empty()) is None);
        assert(images_back(arts, src) =~= Seq::empty());
    }
}

} // verus!
