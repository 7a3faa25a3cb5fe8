//! What synthesis keeps of a movie, child by child.

use crate::bytes::be32;
use crate::mp4::boxes::boxes;
use crate::mp4::boxes::boxes_end;
use crate::mp4::boxes::boxes_lie_inside;
use crate::mp4::boxes::first_of;
use crate::mp4::boxes::first_payload;
use crate::mp4::boxes::path_end;
use crate::mp4::boxes::path_from;
use crate::mp4::boxes::well_boxed;
use crate::mp4::boxes::PathEnd;
use crate::mp4::boxes::CO64;
use crate::mp4::boxes::HDLR;
use crate::mp4::boxes::MDIA;
use crate::mp4::boxes::META;
use crate::mp4::boxes::MINF;
use crate::mp4::boxes::MVEX;
use crate::mp4::boxes::STBL;
use crate::mp4::boxes::STCO;
use crate::mp4::boxes::TRAK;
use crate::mp4::boxes::UDTA;
use crate::mp4::file_laws::run_places;
use crate::mp4::file_laws::sized;
use crate::mp4::file_laws::verbatim_box;
use crate::mp4::keyed::is_keyed;
use crate::mp4::kids::bodies;
use crate::mp4::kids::end_concat;
use crate::mp4::kids::first_body;
use crate::mp4::kids::first_body_concat;
use crate::mp4::kids::first_payload_is_first_body;
use crate::mp4::kids::kids;
use crate::mp4::kids::kids_concat;
use crate::mp4::kids::kids_of_resized;
use crate::mp4::kids::no_kids;
use crate::mp4::kids::sealed;
use crate::mp4::kids::sealed_concat;
use crate::mp4::kids::sealed_end;
use crate::mp4::kids::single_body;
use crate::mp4::offsets::chunk_table;
use crate::mp4::offsets::entry_pos;
use crate::mp4::offsets::first_is_inside;
use crate::mp4::offsets::offset_at;
use crate::mp4::offsets::path_stays_inside;
use crate::mp4::relocation::track_offsets;
use crate::mp4::strip::drops;
use crate::mp4::strip::kept_movie;
use crate::mp4::strip::media_children;
use crate::mp4::strip::movie_child;
use crate::mp4::strip::movie_children;
use crate::mp4::strip::stripped_media;
use crate::mp4::strip::stripped_track;
use crate::mp4::strip::track_child;
use crate::mp4::strip::track_children;
use crate::mp4::strip::MAX_BOX;
use crate::mp4::strip_laws::media_children_stand;
use crate::mp4::strip_laws::rest_has_no_kids;
use crate::mp4::strip_laws::track_children_stand;
use crate::mp4::structure::track_handler;
use vstd::prelude::*;

verus! {

/// A child that is keyed metadata.
pub open spec fn keyed_kid(k: (Seq<u8>, Seq<u8>)) -> bool {
    k.0 == META@ && is_keyed(k.1)
}

/// What stays of the children of a media box: all but keyed metadata.
pub open spec fn media_kids(s: Seq<(Seq<u8>, Seq<u8>)>) -> Seq<(Seq<u8>, Seq<u8>)>
    decreases s.len(),
{
    if s.len() == 0 {
        Seq::empty()
    } else {
        let before = media_kids(s.drop_last());
        if keyed_kid(s.last()) {
            before
        } else {
            before.push(s.last())
        }
    }
}

/// What stays of the children of a track: all but keyed metadata, media stripped of theirs.
pub open spec fn track_kids(s: Seq<(Seq<u8>, Seq<u8>)>) -> Seq<(Seq<u8>, Seq<u8>)>
    decreases s.len(),
{
    if s.len() == 0 {
        Seq::empty()
    } else {
        let before = track_kids(s.drop_last());
        let k = s.last();
        if keyed_kid(k) {
            before
        } else if k.0 == MDIA@ {
            before.push((k.0, stripped_media(k.1)))
        } else {
            before.push(k)
        }
    }
}

/// What stays of the children of a movie: all but user data and keyed metadata, tracks
/// stripped of theirs.
pub open spec fn movie_kids(s: Seq<(Seq<u8>, Seq<u8>)>) -> Seq<(Seq<u8>, Seq<u8>)>
    decreases s.len(),
{
    if s.len() == 0 {
        Seq::empty()
    } else {
        let before = movie_kids(s.drop_last());
        let k = s.last();
        if k.0 == UDTA@ || keyed_kid(k) {
            before
        } else if k.0 == TRAK@ {
            before.push((k.0, stripped_track(k.1)))
        } else {
            before.push(k)
        }
    }
}

/// Child `n` of `d`.
proof fn kid_at(d: Seq<u8>, n: int)
    requires
        0 <= n < boxes(d).len(),
    ensures
        kids(d).len() == boxes(d).len(),
        kids(d)[n] == (boxes(d)[n].kind, boxes(d)[n].payload(d)),
        kids(d).take(n + 1).drop_last() == kids(d).take(n),
        kids(d).take(n + 1).last() == kids(d)[n],
{
    reveal(kids);
    assert(kids(d).take(n + 1).drop_last() =~= kids(d).take(n));
}

/// What is kept of the first `n` children of a media box.
proof fn media_kids_stand(d: Seq<u8>, n: int)
    requires
        0 <= n <= boxes(d).len(),
    ensures
        kids(media_children(boxes(d).take(n), d)) == media_kids(kids(d).take(n)),
        boxes_end(media_children(boxes(d).take(n), d), 0) == media_children(
            boxes(d).take(n),
            d,
        ).len(),
    decreases n,
{
    let s = boxes(d).take(n);
    let all = media_children(s, d);
    if n == 0 {
        no_kids(all);
        assert(kids(d).take(0) =~= Seq::empty());
        sealed_end(all);
    } else {
        let f = boxes(d).take(n - 1);
        assert(s.drop_last() =~= f);
        let b = s.last();
        assert(b == boxes(d)[n - 1]);
        run_places(d, 0, n - 1);
        let a = media_children(f, d);
        media_children_stand(d, n - 1);
        media_kids_stand(d, n - 1);
        kid_at(d, n - 1);
        if drops(b, d) {
            assert(all =~= a);
        } else {
            let c = b.bytes(d);
            verbatim_box(d, b);
            kids_concat(a, c);
            end_concat(a, c);
            assert(kids(a) + seq![(b.kind, b.payload(d))] =~= kids(a).push(
                (b.kind, b.payload(d)),
            ));
        }
    }
}

/// The children of a stripped media payload.
pub proof fn stripped_media_kids(p: Seq<u8>)
    ensures
        kids(stripped_media(p)) == media_kids(kids(p)),
        well_boxed(stripped_media(p)) == well_boxed(p),
{
    reveal(kids);
    let n = boxes(p).len() as int;
    let s = boxes(p);
    assert(s.take(n) =~= s);
    assert(kids(p).take(n) =~= kids(p));
    media_children_stand(p, n);
    media_kids_stand(p, n);
    boxes_lie_inside(p, 0);
    rest_has_no_kids(p, 0);
    let a = media_children(s, p);
    let r = p.skip(boxes_end(p, 0));
    if n > 0 && be32(p, s.last().start) == 0 {
        assert(r =~= Seq::empty());
        assert(a + r =~= a);
    } else {
        kids_concat(a, r);
        end_concat(a, r);
        no_kids(r);
        assert(boxes_end(r, 0) == 0);
        assert(kids(a) + kids(r) =~= kids(a));
    }
}

/// What is kept of the first `n` children of a track.
proof fn track_kids_stand(d: Seq<u8>, n: int)
    requires
        0 <= n <= boxes(d).len(),
        track_children(boxes(d).take(n), d).len() <= MAX_BOX,
    ensures
        kids(track_children(boxes(d).take(n), d)) == track_kids(kids(d).take(n)),
        boxes_end(track_children(boxes(d).take(n), d), 0) == track_children(
            boxes(d).take(n),
            d,
        ).len(),
    decreases n,
{
    let s = boxes(d).take(n);
    let all = track_children(s, d);
    if n == 0 {
        no_kids(all);
        assert(kids(d).take(0) =~= Seq::empty());
        sealed_end(all);
    } else {
        let f = boxes(d).take(n - 1);
        assert(s.drop_last() =~= f);
        let b = s.last();
        assert(b == boxes(d)[n - 1]);
        run_places(d, 0, n - 1);
        boxes_lie_inside(d, 0);
        assert(b.inside(d));
        let a = track_children(f, d);
        let c = track_child(b, d);
        assert(all =~= a + c);
        track_children_stand(d, n - 1);
        track_kids_stand(d, n - 1);
        kid_at(d, n - 1);
        assert(MDIA@.len() == 4 && META@.len() == 4 && MDIA@[1] != META@[1]);
        if drops(b, d) {
            assert(a + c =~= a);
        } else {
            let payload = if b.kind == MDIA@ {
                stripped_media(b.payload(d))
            } else {
                b.payload(d)
            };
            if b.kind == MDIA@ {
                kids_of_resized(b.header, b.kind, payload);
                sealed_end(c);
            } else {
                verbatim_box(d, b);
            }
            kids_concat(a, c);
            end_concat(a, c);
            assert(kids(a) + seq![(b.kind, payload)] =~= kids(a).push((b.kind, payload)));
        }
    }
}

/// The children of a stripped track payload.
pub proof fn stripped_track_kids(p: Seq<u8>)
    requires
        stripped_track(p).len() <= MAX_BOX,
    ensures
        kids(stripped_track(p)) == track_kids(kids(p)),
        well_boxed(stripped_track(p)) == well_boxed(p),
{
    reveal(kids);
    let n = boxes(p).len() as int;
    let s = boxes(p);
    assert(s.take(n) =~= s);
    assert(kids(p).take(n) =~= kids(p));
    track_children_stand(p, n);
    track_kids_stand(p, n);
    boxes_lie_inside(p, 0);
    rest_has_no_kids(p, 0);
    let a = track_children(s, p);
    let r = p.skip(boxes_end(p, 0));
    if n > 0 && be32(p, s.last().start) == 0 {
        assert(r =~= Seq::empty());
        assert(a + r =~= a);
    } else {
        kids_concat(a, r);
        end_concat(a, r);
        no_kids(r);
        assert(boxes_end(r, 0) == 0);
        assert(kids(a) + kids(r) =~= kids(a));
    }
}

/// What is kept of the first `n` children of a movie.
proof fn movie_kids_stand(d: Seq<u8>, n: int)
    requires
        sized(d),
        0 <= n <= boxes(d).len(),
        movie_children(boxes(d).take(n), d).len() <= MAX_BOX,
    ensures
        sealed(movie_children(boxes(d).take(n), d)),
        kids(movie_children(boxes(d).take(n), d)) == movie_kids(kids(d).take(n)),
        forall|k: int|
            0 <= k < n && (#[trigger] boxes(d)[k]).kind == TRAK@ ==> stripped_track(
                boxes(d)[k].payload(d),
            ).len() <= MAX_BOX,
    decreases n,
{
    let s = boxes(d).take(n);
    let all = movie_children(s, d);
    if n == 0 {
        no_kids(all);
        assert(kids(d).take(0) =~= Seq::empty());
    } else {
        let f = boxes(d).take(n - 1);
        assert(s.drop_last() =~= f);
        let b = s.last();
        assert(b == boxes(d)[n - 1]);
        run_places(d, 0, n - 1);
        boxes_lie_inside(d, 0);
        assert(b.inside(d));
        let a = movie_children(f, d);
        let c = movie_child(b, d);
        assert(all =~= a + c);
        movie_kids_stand(d, n - 1);
        kid_at(d, n - 1);
        assert(TRAK@[0] == 0x74 && META@[0] == 0x6d && UDTA@[0] == 0x75);
        assert(TRAK@.len() == 4 && META@.len() == 4 && UDTA@.len() == 4);
        if b.kind == UDTA@ || drops(b, d) {
            assert(a + c =~= a);
        } else {
            let payload = if b.kind == TRAK@ {
                stripped_track(b.payload(d))
            } else {
                b.payload(d)
            };
            if b.kind == TRAK@ {
                kids_of_resized(b.header, b.kind, payload);
            } else {
                verbatim_box(d, b);
            }
            kids_concat(a, c);
            sealed_concat(a, c);
            assert(kids(a) + seq![(b.kind, payload)] =~= kids(a).push((b.kind, payload)));
        }
    }
}

/// The children that synthesis keeps of a movie are its children in order, but for user data
/// and keyed metadata; a track is kept without its own keyed metadata and that of its media.
pub proof fn kept_movie_kids(movie: Seq<u8>)
    requires
        sized(movie),
        kept_movie(movie).len() <= MAX_BOX,
    ensures
        sealed(kept_movie(movie)),
        kids(kept_movie(movie)) == movie_kids(kids(movie)),
        forall|k: int|
            0 <= k < boxes(movie).len() && (#[trigger] boxes(movie)[k]).kind == TRAK@
                ==> stripped_track(boxes(movie)[k].payload(movie)).len() <= MAX_BOX,
{
    reveal(kids);
    let n = boxes(movie).len() as int;
    assert(boxes(movie).take(n) =~= boxes(movie));
    assert(kids(movie).take(n) =~= kids(movie));
    movie_kids_stand(movie, n);
}

/// What a path leads to, as bytes.
pub ghost enum Found {
    /// A box list on the way is unreadable.
    Broken,
    /// A step is missing.
    Nowhere,
    /// The payload of the last box.
    Payload(Seq<u8>),
}

/// What `path` leads to in `d`.
pub open spec fn found(d: Seq<u8>, path: Seq<Seq<u8>>) -> Found
    decreases path.len(),
{
    if path.len() == 0 {
        Found::Payload(d)
    } else if !well_boxed(d) {
        Found::Broken
    } else {
        match first_payload(d, path[0]) {
            Some(p) => found(p, path.drop_first()),
            None => Found::Nowhere,
        }
    }
}

/// A path leads to what stands where it leads.
proof fn found_is_at(d: Seq<u8>, base: int, path: Seq<Seq<u8>>, at: PathEnd)
    requires
        path.len() > 0,
    ensures
        match path_from(d, base, path, at) {
            PathEnd::Broken => found(d, path) is Broken,
            PathEnd::Nowhere => found(d, path) is Nowhere,
            PathEnd::At(s, n) => found(d, path) == Found::Payload(
                d.subrange(s - base, s - base + n),
            ),
        },
    decreases path.len(),
{
    boxes_lie_inside(d, 0);
    first_is_inside(boxes(d), path[0], d);
    if well_boxed(d) {
        if let Some(b) = first_of(boxes(d), path[0]) {
            let p = b.payload(d);
            let rest = path.drop_first();
            let next = PathEnd::At(base + b.body(), b.total - b.header);
            if path.len() > 1 {
                found_is_at(p, base + b.body(), rest, next);
                path_stays_inside(p, base + b.body(), rest, next);
                if let PathEnd::At(s, n) = path_from(p, base + b.body(), rest, next) {
                    let i = s - base - b.body();
                    assert(p.subrange(i, i + n) =~= d.subrange(s - base, s - base + n));
                }
            } else {
                assert(path_from(p, base + b.body(), rest, next) == next);
                assert(found(p, rest) == Found::Payload(p));
                assert(p =~= d.subrange(b.body(), b.body() + (b.total - b.header)));
            }
        }
    }
}

/// The handler type in a `hdlr` payload.
spec fn handler_in(f: Found) -> Option<Option<Seq<u8>>> {
    match f {
        Found::Broken => None,
        Found::Nowhere => Some(None),
        Found::Payload(p) => if p.len() >= 12 {
            Some(Some(p.subrange(8, 12)))
        } else {
            Some(None)
        },
    }
}

proof fn handler_by_payload(t: Seq<u8>)
    ensures
        track_handler(t) == handler_in(found(t, seq![MDIA@, HDLR@])),
{
    let path = seq![MDIA@, HDLR@];
    found_is_at(t, 0, path, PathEnd::Nowhere);
    path_stays_inside(t, 0, path, PathEnd::Nowhere);
    if let PathEnd::At(s, n) = path_end(t, path) {
        let p = t.subrange(s, s + n);
        if n >= 12 {
            assert(p.subrange(8, 12) =~= t.subrange(s + 8, s + 12));
        }
    }
}

/// The offsets in a chunk-offset table payload.
spec fn table_values(p: Seq<u8>, wide: bool) -> Option<Seq<int>> {
    let count = be32(p, 4);
    if p.len() >= 8 && entry_pos(0, count, wide) <= p.len() {
        Some(Seq::new(count as nat, |i: int| offset_at(p, entry_pos(0, i, wide), wide)))
    } else {
        None
    }
}

/// The offsets of a track by its two kinds of table.
spec fn offsets_in(narrow: Found, wide: Found) -> Option<Seq<int>> {
    match narrow {
        Found::Broken => None,
        Found::Payload(p) => table_values(p, false),
        Found::Nowhere => match wide {
            Found::Payload(p) => table_values(p, true),
            _ => None,
        },
    }
}

/// A table read where it stands, or by itself.
proof fn table_by_itself(t: Seq<u8>, s: int, n: int, wide: bool)
    requires
        0 <= s,
        8 <= n,
        s + n <= t.len(),
    ensures
        (if entry_pos(s, be32(t, s + 4), wide) <= s + n {
            Some(
                Seq::new(
                    be32(t, s + 4) as nat,
                    |i: int| offset_at(t, entry_pos(s, i, wide), wide),
                ),
            )
        } else {
            None
        }) == table_values(t.subrange(s, s + n), wide),
{
    let p = t.subrange(s, s + n);
    assert(p[4] == t[s + 4] && p[5] == t[s + 5] && p[6] == t[s + 6] && p[7] == t[s + 7]);
    let count = be32(p, 4);
    assert(count == be32(t, s + 4));
    if entry_pos(0, count, wide) <= p.len() {
        assert forall|i: int| 0 <= i < count implies offset_at(t, entry_pos(s, i, wide), wide)
            == offset_at(p, entry_pos(0, i, wide), wide) by {
            let q = entry_pos(0, i, wide);
            assert(q + 4 <= n);
            assert(p[q] == t[s + q] && p[q + 1] == t[s + q + 1] && p[q + 2] == t[s + q + 2] && p[q
                + 3] == t[s + q + 3]);
            if wide {
                assert(q + 8 <= n);
                assert(p[q + 4] == t[s + q + 4] && p[q + 5] == t[s + q + 5] && p[q + 6] == t[s + q
                    + 6] && p[q + 7] == t[s + q + 7]);
            }
        }
        assert(Seq::new(count as nat, |i: int| offset_at(t, entry_pos(s, i, wide), wide))
            =~= Seq::new(count as nat, |i: int| offset_at(p, entry_pos(0, i, wide), wide)));
    }
}

proof fn offsets_by_payload(t: Seq<u8>)
    ensures
        track_offsets(t) == offsets_in(
            found(t, seq![MDIA@, MINF@, STBL@, STCO@]),
            found(t, seq![MDIA@, MINF@, STBL@, CO64@]),
        ),
{
    let narrow = seq![MDIA@, MINF@, STBL@, STCO@];
    let wide = seq![MDIA@, MINF@, STBL@, CO64@];
    found_is_at(t, 0, narrow, PathEnd::Nowhere);
    path_stays_inside(t, 0, narrow, PathEnd::Nowhere);
    found_is_at(t, 0, wide, PathEnd::Nowhere);
    path_stays_inside(t, 0, wide, PathEnd::Nowhere);
    if let Some((s, n, w)) = chunk_table(t) {
        table_by_itself(t, s, n, w);
    }
}

/// Stripping children of a media box leaves the first child of any other type.
proof fn first_media_kid(s: Seq<(Seq<u8>, Seq<u8>)>, kind: Seq<u8>)
    requires
        kind != META@,
    ensures
        first_body(media_kids(s), kind) == first_body(s, kind),
    decreases s.len(),
{
    if s.len() > 0 {
        let f = s.drop_last();
        let k = s.last();
        first_media_kid(f, kind);
        assert(s =~= f + seq![k]);
        first_body_concat(f, seq![k], kind);
        single_body(k.0, k.1, kind);
        if !keyed_kid(k) {
            assert(media_kids(s) =~= media_kids(f) + seq![k]);
            first_body_concat(media_kids(f), seq![k], kind);
        }
    }
}

/// Stripping children of a track leaves its first media, stripped.
proof fn first_track_media(s: Seq<(Seq<u8>, Seq<u8>)>)
    ensures
        first_body(track_kids(s), MDIA@) == match first_body(s, MDIA@) {
            Some(m) => Some(stripped_media(m)),
            None => None,
        },
    decreases s.len(),
{
    if s.len() > 0 {
        let f = s.drop_last();
        let k = s.last();
        first_track_media(f);
        assert(MDIA@[1] != META@[1]);
        assert(s =~= f + seq![k]);
        first_body_concat(f, seq![k], MDIA@);
        single_body(k.0, k.1, MDIA@);
        if !keyed_kid(k) {
            let l = if k.0 == MDIA@ {
                (k.0, stripped_media(k.1))
            } else {
                k
            };
            assert(track_kids(s) =~= track_kids(f) + seq![l]);
            first_body_concat(track_kids(f), seq![l], MDIA@);
            single_body(l.0, l.1, MDIA@);
        }
    }
}

/// A path into the media of a track leads to the same in the stripped track.
proof fn found_in_stripped(t: Seq<u8>, path: Seq<Seq<u8>>)
    requires
        stripped_track(t).len() <= MAX_BOX,
        path.len() >= 2,
        path[0] == MDIA@,
        path[1] != META@,
    ensures
        found(stripped_track(t), path) == found(t, path),
{
    let y = stripped_track(t);
    stripped_track_kids(t);
    first_track_media(kids(t));
    first_payload_is_first_body(t, MDIA@);
    first_payload_is_first_body(y, MDIA@);
    if let Some(m) = first_payload(t, MDIA@) {
        let z = stripped_media(m);
        stripped_media_kids(m);
        let rest = path.drop_first();
        assert(rest[0] == path[1]);
        first_media_kid(kids(m), rest[0]);
        first_payload_is_first_body(m, rest[0]);
        first_payload_is_first_body(z, rest[0]);
        assert(found(z, rest) == found(m, rest));
    }
}

/// A stripped track has the handler and the chunk offsets of the track.
pub proof fn stripped_track_reads(t: Seq<u8>)
    requires
        stripped_track(t).len() <= MAX_BOX,
    ensures
        track_handler(stripped_track(t)) == track_handler(t),
        track_offsets(stripped_track(t)) == track_offsets(t),
{
    let y = stripped_track(t);
    assert(META@[2] == 0x74 && META@[0] == 0x6d && HDLR@[0] == 0x68 && MINF@[2] == 0x6e);
    handler_by_payload(t);
    handler_by_payload(y);
    offsets_by_payload(t);
    offsets_by_payload(y);
    found_in_stripped(t, seq![MDIA@, HDLR@]);
    found_in_stripped(t, seq![MDIA@, MINF@, STBL@, STCO@]);
    found_in_stripped(t, seq![MDIA@, MINF@, STBL@, CO64@]);
}

/// The tracks that are kept are the tracks, stripped, in order.
pub proof fn kept_tracks(s: Seq<(Seq<u8>, Seq<u8>)>)
    ensures
        bodies(movie_kids(s), TRAK@) == Seq::new(
            bodies(s, TRAK@).len(),
            |i: int| stripped_track(bodies(s, TRAK@)[i]),
        ),
        first_body(s, MVEX@) is None ==> first_body(movie_kids(s), MVEX@) is None,
    decreases s.len(),
{
    let got = bodies(movie_kids(s), TRAK@);
    let want = Seq::new(bodies(s, TRAK@).len(), |i: int| stripped_track(bodies(s, TRAK@)[i]));
    if s.len() > 0 {
        let f = s.drop_last();
        let k = s.last();
        kept_tracks(f);
        assert(TRAK@[0] == 0x74 && META@[0] == 0x6d && UDTA@[0] == 0x75 && MVEX@[0] == 0x6d
            && MVEX@[1] == 0x76);
        assert(s =~= f + seq![k]);
        first_body_concat(f, seq![k], MVEX@);
        single_body(k.0, k.1, MVEX@);
        if !(k.0 == UDTA@ || keyed_kid(k)) {
            let l = if k.0 == TRAK@ {
                (k.0, stripped_track(k.1))
            } else {
                k
            };
            let m = movie_kids(s);
            assert(m == movie_kids(f).push(l));
            assert(m.drop_last() =~= movie_kids(f));
            assert(m =~= movie_kids(f) + seq![l]);
            first_body_concat(movie_kids(f), seq![l], MVEX@);
            single_body(l.0, l.1, MVEX@);
        }
        assert(got =~= want);
    } else {
        assert(got =~= want);
    }
}

} // verus!
