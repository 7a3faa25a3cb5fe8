//! What synthesis keeps of a `moov` holds no keyed metadata.

use crate::bytes::be32;
use crate::mp4::boxes::box_at;
use crate::mp4::boxes::boxes;
use crate::mp4::boxes::boxes_end;
use crate::mp4::boxes::boxes_from;
use crate::mp4::boxes::boxes_lie_inside;
use crate::mp4::boxes::payloads;
use crate::mp4::boxes::MDIA;
use crate::mp4::boxes::META;
use crate::mp4::boxes::TRAK;
use crate::mp4::boxes::UDTA;
use crate::mp4::file_laws::run_places;
use crate::mp4::file_laws::sized;
use crate::mp4::file_laws::verbatim_box;
use crate::mp4::keyed::is_keyed;
use crate::mp4::keyed::keyed_children;
use crate::mp4::keyed::keyed_containers;
use crate::mp4::keyed::keyed_of;
use crate::mp4::keyed::track_containers;
use crate::mp4::kids::bodies;
use crate::mp4::kids::bodies_concat;
use crate::mp4::kids::kids;
use crate::mp4::kids::kids_concat;
use crate::mp4::kids::kids_of_resized;
use crate::mp4::kids::no_kids;
use crate::mp4::kids::payloads_are_bodies;
use crate::mp4::kids::sealed;
use crate::mp4::kids::sealed_concat;
use crate::mp4::kids::single_body;
use crate::mp4::strip::drops;
use crate::mp4::strip::kept_movie;
use crate::mp4::strip::media_children;
use crate::mp4::strip::movie_child;
use crate::mp4::strip::movie_children;
use crate::mp4::strip::stripped_media;
use crate::mp4::strip::stripped_track;
use crate::mp4::strip::track_child;
use crate::mp4::strip::track_children;
use crate::mp4::strip::MAX_BOX;
use vstd::prelude::*;

verus! {

/// None of the payloads is keyed metadata.
pub open spec fn all_plain(ps: Seq<Seq<u8>>) -> bool {
    forall|i: int| 0 <= i < ps.len() ==> !is_keyed(#[trigger] ps[i])
}

/// Payloads none of which is keyed metadata hold none.
proof fn plain_holds_nothing(ps: Seq<Seq<u8>>)
    requires
        all_plain(ps),
    ensures
        keyed_children(ps) == Seq::<Seq<u8>>::empty(),
    decreases ps.len(),
{
    if ps.len() > 0 {
        let f = ps.drop_last();
        assert forall|i: int| 0 <= i < f.len() implies !is_keyed(#[trigger] f[i]) by {
            assert(f[i] == ps[i]);
        }
        assert(!is_keyed(ps[ps.len() - 1]));
        plain_holds_nothing(f);
    } else {
        assert(keyed_children(ps) =~= Seq::empty());
    }
}

/// Lists of plain payloads joined.
pub proof fn plain_concat(a: Seq<Seq<u8>>, b: Seq<Seq<u8>>)
    requires
        all_plain(a),
        all_plain(b),
    ensures
        all_plain(a + b),
{
    assert forall|i: int| 0 <= i < (a + b).len() implies !is_keyed(#[trigger] (a + b)[i]) by {
        if i < a.len() {
            assert((a + b)[i] == a[i]);
        } else {
            assert((a + b)[i] == b[i - a.len()]);
        }
    }
}

/// A box that others follow says its size.
proof fn followed_box_is_sized(d: Seq<u8>, p: int, i: int)
    requires
        0 <= p,
        0 <= i < boxes_from(d, p).len() - 1,
    ensures
        be32(d, boxes_from(d, p)[i].start) != 0,
    decreases d.len() - p,
{
    let b = box_at(d, p)->0;
    let s = boxes_from(d, p);
    let rest = boxes_from(d, b.end());
    if i == 0 {
        assert(s[0] == b);
        if be32(d, p) == 0 {
            let y = d.skip(p);
            assert(y[0] == d[p] && y[1] == d[p + 1] && y[2] == d[p + 2] && y[3] == d[p + 3]);
            assert(b.end() == d.len());
            assert(d.skip(d.len() as int).len() == 0);
            assert(rest =~= Seq::empty());
        }
    } else {
        followed_box_is_sized(d, b.end(), i - 1);
        assert(s[i] == rest[i - 1]);
    }
}

/// What follows the readable boxes has no readable box.
pub proof fn rest_has_no_kids(d: Seq<u8>, p: int)
    requires
        0 <= p <= d.len(),
    ensures
        box_at(d.skip(boxes_end(d, p)), 0) is None,
        boxes_from(d, p).len() > 0 && be32(d, boxes_from(d, p).last().start) == 0 ==> boxes_end(d, p)
            == d.len(),
    decreases d.len() - p,
{
    match box_at(d, p) {
        Some(b) if b.total > 0 => {
            rest_has_no_kids(d, b.end());
            let s = boxes_from(d, p);
            let rest = boxes_from(d, b.end());
            if rest.len() > 0 {
                assert(s.last() == rest.last());
            } else {
                assert(s.last() == b);
                if be32(d, p) == 0 {
                    let y = d.skip(p);
                    assert(y[0] == d[p] && y[1] == d[p + 1] && y[2] == d[p + 2] && y[3] == d[p + 3]);
                    assert(b.end() == d.len());
                    boxes_lie_inside(d, b.end());
                }
            }
        },
        _ => {
            let r = d.skip(p);
            assert(r.skip(0) =~= r);
        },
    }
}

/// What is kept of the first `n` children of a media box.
pub proof fn media_children_stand(d: Seq<u8>, n: int)
    requires
        0 <= n <= boxes(d).len(),
    ensures
        n < boxes(d).len() || n == 0 || be32(d, boxes(d).last().start) != 0 ==> sealed(
            media_children(boxes(d).take(n), d),
        ),
        all_plain(bodies(kids(media_children(boxes(d).take(n), d)), META@)),
    decreases n,
{
    let s = boxes(d).take(n);
    let all = media_children(s, d);
    if n == 0 {
        no_kids(all);
        assert(bodies(kids(all), META@) =~= Seq::empty());
    } else {
        let f = boxes(d).take(n - 1);
        assert(s.drop_last() =~= f);
        let b = s.last();
        assert(b == boxes(d)[n - 1]);
        run_places(d, 0, n - 1);
        if n < boxes(d).len() {
            followed_box_is_sized(d, 0, n - 1);
        }
        let a = media_children(f, d);
        media_children_stand(d, n - 1);
        if drops(b, d) {
            assert(all =~= a);
        } else {
            let c = b.bytes(d);
            verbatim_box(d, b);
            kids_concat(a, c);
            bodies_concat(kids(a), kids(c), META@);
            single_body(b.kind, b.payload(d), META@);
            plain_concat(bodies(kids(a), META@), bodies(kids(c), META@));
            if n < boxes(d).len() || be32(d, boxes(d).last().start) != 0 {
                sealed_concat(a, c);
            }
        }
    }
}

/// A stripped media payload holds no keyed metadata.
pub proof fn stripped_media_is_plain(p: Seq<u8>)
    ensures
        all_plain(payloads(stripped_media(p), META@)),
{
    let n = boxes(p).len() as int;
    let s = boxes(p);
    assert(s.take(n) =~= s);
    media_children_stand(p, n);
    boxes_lie_inside(p, 0);
    rest_has_no_kids(p, 0);
    let a = media_children(s, p);
    let r = p.skip(boxes_end(p, 0));
    payloads_are_bodies(stripped_media(p), META@);
    if n > 0 && be32(p, s.last().start) == 0 {
        assert(r =~= Seq::empty());
        assert(a + r =~= a);
    } else {
        kids_concat(a, r);
        no_kids(r);
        assert(kids(a) + kids(r) =~= kids(a));
    }
}

/// Every payload is a stripped media payload.
pub open spec fn all_stripped_media(ps: Seq<Seq<u8>>) -> bool {
    forall|i: int| 0 <= i < ps.len() ==> is_stripped_media(#[trigger] ps[i])
}

/// The payload is a stripped media payload.
pub open spec fn is_stripped_media(m: Seq<u8>) -> bool {
    exists|p: Seq<u8>| m == #[trigger] stripped_media(p)
}

/// What is kept of the first `n` children of a track.
pub proof fn track_children_stand(d: Seq<u8>, n: int)
    requires
        0 <= n <= boxes(d).len(),
        track_children(boxes(d).take(n), d).len() <= MAX_BOX,
    ensures
        n < boxes(d).len() || n == 0 || be32(d, boxes(d).last().start) != 0 ==> sealed(
            track_children(boxes(d).take(n), d),
        ),
        all_plain(bodies(kids(track_children(boxes(d).take(n), d)), META@)),
        all_stripped_media(bodies(kids(track_children(boxes(d).take(n), d)), MDIA@)),
    decreases n,
{
    let s = boxes(d).take(n);
    let all = track_children(s, d);
    if n == 0 {
        no_kids(all);
        assert(bodies(kids(all), META@) =~= Seq::empty());
        assert(bodies(kids(all), MDIA@) =~= Seq::empty());
    } else {
        let f = boxes(d).take(n - 1);
        assert(s.drop_last() =~= f);
        let b = s.last();
        assert(b == boxes(d)[n - 1]);
        run_places(d, 0, n - 1);
        boxes_lie_inside(d, 0);
        assert(b.inside(d));
        if n < boxes(d).len() {
            followed_box_is_sized(d, 0, n - 1);
        }
        let a = track_children(f, d);
        let c = track_child(b, d);
        assert(all =~= a + c);
        track_children_stand(d, n - 1);
        assert(MDIA@.len() == 4 && META@.len() == 4 && MDIA@[1] != META@[1]);
        if drops(b, d) {
            assert(a + c =~= a);
        } else {
            let payload = if b.kind == MDIA@ {
                stripped_media(b.payload(d))
            } else {
                b.payload(d)
            };
            if b.kind == MDIA@ {
                kids_of_resized(b.header, b.kind, payload);
                assert(is_stripped_media(payload));
            } else {
                verbatim_box(d, b);
            }
            kids_concat(a, c);
            bodies_concat(kids(a), kids(c), META@);
            bodies_concat(kids(a), kids(c), MDIA@);
            single_body(b.kind, payload, META@);
            single_body(b.kind, payload, MDIA@);
            plain_concat(bodies(kids(a), META@), bodies(kids(c), META@));
            media_concat(bodies(kids(a), MDIA@), bodies(kids(c), MDIA@));
            if n < boxes(d).len() || be32(d, boxes(d).last().start) != 0 {
                sealed_concat(a, c);
            }
        }
    }
}

/// Lists of stripped media payloads joined.
proof fn media_concat(a: Seq<Seq<u8>>, b: Seq<Seq<u8>>)
    requires
        all_stripped_media(a),
        all_stripped_media(b),
    ensures
        all_stripped_media(a + b),
{
    assert forall|i: int| 0 <= i < (a + b).len() implies is_stripped_media(
        #[trigger] (a + b)[i],
    ) by {
        if i < a.len() {
            assert((a + b)[i] == a[i]);
        } else {
            assert((a + b)[i] == b[i - a.len()]);
        }
    }
}

/// A stripped track payload holds no keyed metadata, and its media are stripped.
pub proof fn stripped_track_is_plain(p: Seq<u8>)
    requires
        stripped_track(p).len() <= MAX_BOX,
    ensures
        all_plain(payloads(stripped_track(p), META@)),
        all_stripped_media(payloads(stripped_track(p), MDIA@)),
{
    let n = boxes(p).len() as int;
    let s = boxes(p);
    assert(s.take(n) =~= s);
    track_children_stand(p, n);
    boxes_lie_inside(p, 0);
    rest_has_no_kids(p, 0);
    let a = track_children(s, p);
    let r = p.skip(boxes_end(p, 0));
    payloads_are_bodies(stripped_track(p), META@);
    payloads_are_bodies(stripped_track(p), MDIA@);
    if n > 0 && be32(p, s.last().start) == 0 {
        assert(r =~= Seq::empty());
        assert(a + r =~= a);
    } else {
        kids_concat(a, r);
        no_kids(r);
        assert(kids(a) + kids(r) =~= kids(a));
    }
}

/// The payload is a stripped track payload that fits a box.
pub open spec fn is_stripped_track(t: Seq<u8>) -> bool {
    exists|p: Seq<u8>| t == #[trigger] stripped_track(p) && t.len() <= MAX_BOX
}

/// Every payload is a stripped track payload.
pub open spec fn all_stripped_tracks(ps: Seq<Seq<u8>>) -> bool {
    forall|i: int| 0 <= i < ps.len() ==> is_stripped_track(#[trigger] ps[i])
}

/// What is kept of the first `n` children of a movie: no user data, no keyed metadata, and
/// tracks that are stripped.
proof fn movie_children_stand(d: Seq<u8>, n: int)
    requires
        sized(d),
        0 <= n <= boxes(d).len(),
        movie_children(boxes(d).take(n), d).len() <= MAX_BOX,
    ensures
        sealed(movie_children(boxes(d).take(n), d)),
        bodies(kids(movie_children(boxes(d).take(n), d)), UDTA@) == Seq::<Seq<u8>>::empty(),
        all_plain(bodies(kids(movie_children(boxes(d).take(n), d)), META@)),
        all_stripped_tracks(bodies(kids(movie_children(boxes(d).take(n), d)), TRAK@)),
    decreases n,
{
    let s = boxes(d).take(n);
    let all = movie_children(s, d);
    if n == 0 {
        no_kids(all);
        assert(bodies(kids(all), META@) =~= Seq::empty());
        assert(bodies(kids(all), UDTA@) =~= Seq::empty());
        assert(bodies(kids(all), TRAK@) =~= Seq::empty());
    } else {
        let f = boxes(d).take(n - 1);
        assert(s.drop_last() =~= f);
        let b = s.last();
        assert(b == boxes(d)[n - 1]);
        run_places(d, 0, n - 1);
        boxes_lie_inside(d, 0);
        assert(b.inside(d));
        let a = movie_children(f, d);
        let c = movie_child(b, d);
        assert(all =~= a + c);
        movie_children_stand(d, n - 1);
        assert(TRAK@[0] == 0x74 && META@[0] == 0x6d && UDTA@[0] == 0x75);
        assert(TRAK@.len() == 4 && META@.len() == 4 && UDTA@.len() == 4);
        if b.kind == UDTA@ || drops(b, d) {
            assert(a + c =~= a);
        } else {
            let payload = if b.kind == TRAK@ {
                stripped_track(b.payload(d))
            } else {
                b.payload(d)
            };
            if b.kind == TRAK@ {
                kids_of_resized(b.header, b.kind, payload);
                assert(is_stripped_track(payload));
            } else {
                verbatim_box(d, b);
            }
            kids_concat(a, c);
            sealed_concat(a, c);
            bodies_concat(kids(a), kids(c), META@);
            bodies_concat(kids(a), kids(c), UDTA@);
            bodies_concat(kids(a), kids(c), TRAK@);
            single_body(b.kind, payload, META@);
            single_body(b.kind, payload, UDTA@);
            single_body(b.kind, payload, TRAK@);
            plain_concat(bodies(kids(a), META@), bodies(kids(c), META@));
            track_concat(bodies(kids(a), TRAK@), bodies(kids(c), TRAK@));
            let none = Seq::<Seq<u8>>::empty();
            assert(none + none =~= none);
        }
    }
}

/// Lists of stripped track payloads joined.
proof fn track_concat(a: Seq<Seq<u8>>, b: Seq<Seq<u8>>)
    requires
        all_stripped_tracks(a),
        all_stripped_tracks(b),
    ensures
        all_stripped_tracks(a + b),
{
    assert forall|i: int| 0 <= i < (a + b).len() implies is_stripped_track(
        #[trigger] (a + b)[i],
    ) by {
        if i < a.len() {
            assert((a + b)[i] == a[i]);
        } else {
            assert((a + b)[i] == b[i - a.len()]);
        }
    }
}

/// A container holds no keyed metadata.
pub open spec fn holds_no_keyed(c: Seq<u8>) -> bool {
    all_plain(payloads(c, META@))
}

/// Containers none of which holds keyed metadata hold none together.
pub proof fn plain_containers(cs: Seq<Seq<u8>>)
    requires
        forall|i: int| 0 <= i < cs.len() ==> holds_no_keyed(#[trigger] cs[i]),
    ensures
        keyed_of(cs) == Seq::<Seq<u8>>::empty(),
    decreases cs.len(),
{
    if cs.len() > 0 {
        let f = cs.drop_last();
        assert forall|i: int| 0 <= i < f.len() implies holds_no_keyed(#[trigger] f[i]) by {
            assert(f[i] == cs[i]);
        }
        plain_containers(f);
        assert(holds_no_keyed(cs[cs.len() - 1]));
        plain_holds_nothing(payloads(cs.last(), META@));
        assert(Seq::<Seq<u8>>::empty() + Seq::<Seq<u8>>::empty() =~= Seq::<Seq<u8>>::empty());
    } else {
        assert(keyed_of(cs) =~= Seq::empty());
    }
}

/// A track and its media hold no keyed metadata.
pub open spec fn plain_track(t: Seq<u8>) -> bool {
    &&& holds_no_keyed(t)
    &&& forall|i: int|
        0 <= i < payloads(t, MDIA@).len() ==> holds_no_keyed(#[trigger] payloads(t, MDIA@)[i])
}

/// A stripped track and its media hold no keyed metadata.
pub proof fn stripped_track_and_media(t: Seq<u8>)
    requires
        is_stripped_track(t),
    ensures
        plain_track(t),
{
    let p = choose|p: Seq<u8>| t == #[trigger] stripped_track(p) && t.len() <= MAX_BOX;
    stripped_track_is_plain(p);
    let media = payloads(t, MDIA@);
    assert forall|i: int| 0 <= i < media.len() implies holds_no_keyed(#[trigger] media[i]) by {
        assert(is_stripped_media(media[i]));
        let q = choose|q: Seq<u8>| media[i] == #[trigger] stripped_media(q);
        stripped_media_is_plain(q);
    }
}

/// Plain tracks and their media hold no keyed metadata.
pub proof fn plain_tracks(traks: Seq<Seq<u8>>, i: int)
    requires
        forall|k: int| 0 <= k < traks.len() ==> plain_track(#[trigger] traks[k]),
        0 <= i < track_containers(traks).len(),
    ensures
        holds_no_keyed(track_containers(traks)[i]),
    decreases traks.len(),
{
    if traks.len() > 0 {
        let f = traks.drop_last();
        let t = traks.last();
        assert(plain_track(traks[traks.len() - 1]));
        let before = track_containers(f);
        let media = payloads(t, MDIA@);
        assert(track_containers(traks) =~= before.push(t) + media);
        if i < before.len() {
            assert forall|k: int| 0 <= k < f.len() implies plain_track(#[trigger] f[k]) by {
                assert(f[k] == traks[k]);
            }
            plain_tracks(f, i);
            assert(track_containers(traks)[i] == before[i]);
        } else if i > before.len() {
            assert(track_containers(traks)[i] == media[i - before.len() - 1]);
        }
    }
}

/// What is kept of a movie: sealed, without user data or keyed metadata, and with tracks that
/// are stripped.
pub proof fn kept_movie_stands(movie: Seq<u8>)
    requires
        sized(movie),
        kept_movie(movie).len() <= MAX_BOX,
    ensures
        sealed(kept_movie(movie)),
        bodies(kids(kept_movie(movie)), UDTA@) == Seq::<Seq<u8>>::empty(),
        all_plain(bodies(kids(kept_movie(movie)), META@)),
        all_stripped_tracks(bodies(kids(kept_movie(movie)), TRAK@)),
{
    let n = boxes(movie).len() as int;
    assert(boxes(movie).take(n) =~= boxes(movie));
    movie_children_stand(movie, n);
}

/// What synthesis keeps of a `moov` holds no keyed metadata: not in the movie, its tracks or
/// their media.
pub proof fn nothing_keyed_is_kept(movie: Seq<u8>)
    requires
        sized(movie),
        kept_movie(movie).len() <= MAX_BOX,
    ensures
        keyed_of(keyed_containers(kept_movie(movie))) == Seq::<Seq<u8>>::empty(),
{
    kept_movie_stands(movie);
    let kept = kept_movie(movie);
    payloads_are_bodies(kept, META@);
    payloads_are_bodies(kept, UDTA@);
    payloads_are_bodies(kept, TRAK@);
    let traks = payloads(kept, TRAK@);
    let cs = keyed_containers(kept);
    assert(cs =~= seq![kept] + track_containers(traks));
    assert forall|k: int| 0 <= k < traks.len() implies plain_track(#[trigger] traks[k]) by {
        assert(is_stripped_track(traks[k]));
        stripped_track_and_media(traks[k]);
    }
    assert forall|i: int| 0 <= i < cs.len() implies holds_no_keyed(#[trigger] cs[i]) by {
        if i > 0 {
            plain_tracks(traks, i - 1);
            assert(cs[i] == track_containers(traks)[i - 1]);
        }
    }
    plain_containers(cs);
}

} // verus!
