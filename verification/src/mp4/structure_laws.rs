//! Which files are accepted, and where their audio lies: files as rows of boxes, tracks as
//! their handlers.

use crate::error::FormatError;
use crate::error::Result;
use crate::mp4::box_laws::a_box;
use crate::mp4::box_laws::boxes_stand;
use crate::mp4::box_laws::can_be_boxed;
use crate::mp4::box_laws::first_is_at;
use crate::mp4::box_laws::in_boxes;
use crate::mp4::box_laws::payloads_among;
use crate::mp4::boxes::boxes;
use crate::mp4::boxes::boxes_lie_inside;
use crate::mp4::boxes::first_of;
use crate::mp4::boxes::of_kind;
use crate::mp4::boxes::path_end;
use crate::mp4::boxes::path_from;
use crate::mp4::boxes::well_boxed;
use crate::mp4::boxes::BoxModel;
use crate::mp4::boxes::PathEnd;
use crate::mp4::fill_laws::payloads_filtered;
use crate::mp4::item_laws::box_codes;
use crate::mp4::kids::kids;
use crate::mp4::kids::kids_among;
use crate::mp4::kids::sealed_end;
use crate::mp4::strip::chapters_among;
use crate::mp4::strip::find_chapters;
use crate::mp4::structure::all_supported;
use crate::mp4::structure::audio_tracks;
use crate::mp4::structure::handler_list;
use crate::mp4::structure::handler_name;
use crate::mp4::structure::locate_audio;
use crate::mp4::structure::read_structure;
use crate::mp4::structure::shape;
use crate::mp4::structure::track_handler;
use crate::mp4::structure::track_handlers;
use crate::mp4::structure::tracks_message;
use crate::mp4::structure::validate_moov;
use crate::mp4::structure::Mp4Bounds;
use crate::mp4::structure::Mp4Scan;
use crate::slot_laws::code;
use vstd::prelude::*;
use vstd::string::*;

verus! {

proof fn structure_codes()
    ensures
        code("soun"@) == crate::mp4::boxes::SOUN@,
        code("text"@) == crate::mp4::boxes::TEXT@,
        code("sbtl"@) == crate::mp4::boxes::SBTL@,
        code("mvex"@) == crate::mp4::boxes::MVEX@,
        code("moof"@) == crate::mp4::boxes::MOOF@,
        code("ftyp"@) == crate::mp4::boxes::FTYP@,
        code("mdat"@) == crate::mp4::boxes::MDAT@,
        code("chpl"@) == crate::mp4::boxes::CHPL@,
        code("soun"@)[0] == 0x73 && code("soun"@)[1] == 0x6f,
        code("text"@)[0] == 0x74,
        code("sbtl"@)[0] == 0x73 && code("sbtl"@)[1] == 0x62,
{
    reveal_strlit("soun");
    reveal_strlit("text");
    reveal_strlit("sbtl");
    reveal_strlit("mvex");
    reveal_strlit("moof");
    reveal_strlit("ftyp");
    reveal_strlit("mdat");
    reveal_strlit("chpl");
    assert(code("soun"@) =~= crate::mp4::boxes::SOUN@);
    assert(code("text"@) =~= crate::mp4::boxes::TEXT@);
    assert(code("sbtl"@) =~= crate::mp4::boxes::SBTL@);
    assert(code("mvex"@) =~= crate::mp4::boxes::MVEX@);
    assert(code("moof"@) =~= crate::mp4::boxes::MOOF@);
    assert(code("ftyp"@) =~= crate::mp4::boxes::FTYP@);
    assert(code("mdat"@) =~= crate::mp4::boxes::MDAT@);
    assert(code("chpl"@) =~= crate::mp4::boxes::CHPL@);
}

proof fn row_is_well_boxed(list: Seq<(Seq<u8>, Seq<u8>)>)
    requires
        can_be_boxed(list),
    ensures
        well_boxed(in_boxes(list)),
{
    boxes_stand(list);
    sealed_end(in_boxes(list));
}

proof fn first_among_kids(s: Seq<BoxModel>, d: Seq<u8>, kind: Seq<u8>, i: int)
    ensures
        first_is_at(kids_among(s, d), kind, i) ==> first_of(s, kind) == Some(s[i]),
        (forall|j: int| 0 <= j < s.len() ==> (#[trigger] kids_among(s, d)[j]).0 != kind)
            ==> first_of(s, kind) is None,
    decreases s.len(),
{
    let k = kids_among(s, d);
    if s.len() > 0 {
        let rest = s.drop_first();
        let r = kids_among(rest, d);
        first_among_kids(rest, d, kind, i - 1);
        assert forall|j: int| 0 <= j < r.len() implies #[trigger] r[j] == k[j + 1] by {}
        assert(k[0].0 == s[0].kind);
        if first_is_at(k, kind, i) && i > 0 {
            assert(k[0].0 != kind);
            assert(r[i - 1] == k[i]);
            assert forall|j: int| 0 <= j < i - 1 implies (#[trigger] r[j]).0 != kind by {
                assert(k[j + 1].0 != kind);
            }
            assert(first_is_at(r, kind, i - 1));
        }
        if forall|j: int| 0 <= j < s.len() ==> (#[trigger] k[j]).0 != kind {
            assert(k[0].0 != kind);
            assert forall|j: int| 0 <= j < rest.len() implies (#[trigger] r[j]).0 != kind by {
                assert(k[j + 1].0 != kind);
            }
        }
    }
}

/// A path of two steps.
proof fn two_steps(d: Seq<u8>, x: Seq<u8>, y: Seq<u8>)
    ensures
        path_end(d, seq![x, y]) == if !well_boxed(d) {
            PathEnd::Broken
        } else {
            match first_of(boxes(d), x) {
                None => PathEnd::Nowhere,
                Some(b) => if !well_boxed(b.payload(d)) {
                    PathEnd::Broken
                } else {
                    match first_of(boxes(b.payload(d)), y) {
                        None => PathEnd::Nowhere,
                        Some(c) => PathEnd::At(b.body() + c.body(), c.total - c.header),
                    }
                },
            }
        },
{
    let p = seq![x, y];
    let q = p.drop_first();
    assert(q =~= seq![y]);
    assert(q.drop_first() =~= Seq::empty());
    reveal_with_fuel(path_from, 3);
}

/// The payload of a box in the payload of a box.
proof fn payload_in_payload(d: Seq<u8>, b: BoxModel, c: BoxModel)
    requires
        b.inside(d),
        c.inside(b.payload(d)),
        c.total - c.header >= 12,
    ensures
        d.subrange(b.body() + c.body() + 8, b.body() + c.body() + 12) == c.payload(
            b.payload(d),
        ).subrange(8, 12),
{
    let q = b.payload(d);
    let s = b.body() + c.body();
    assert(d.subrange(s + 8, s + 12) =~= c.payload(q).subrange(8, 12));
}

/// The handler of a track is named behind the first eight bytes of the first `hdlr` of its
/// first `mdia`; a track without one, or with one that is too short, has no handler.
pub proof fn handler_of_a_track(
    list: Seq<(Seq<u8>, Seq<u8>)>,
    m: int,
    media: Seq<(Seq<u8>, Seq<u8>)>,
    h: int,
)
    requires
        can_be_boxed(list),
        can_be_boxed(media),
    ensures
        first_is_at(list, code("mdia"@), m) && list[m].1 == in_boxes(media) && first_is_at(
            media,
            code("hdlr"@),
            h,
        ) ==> track_handler(in_boxes(list)) == Some(
            if media[h].1.len() >= 12 {
                Some(media[h].1.subrange(8, 12))
            } else {
                None
            },
        ),
        first_is_at(list, code("mdia"@), m) && list[m].1 == in_boxes(media) && (forall|j: int|
            0 <= j < media.len() ==> (#[trigger] media[j]).0 != code("hdlr"@)) ==> track_handler(
            in_boxes(list),
        ) == Some(None::<Seq<u8>>),
        (forall|j: int| 0 <= j < list.len() ==> (#[trigger] list[j]).0 != code("mdia"@))
            ==> track_handler(in_boxes(list)) == Some(None::<Seq<u8>>),
{
    box_codes();
    let d = in_boxes(list);
    row_is_well_boxed(list);
    row_is_well_boxed(media);
    boxes_stand(list);
    boxes_stand(media);
    two_steps(d, code("mdia"@), code("hdlr"@));
    boxes_lie_inside(d, 0);
    assert(kids_among(boxes(d), d) == list) by {
        reveal(kids);
    }
    first_among_kids(boxes(d), d, code("mdia"@), m);
    let q = in_boxes(media);
    boxes_lie_inside(q, 0);
    assert(kids_among(boxes(q), q) == media) by {
        reveal(kids);
    }
    first_among_kids(boxes(q), q, code("hdlr"@), h);
    if first_is_at(list, code("mdia"@), m) && list[m].1 == q {
        let b = boxes(d)[m];
        assert(b.inside(d));
        assert(list[m].1 == b.payload(d));
        if first_is_at(media, code("hdlr"@), h) {
            let c = boxes(q)[h];
            assert(c.inside(q));
            assert(media[h].1 == c.payload(q));
            if media[h].1.len() >= 12 {
                payload_in_payload(d, b, c);
            }
        }
    }
}

/// One track is audio, and every other a chapter track.
pub open spec fn one_audio_track(handlers: Seq<Option<Seq<u8>>>, i: int) -> bool {
    &&& 0 <= i < handlers.len()
    &&& handlers[i] == Some(code("soun"@))
    &&& forall|j: int|
        0 <= j < handlers.len() && j != i ==> #[trigger] handlers[j] == Some(code("text"@))
            || handlers[j] == Some(code("sbtl"@))
}

proof fn audio_counted(hs: Seq<Option<Seq<u8>>>)
    ensures
        0 <= audio_tracks(hs) <= hs.len(),
        audio_tracks(hs) == 0 <==> forall|j: int|
            0 <= j < hs.len() ==> #[trigger] hs[j] != Some(code("soun"@)),
    decreases hs.len(),
{
    structure_codes();
    if hs.len() > 0 {
        let f = hs.drop_last();
        audio_counted(f);
        assert(hs[hs.len() - 1] == hs.last());
        if audio_tracks(hs) == 0 {
            assert forall|j: int| 0 <= j < hs.len() implies #[trigger] hs[j] != Some(
                code("soun"@),
            ) by {
                if j < f.len() {
                    assert(f[j] != Some(code("soun"@)));
                }
            }
        }
        if forall|j: int| 0 <= j < hs.len() ==> #[trigger] hs[j] != Some(code("soun"@)) {
            assert forall|j: int| 0 <= j < f.len() implies #[trigger] f[j] != Some(
                code("soun"@),
            ) by {
                assert(hs[j] != Some(code("soun"@)));
            }
        }
    }
}

proof fn one_audio(hs: Seq<Option<Seq<u8>>>)
    ensures
        (audio_tracks(hs) == 1 && all_supported(hs)) <==> exists|i: int|
            #[trigger] one_audio_track(hs, i),
    decreases hs.len(),
{
    structure_codes();
    if hs.len() > 0 {
        let f = hs.drop_last();
        let last = hs.len() - 1;
        one_audio(f);
        audio_counted(f);
        if audio_tracks(hs) == 1 && all_supported(hs) {
            assert(crate::mp4::structure::supported_handler(hs[last]));
            assert(all_supported(f)) by {
                assert forall|i: int| 0 <= i < f.len() implies crate::mp4::structure::supported_handler(
                    #[trigger] f[i],
                ) by {
                    assert(crate::mp4::structure::supported_handler(hs[i]));
                }
            }
            if hs[last] == Some(code("soun"@)) {
                assert forall|j: int| 0 <= j < hs.len() && j != last implies #[trigger] hs[j]
                    == Some(code("text"@)) || hs[j] == Some(code("sbtl"@)) by {
                    assert(f[j] != Some(code("soun"@)));
                    assert(crate::mp4::structure::supported_handler(hs[j]));
                }
                assert(one_audio_track(hs, last));
            } else {
                let i = choose|i: int| #[trigger] one_audio_track(f, i);
                assert(hs[i] == f[i]);
                assert forall|j: int| 0 <= j < hs.len() && j != i implies #[trigger] hs[j] == Some(
                    code("text"@),
                ) || hs[j] == Some(code("sbtl"@)) by {
                    if j < f.len() {
                        assert(f[j] == hs[j]);
                    }
                }
                assert(one_audio_track(hs, i));
            }
        }
        if exists|i: int| #[trigger] one_audio_track(hs, i) {
            let i = choose|i: int| #[trigger] one_audio_track(hs, i);
            assert(all_supported(hs)) by {
                assert forall|j: int| 0 <= j < hs.len() implies crate::mp4::structure::supported_handler(
                    #[trigger] hs[j],
                ) by {
                    if j != i {
                        assert(hs[j] == Some(code("text"@)) || hs[j] == Some(code("sbtl"@)));
                    }
                }
            }
            if i == last {
                assert forall|j: int| 0 <= j < f.len() implies #[trigger] f[j] != Some(
                    code("soun"@),
                ) by {
                    assert(hs[j] == Some(code("text"@)) || hs[j] == Some(code("sbtl"@)));
                }
            } else {
                assert(f[i] == hs[i]);
                assert forall|j: int| 0 <= j < f.len() && j != i implies #[trigger] f[j] == Some(
                    code("text"@),
                ) || f[j] == Some(code("sbtl"@)) by {
                    assert(hs[j] == f[j]);
                }
                assert(one_audio_track(f, i));
                assert(hs[last] == Some(code("text"@)) || hs[last] == Some(code("sbtl"@)));
            }
        }
    } else {
        assert(forall|i: int| !#[trigger] one_audio_track(hs, i));
    }
}

proof fn handlers_of(traks: Seq<Seq<u8>>, handlers: Seq<Option<Seq<u8>>>)
    requires
        handlers.len() == traks.len(),
        forall|i: int| 0 <= i < traks.len() ==> track_handler(#[trigger] traks[i]) == Some(
            handlers[i],
        ),
    ensures
        track_handlers(traks) == Some(handlers),
    decreases traks.len(),
{
    if traks.len() > 0 {
        let f = traks.drop_last();
        assert forall|i: int| 0 <= i < f.len() implies track_handler(#[trigger] f[i]) == Some(
            handlers.drop_last()[i],
        ) by {
            assert(f[i] == traks[i]);
        }
        handlers_of(f, handlers.drop_last());
        assert(track_handler(traks[traks.len() - 1]) == Some(handlers[traks.len() - 1]));
        assert(handlers.drop_last().push(handlers.last()) =~= handlers);
    } else {
        assert(handlers =~= Seq::empty());
    }
}

/// A movie of boxes is accepted where it has one audio track and no others but chapter tracks.
/// A fragmented one is not supported; any other choice of tracks is refused as such.
pub proof fn movies_are_judged_by_their_tracks(
    payload: &[u8],
    list: Seq<(Seq<u8>, Seq<u8>)>,
    handlers: Seq<Option<Seq<u8>>>,
    r: Result<()>,
)
    requires
        can_be_boxed(list),
        payload@ == in_boxes(list),
        handlers.len() == payloads_among(list, code("trak"@)).len(),
        forall|i: int|
            0 <= i < handlers.len() ==> track_handler(
                #[trigger] payloads_among(list, code("trak"@))[i],
            ) == Some(handlers[i]),
        call_ensures(validate_moov, (payload,), r),
    ensures
        (exists|i: int| 0 <= i < list.len() && (#[trigger] list[i]).0 == code("mvex"@)) ==> r
            == Err::<(), FormatError>(FormatError::NotMp4),
        (forall|i: int| 0 <= i < list.len() ==> (#[trigger] list[i]).0 != code("mvex"@)) ==> {
            if exists|i: int| #[trigger] one_audio_track(handlers, i) {
                r is Ok
            } else {
                r is Err && r->Err_0 is Mp4Tracks
            }
        },
{
    let d = payload@;
    box_codes();
    structure_codes();
    boxes_stand(list);
    row_is_well_boxed(list);
    payloads_filtered(d, code("trak"@));
    handlers_of(payloads_among(list, code("trak"@)), handlers);
    one_audio(handlers);
    reveal(kids);
    if exists|i: int| 0 <= i < list.len() && (#[trigger] list[i]).0 == code("mvex"@) {
        let i = first_such(list, code("mvex"@));
        first_among_kids(boxes(d), d, code("mvex"@), i);
    } else {
        first_among_kids(boxes(d), d, code("mvex"@), 0);
    }
}

proof fn first_such(list: Seq<(Seq<u8>, Seq<u8>)>, kind: Seq<u8>) -> (i: int)
    requires
        exists|i: int| 0 <= i < list.len() && (#[trigger] list[i]).0 == kind,
    ensures
        first_is_at(list, kind, i),
    decreases list.len(),
{
    let k = choose|i: int| 0 <= i < list.len() && (#[trigger] list[i]).0 == kind;
    let f = list.drop_last();
    if exists|i: int| 0 <= i < f.len() && (#[trigger] f[i]).0 == kind {
        let i = first_such(f, kind);
        assert(list[i] == f[i]);
        assert forall|j: int| 0 <= j < i implies (#[trigger] list[j]).0 != kind by {
            assert(f[j].0 != kind);
        }
        i
    } else {
        assert forall|j: int| 0 <= j < list.len() - 1 implies (#[trigger] list[j]).0 != kind by {
            assert(f[j].0 != kind);
        }
        assert(k == list.len() - 1);
        k
    }
}

/// The one box of its type stands at `i`.
pub open spec fn only_is_at(list: Seq<(Seq<u8>, Seq<u8>)>, kind: Seq<u8>, i: int) -> bool {
    &&& 0 <= i < list.len()
    &&& list[i].0 == kind
    &&& forall|j: int| 0 <= j < list.len() && j != i ==> (#[trigger] list[j]).0 != kind
}

proof fn one_of_kind(s: Seq<BoxModel>, d: Seq<u8>, kind: Seq<u8>)
    ensures
        (forall|j: int| 0 <= j < s.len() ==> (#[trigger] kids_among(s, d)[j]).0 != kind) <==> (
        of_kind(s, kind).len() == 0),
        (of_kind(s, kind).len() == 1) ==> exists|i: int|
            #[trigger] only_is_at(kids_among(s, d), kind, i),
        forall|i: int| #[trigger]
            only_is_at(kids_among(s, d), kind, i) ==> of_kind(s, kind) == seq![s[i]],
    decreases s.len(),
{
    let k = kids_among(s, d);
    if s.len() > 0 {
        let f = s.drop_last();
        let kf = kids_among(f, d);
        let last = s.len() - 1;
        one_of_kind(f, d, kind);
        assert forall|j: int| 0 <= j < f.len() implies #[trigger] kf[j] == k[j] by {}
        assert(k[last].0 == s.last().kind);
        if of_kind(s, kind).len() == 0 {
            assert forall|j: int| 0 <= j < s.len() implies (#[trigger] k[j]).0 != kind by {
                if j < f.len() {
                    assert(kf[j].0 != kind);
                }
            }
        }
        if forall|j: int| 0 <= j < s.len() ==> (#[trigger] k[j]).0 != kind {
            assert(k[last].0 != kind);
            assert forall|j: int| 0 <= j < f.len() implies (#[trigger] kf[j]).0 != kind by {
                assert(k[j].0 != kind);
            }
        }
        if of_kind(s, kind).len() == 1 {
            if s.last().kind == kind {
                assert forall|j: int| 0 <= j < s.len() && j != last implies (#[trigger] k[j]).0
                    != kind by {
                    assert(kf[j].0 != kind);
                }
                assert(only_is_at(k, kind, last));
            } else {
                let i = choose|i: int| #[trigger] only_is_at(kf, kind, i);
                assert(k[i] == kf[i]);
                assert forall|j: int| 0 <= j < s.len() && j != i implies (#[trigger] k[j]).0
                    != kind by {
                    if j < f.len() {
                        assert(kf[j].0 != kind);
                    }
                }
                assert(only_is_at(k, kind, i));
            }
        }
        assert forall|i: int| #[trigger] only_is_at(k, kind, i) implies of_kind(s, kind) == seq![
            s[i],
        ] by {
            if i == last {
                assert forall|j: int| 0 <= j < f.len() implies (#[trigger] kf[j]).0 != kind by {
                    assert(k[j].0 != kind);
                }
                assert(of_kind(s, kind) =~= seq![s[i]]);
            } else {
                assert(k[last].0 != kind);
                assert(kf[i] == k[i]);
                assert forall|j: int| 0 <= j < f.len() && j != i implies (#[trigger] kf[j]).0
                    != kind by {
                    assert(k[j].0 != kind);
                }
                assert(only_is_at(kf, kind, i));
            }
        }
    } else {
        assert(forall|i: int| !#[trigger] only_is_at(k, kind, i));
    }
}

/// The boxes of a row, with their places.
proof fn row_places(list: Seq<(Seq<u8>, Seq<u8>)>, i: int)
    requires
        can_be_boxed(list),
        0 <= i < list.len(),
    ensures
        boxes(in_boxes(list)).len() == list.len(),
        boxes(in_boxes(list))[i] == (BoxModel {
            kind: list[i].0,
            start: in_boxes(list.take(i)).len() as int,
            header: 8,
            total: 8 + list[i].1.len() as int,
        }),
    decreases list.len(),
{
    let front = list.drop_last();
    let b = list.last();
    let last = list.len() - 1;
    assert(can_be_boxed(front)) by {
        assert forall|j: int| 0 <= j < front.len() implies (#[trigger] front[j]).0.len() == 4 && 8
            + front[j].1.len() <= u32::MAX by {
            assert(front[j] == list[j]);
        }
    }
    boxes_stand(front);
    assert(list[last].0.len() == 4);
    crate::mp4::box_laws::four_big_endian(8 + b.1.len() as int);
    assert(a_box(b.0, b.1) =~= crate::mp4::atoms::boxed_bytes(b.0, b.1));
    crate::mp4::kids::kids_of_box(b.0, b.1);
    crate::mp4::kids::boxes_concat(in_boxes(front), a_box(b.0, b.1));
    assert(list.take(last) =~= front);
    boxes_stand(list);
    reveal(kids);
    assert(boxes(in_boxes(front)).len() == front.len());
    if i < last {
        row_places(front, i);
        assert(front.take(i) =~= list.take(i));
        assert(boxes(in_boxes(list))[i] == boxes(in_boxes(front))[i]);
    }
}

/// A file of boxes is accepted where it has one `ftyp`, one `moov` and one `mdat`, is not
/// fragmented, and its movie is accepted. Its audio is the payload of the `mdat`, at its place.
pub proof fn audio_is_the_media_data(
    file: &[u8],
    list: Seq<(Seq<u8>, Seq<u8>)>,
    f: int,
    m: int,
    a: int,
    moov: &[u8],
    v: Result<()>,
    r: Result<Mp4Bounds>,
    s: Result<Mp4Scan>,
)
    requires
        can_be_boxed(list),
        file@ == in_boxes(list),
        only_is_at(list, code("ftyp"@), f),
        only_is_at(list, code("moov"@), m),
        only_is_at(list, code("mdat"@), a),
        forall|j: int| 0 <= j < list.len() ==> (#[trigger] list[j]).0 != code("moof"@),
        moov@ == list[m].1,
        call_ensures(validate_moov, (moov,), v),
        call_ensures(locate_audio, (file,), r),
        call_ensures(read_structure, (file,), s),
    ensures
        r is Ok == v is Ok,
        s is Ok == v is Ok,
        match r {
            Ok(b) => b.audio_offset == in_boxes(list.take(a)).len() + 8 && b.audio_length
                == list[a].1.len(),
            Err(_) => true,
        },
        match s {
            Ok(scan) => {
                &&& scan.ftyp@ == a_box(list[f].0, list[f].1)
                &&& scan.moov@ == a_box(list[m].0, list[m].1)
                &&& scan.mdat_header@ == a_box(list[a].0, list[a].1).take(8)
                &&& scan.mdat_payload_offset == in_boxes(list.take(a)).len() + 8
                &&& scan.mdat_payload_len == list[a].1.len()
            },
            Err(_) => true,
        },
{
    let d = file@;
    box_codes();
    structure_codes();
    boxes_stand(list);
    row_is_well_boxed(list);
    reveal(kids);
    one_of_kind(boxes(d), d, code("ftyp"@));
    one_of_kind(boxes(d), d, code("moov"@));
    one_of_kind(boxes(d), d, code("mdat"@));
    one_of_kind(boxes(d), d, code("moof"@));
    assert(kids_among(boxes(d), d) == list);
    assert(only_is_at(kids_among(boxes(d), d), code("ftyp"@), f));
    assert(only_is_at(kids_among(boxes(d), d), code("moov"@), m));
    assert(only_is_at(kids_among(boxes(d), d), code("mdat"@), a));
    row_places(list, f);
    row_places(list, m);
    row_places(list, a);
    bytes_at_place(list, f);
    bytes_at_place(list, m);
    bytes_at_place(list, a);
    let x = boxes(d)[a];
    crate::mp4::box_laws::four_big_endian(8 + list[a].1.len() as int);
    assert(d.subrange(x.start, x.start + 8) =~= x.bytes(d).take(8));
    assert(boxes(d)[m].payload(d) == list[m].1);
}

proof fn bytes_at_place(list: Seq<(Seq<u8>, Seq<u8>)>, i: int)
    requires
        can_be_boxed(list),
        0 <= i < list.len(),
    ensures
        in_boxes(list.take(i)).len() + 8 + list[i].1.len() <= in_boxes(list).len(),
        in_boxes(list).subrange(
            in_boxes(list.take(i)).len() as int,
            in_boxes(list.take(i)).len() as int + 8 + list[i].1.len(),
        ) == a_box(list[i].0, list[i].1),
    decreases list.len(),
{
    let front = list.drop_last();
    let last = list.len() - 1;
    let d = in_boxes(list);
    assert(list[i].0.len() == 4 && 8 + list[i].1.len() <= u32::MAX);
    crate::mp4::box_laws::four_big_endian(8 + list[i].1.len() as int);
    assert(list.take(last) =~= front);
    if i < last {
        assert(can_be_boxed(front)) by {
            assert forall|j: int| 0 <= j < front.len() implies (#[trigger] front[j]).0.len() == 4
                && 8 + front[j].1.len() <= u32::MAX by {
                assert(front[j] == list[j]);
            }
        }
        bytes_at_place(front, i);
        assert(front.take(i) =~= list.take(i));
        let s = in_boxes(list.take(i)).len() as int;
        let e = s + 8 + list[i].1.len();
        assert(d.subrange(s, e) =~= in_boxes(front).subrange(s, e));
    } else {
        let s = in_boxes(front).len() as int;
        assert(d.subrange(s, s + 8 + list[i].1.len()) =~= a_box(list[i].0, list[i].1));
    }
}

/// A file of boxes that lacks one of the three, has one twice, or is fragmented is not
/// supported.
pub proof fn other_files_are_not_supported(
    file: &[u8],
    list: Seq<(Seq<u8>, Seq<u8>)>,
    r: Result<Mp4Bounds>,
)
    requires
        can_be_boxed(list),
        file@ == in_boxes(list),
        call_ensures(locate_audio, (file,), r),
        (exists|j: int| 0 <= j < list.len() && (#[trigger] list[j]).0 == code("moof"@)) || (
        forall|i: int| !#[trigger] only_is_at(list, code("ftyp"@), i)) || (forall|i: int|
            !#[trigger] only_is_at(list, code("moov"@), i)) || (forall|i: int|
            !#[trigger] only_is_at(list, code("mdat"@), i)),
    ensures
        r == Err::<Mp4Bounds, FormatError>(FormatError::NotMp4),
{
    let d = file@;
    box_codes();
    structure_codes();
    boxes_stand(list);
    reveal(kids);
    one_of_kind(boxes(d), d, code("ftyp"@));
    one_of_kind(boxes(d), d, code("moov"@));
    one_of_kind(boxes(d), d, code("mdat"@));
    one_of_kind(boxes(d), d, code("moof"@));
    assert(kids_among(boxes(d), d) == list);
    assert(shape(d) is None);
}

/// What is said of tracks that are not supported: what is expected, and the handlers that there
/// are, with commas between them.
pub proof fn tracks_are_named(hs: Seq<Option<Seq<u8>>>, h: Option<Seq<u8>>)
    ensures
        tracks_message(hs)
            == "expected one audio (soun) track, optionally with text/sbtl chapter tracks; found ["@
            + handler_list(hs) + "]"@,
        handler_list(seq![h]) == handler_name(h),
        handler_list(Seq::empty()).len() == 0,
        hs.len() > 0 ==> handler_list(hs.push(h)) == handler_list(hs) + ", "@ + handler_name(h),
        handler_name(None) == "<no hdlr>"@,
{
    assert(hs.push(h).drop_last() =~= hs);
}

/// The chapter list that is kept is the first `chpl` of the first user data that has one.
pub proof fn first_chapter_list_is_kept(
    udta: Seq<(Seq<u8>, Seq<u8>)>,
    rest: Seq<Seq<u8>>,
    i: int,
)
    requires
        can_be_boxed(udta),
    ensures
        first_is_at(udta, code("chpl"@), i) ==> chapters_among(seq![in_boxes(udta)] + rest) == Some(
            a_box(udta[i].0, udta[i].1),
        ),
        (forall|j: int| 0 <= j < udta.len() ==> (#[trigger] udta[j]).0 != code("chpl"@))
            ==> chapters_among(seq![in_boxes(udta)] + rest) == chapters_among(rest),
        chapters_among(Seq::empty()) is None,
{
    structure_codes();
    let d = in_boxes(udta);
    let all = seq![d] + rest;
    assert(all.drop_first() =~= rest);
    assert(all[0] == d);
    boxes_stand(udta);
    reveal(kids);
    assert(kids_among(boxes(d), d) == udta);
    first_among_kids(boxes(d), d, code("chpl"@), i);
    if first_is_at(udta, code("chpl"@), i) {
        row_places(udta, i);
        bytes_at_place(udta, i);
    }
}

/// The chapter list of a movie is looked for in its user data, in order.
pub proof fn chapters_are_of_the_user_data(payload: &[u8], r: Option<&[u8]>)
    requires
        call_ensures(find_chapters, (payload,), r),
    ensures
        match r {
            Some(c) => chapters_among(payloads_among(kids(payload@), code("udta"@))) == Some(c@),
            None => chapters_among(payloads_among(kids(payload@), code("udta"@))) is None,
        },
{
    box_codes();
    payloads_filtered(payload@, code("udta"@));
}

} // verus!
