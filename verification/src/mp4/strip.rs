//! What synthesis keeps of a `moov`: everything but its user data and its keyed metadata.

use crate::bytes::append;
use crate::bytes::be32_bytes;
use crate::bytes::be64_bytes;
use crate::bytes::push_u32_be;
use crate::bytes::push_u64_be;
use crate::error::FormatError;
use crate::error::Result;
use crate::mp4::boxes::all_inside;
use crate::mp4::boxes::box_view;
use crate::mp4::boxes::box_views;
use crate::mp4::boxes::boxes;
use crate::mp4::boxes::boxes_end;
use crate::mp4::boxes::boxes_lie_inside;
use crate::mp4::boxes::child_boxes_lenient;
use crate::mp4::boxes::child_payloads;
use crate::mp4::boxes::find_box_lenient;
use crate::mp4::boxes::first_of;
use crate::mp4::boxes::payloads;
use crate::mp4::boxes::same_kind;
use crate::mp4::boxes::slice_views;
use crate::mp4::boxes::walk_boxes;
use crate::mp4::boxes::BoxModel;
use crate::mp4::boxes::BoxRef;
use crate::mp4::boxes::CHPL;
use crate::mp4::boxes::MDIA;
use crate::mp4::boxes::META;
use crate::mp4::boxes::TRAK;
use crate::mp4::boxes::UDTA;
use crate::mp4::keyed::is_keyed;
use crate::mp4::keyed::is_keyed_meta;
use vstd::prelude::*;
use vstd::slice::slice_subrange;

verus! {

/// The largest size that a 32-bit box header declares.
pub const MAX_BOX: u64 = 0xffff_ffff;

/// A box of type `kind` around `body`, with a header of the given form (16 bytes for a
/// 64-bit largesize).
pub open spec fn resized(header: int, kind: Seq<u8>, body: Seq<u8>) -> Seq<u8> {
    if header == 16 {
        be32_bytes(1) + kind + be64_bytes((16 + body.len()) as int) + body
    } else {
        be32_bytes((8 + body.len()) as int) + kind + body
    }
}

/// A keyed-metadata `meta`.
pub open spec fn drops(b: BoxModel, d: Seq<u8>) -> bool {
    b.kind == META@ && is_keyed(b.payload(d))
}

/// The children of a media box without keyed metadata.
pub open spec fn media_children(s: Seq<BoxModel>, d: Seq<u8>) -> Seq<u8>
    decreases s.len(),
{
    if s.len() == 0 {
        Seq::empty()
    } else {
        media_children(s.drop_last(), d) + if drops(s.last(), d) {
            Seq::empty()
        } else {
            s.last().bytes(d)
        }
    }
}

/// A media payload without keyed metadata. What follows the readable children stays as it
/// is.
pub open spec fn stripped_media(p: Seq<u8>) -> Seq<u8> {
    media_children(boxes(p), p) + p.skip(boxes_end(p, 0))
}

/// What becomes of a child of a track.
pub open spec fn track_child(b: BoxModel, d: Seq<u8>) -> Seq<u8> {
    if drops(b, d) {
        Seq::empty()
    } else if b.kind == MDIA@ {
        resized(b.header, b.kind, stripped_media(b.payload(d)))
    } else {
        b.bytes(d)
    }
}

/// The children of a track without keyed metadata.
pub open spec fn track_children(s: Seq<BoxModel>, d: Seq<u8>) -> Seq<u8>
    decreases s.len(),
{
    if s.len() == 0 {
        Seq::empty()
    } else {
        track_children(s.drop_last(), d) + track_child(s.last(), d)
    }
}

/// A track payload without keyed metadata, in the track or in its media. What follows the
/// readable children stays as it is.
pub open spec fn stripped_track(p: Seq<u8>) -> Seq<u8> {
    track_children(boxes(p), p) + p.skip(boxes_end(p, 0))
}

/// What becomes of a child of a movie.
pub open spec fn movie_child(b: BoxModel, d: Seq<u8>) -> Seq<u8> {
    if b.kind == UDTA@ || drops(b, d) {
        Seq::empty()
    } else if b.kind == TRAK@ {
        resized(b.header, b.kind, stripped_track(b.payload(d)))
    } else {
        b.bytes(d)
    }
}

/// The children of a movie that synthesis keeps.
pub open spec fn movie_children(s: Seq<BoxModel>, d: Seq<u8>) -> Seq<u8>
    decreases s.len(),
{
    if s.len() == 0 {
        Seq::empty()
    } else {
        movie_children(s.drop_last(), d) + movie_child(s.last(), d)
    }
}

/// What synthesis keeps of a `moov` payload.
pub open spec fn kept_movie(p: Seq<u8>) -> Seq<u8> {
    movie_children(boxes(p), p)
}

/// The Nero chapter list of the first user data that has one.
pub open spec fn chapters_among(udtas: Seq<Seq<u8>>) -> Option<Seq<u8>>
    decreases udtas.len(),
{
    if udtas.len() == 0 {
        None
    } else {
        match first_of(boxes(udtas[0]), CHPL@) {
            Some(c) => Some(c.bytes(udtas[0])),
            None => chapters_among(udtas.drop_first()),
        }
    }
}

/// The Nero chapter list of a movie, as a whole box.
pub open spec fn chapter_list(p: Seq<u8>) -> Option<Seq<u8>> {
    chapters_among(payloads(p, UDTA@))
}

proof fn track_children_grow(s: Seq<BoxModel>, d: Seq<u8>, n: int)
    requires
        0 <= n <= s.len(),
    ensures
        track_children(s.take(n), d).len() <= track_children(s, d).len(),
    decreases s.len(),
{
    if n == s.len() {
        assert(s.take(n) =~= s);
    } else {
        track_children_grow(s.drop_last(), d, n);
        assert(s.drop_last().take(n) =~= s.take(n));
    }
}

proof fn movie_children_grow(s: Seq<BoxModel>, d: Seq<u8>, n: int)
    requires
        0 <= n <= s.len(),
    ensures
        movie_children(s.take(n), d).len() <= movie_children(s, d).len(),
    decreases s.len(),
{
    if n == s.len() {
        assert(s.take(n) =~= s);
    } else {
        movie_children_grow(s.drop_last(), d, n);
        assert(s.drop_last().take(n) =~= s.take(n));
    }
}

/// Append a box around `body`, its header in the form of `b`.
fn push_resized(out: &mut Vec<u8>, b: &BoxRef, body: &[u8]) -> (r: Result<()>)
    ensures
        match r {
            Ok(_) => final(out)@ == old(out)@ + resized(b.header_len as int, b.kind@, body@),
            Err(e) => e == FormatError::TooLarge && resized(
                b.header_len as int,
                b.kind@,
                body@,
            ).len() > MAX_BOX,
        },
{
    let n: u64 = body.len() as u64;
    assert(b.kind@.len() == 4);
    if n > MAX_BOX - 16 {
        if b.header_len == 16 || n > MAX_BOX - 8 {
            return Err(FormatError::TooLarge);
        }
    }
    if b.header_len == 16 {
        push_u32_be(out, 1);
        append(out, b.kind.as_slice());
        push_u64_be(out, n + 16);
    } else {
        push_u32_be(out, (n + 8) as u32);
        append(out, b.kind.as_slice());
    }
    append(out, body);
    assert(out@ =~= old(out)@ + resized(b.header_len as int, b.kind@, body@));
    Ok(())
}

/// Is the box a keyed-metadata `meta`?
fn is_dropped(b: &BoxRef, d: &[u8]) -> (r: bool)
    requires
        box_view(*b).inside(d@),
    ensures
        r == drops(box_view(*b), d@),
{
    same_kind(&b.kind, &META) && is_keyed_meta(b.payload(d))
}

/// Append a box as it stands in `d`.
fn push_verbatim(out: &mut Vec<u8>, b: &BoxRef, d: &[u8])
    requires
        box_view(*b).inside(d@),
    ensures
        final(out)@ == old(out)@ + box_view(*b).bytes(d@),
{
    let n: usize = d.len();
    assert(b.start + b.total_len <= n);
    append(out, slice_subrange(d, b.start, b.end()));
}

/// A media payload without keyed metadata.
fn strip_media(p: &[u8]) -> (r: Vec<u8>)
    ensures
        r@ == stripped_media(p@),
{
    let (list, end) = walk_boxes(p);
    let ghost all = boxes(p@);
    let mut out: Vec<u8> = Vec::new();
    let mut i: usize = 0;
    assert(out@ =~= media_children(all.take(0), p@));
    while i < list.len()
        invariant
            i <= list@.len(),
            all == box_views(list@),
            all_inside(all, p@),
            out@ == media_children(all.take(i as int), p@),
        decreases list@.len() - i,
    {
        let ghost before = out@;
        assert(all.take(i + 1).drop_last() =~= all.take(i as int));
        let b = list[i];
        assert(all[i as int] == box_view(b));
        assert(all[i as int].inside(p@));
        if !is_dropped(&b, p) {
            push_verbatim(&mut out, &b, p);
        } else {
            assert(before + Seq::<u8>::empty() =~= before);
        }
        i = i + 1;
    }
    assert(all.take(i as int) =~= all);
    let rest = slice_subrange(p, end, p.len());
    assert(rest@ =~= p@.skip(end as int));
    append(&mut out, rest);
    out
}

/// A track payload without keyed metadata, in the track or in its media.
fn strip_track(p: &[u8]) -> (r: Result<Vec<u8>>)
    ensures
        match r {
            Ok(v) => v@ == stripped_track(p@),
            Err(e) => e == FormatError::TooLarge && stripped_track(p@).len() > MAX_BOX,
        },
{
    let (list, end) = walk_boxes(p);
    let ghost all = boxes(p@);
    let mut out: Vec<u8> = Vec::new();
    let mut i: usize = 0;
    assert(out@ =~= track_children(all.take(0), p@));
    while i < list.len()
        invariant
            i <= list@.len(),
            all == boxes(p@),
            all == box_views(list@),
            all_inside(all, p@),
            out@ == track_children(all.take(i as int), p@),
        decreases list@.len() - i,
    {
        let ghost before = out@;
        assert(all.take(i + 1).drop_last() =~= all.take(i as int));
        let b = list[i];
        assert(all[i as int] == box_view(b));
        assert(all[i as int].inside(p@));
        if is_dropped(&b, p) {
            assert(before + Seq::<u8>::empty() =~= before);
        } else if same_kind(&b.kind, &MDIA) {
            let body = strip_media(b.payload(p));
            match push_resized(&mut out, &b, body.as_slice()) {
                Ok(_) => {},
                Err(e) => {
                    proof {
                        track_children_grow(all, p@, i + 1);
                    }
                    return Err(e);
                },
            }
        } else {
            push_verbatim(&mut out, &b, p);
        }
        i = i + 1;
    }
    assert(all.take(i as int) =~= all);
    let rest = slice_subrange(p, end, p.len());
    assert(rest@ =~= p@.skip(end as int));
    append(&mut out, rest);
    Ok(out)
}

/// What synthesis keeps of a `moov` payload: its readable children but for the user data,
/// which is regenerated, and the keyed metadata of the movie, its tracks and their media.
/// A box that shrinks keeps the form of its header.
pub fn keep_movie(p: &[u8]) -> (r: Result<Vec<u8>>)
    ensures
        match r {
            Ok(v) => v@ == kept_movie(p@),
            Err(e) => e == FormatError::TooLarge && kept_movie(p@).len() > MAX_BOX,
        },
{
    let list = child_boxes_lenient(p);
    let ghost all = boxes(p@);
    let mut out: Vec<u8> = Vec::new();
    let mut i: usize = 0;
    assert(out@ =~= movie_children(all.take(0), p@));
    while i < list.len()
        invariant
            i <= list@.len(),
            all == boxes(p@),
            all == box_views(list@),
            all_inside(all, p@),
            out@ == movie_children(all.take(i as int), p@),
        decreases list@.len() - i,
    {
        let ghost before = out@;
        assert(all.take(i + 1).drop_last() =~= all.take(i as int));
        let b = list[i];
        assert(all[i as int] == box_view(b));
        assert(all[i as int].inside(p@));
        if same_kind(&b.kind, &UDTA) || is_dropped(&b, p) {
            assert(before + Seq::<u8>::empty() =~= before);
        } else if same_kind(&b.kind, &TRAK) {
            let ghost t = box_view(b).payload(p@);
            proof {
                movie_children_grow(all, p@, i + 1);
                boxes_lie_inside(t, 0);
            }
            let body = match strip_track(b.payload(p)) {
                Ok(v) => v,
                Err(e) => {
                    return Err(e);
                },
            };
            match push_resized(&mut out, &b, body.as_slice()) {
                Ok(_) => {},
                Err(e) => {
                    return Err(e);
                },
            }
        } else {
            push_verbatim(&mut out, &b, p);
        }
        i = i + 1;
    }
    assert(all.take(i as int) =~= all);
    Ok(out)
}

/// The Nero chapter list of a movie, as a whole box. It holds no file offsets, so it can be
/// copied through verbatim.
pub fn find_chapters<'a>(p: &'a [u8]) -> (r: Option<&'a [u8]>)
    ensures
        match r {
            Some(c) => chapter_list(p@) == Some(c@),
            None => chapter_list(p@) is None,
        },
{
    let udtas = child_payloads(p, &UDTA);
    let ghost all = payloads(p@, UDTA@);
    let mut i: usize = 0;
    assert(all.skip(0) =~= all);
    while i < udtas.len()
        invariant
            i <= udtas@.len(),
            all == slice_views(udtas@),
            all == payloads(p@, UDTA@),
            chapters_among(all.skip(i as int)) == chapters_among(all),
        decreases udtas@.len() - i,
    {
        assert(all.skip(i as int).drop_first() =~= all.skip(i + 1));
        let u = udtas[i];
        assert(all.skip(i as int)[0] == u@);
        if let Some(c) = find_box_lenient(u, &CHPL) {
            let n: usize = u.len();
            assert(c.start + c.total_len <= n);
            return Some(slice_subrange(u, c.start, c.end()));
        }
        i = i + 1;
    }
    None
}

} // verus!
