//! A regenerated ID3v2.4 tag reads back.

use crate::groups::groups_of;
use crate::id3v2::synchsafe;
use crate::id3v2::synchsafe_bytes;
use crate::id3v2::synchsafe_round_trip;
use crate::input::ArtInput;
use crate::input::BinaryTagInput;
use crate::input::TagInput;
use crate::layout::drafted;
use crate::layout::empty_draft;
use crate::layout::with_bytes;
use crate::layout::DraftModel;
use crate::layout::SegView;
use crate::mp3::frames::apic_head;
use crate::mp3::frames::comm_data;
use crate::mp3::frames::comm_frames;
use crate::mp3::frames::frame;
use crate::mp3::frames::frame_header;
use crate::mp3::frames::frames_len;
use crate::mp3::frames::group_frames;
use crate::mp3::frames::grouped_frames;
use crate::mp3::frames::id3_binary_written;
use crate::mp3::frames::inline_frames;
use crate::mp3::frames::mbid_of;
use crate::mp3::frames::mp3_segments;
use crate::mp3::frames::playcount_of;
use crate::mp3::frames::popm_data;
use crate::mp3::frames::promoted_frames;
use crate::mp3::frames::rating_of;
use crate::mp3::frames::tag_draft;
use crate::mp3::frames::tag_header;
use crate::mp3::frames::tag_segments;
use crate::mp3::frames::text_data;
use crate::mp3::frames::text_frame_id;
use crate::mp3::frames::txxx_data;
use crate::mp3::frames::txxx_frames;
use crate::mp3::frames::ufid_data;
use crate::mp3::frames::with_apic_frames;
use crate::mp3::frames::with_binary_frames;
use crate::mp3::frames::ID_APIC;
use crate::mp3::frames::ID_COMM;
use crate::mp3::frames::ID_POPM;
use crate::mp3::frames::ID_TXXX;
use crate::mp3::frames::ID_UFID;
use crate::mp3::frames::ID_USLT;
use crate::mp3::frames::MAX_SYNCHSAFE;
use crate::mp3::frames::MUSICBRAINZ_UFID_OWNER;
use crate::mp3::read::alloc_safe;
use crate::mp3::read::frame_end;
use crate::mp3::read::frame_safe;
use crate::mp3::read::frames_end;
use crate::mp3::read::frames_fill;
use crate::mp3::read::frames_from;
use crate::mp3::read::frames_safe;
use crate::mp3::read::synchsafe_at;
use crate::mp3::read::tag_frames;
use crate::mp3::read::ID_CHAP;
use crate::mp3::read::ID_CTOC;
use crate::serving::served_bytes;
use crate::serving::served_concat;
use crate::serving::served_draft;
use crate::serving::served_draft_adds_up;
use crate::serving::sources_hold;
use crate::serving::Sources;
use crate::tagmap::id3_slot_of;
use crate::tagmap::Id3Model;
use crate::text::utf8;
use vstd::prelude::*;
use vstd::utf8::*;

verus! {

/// Frames written out, given as id and body.
pub open spec fn list_bytes(s: Seq<(Seq<u8>, Seq<u8>)>) -> Seq<u8>
    decreases s.len(),
{
    if s.len() == 0 {
        Seq::empty()
    } else {
        list_bytes(s.drop_last()) + frame(s.last().0, s.last().1)
    }
}

/// Lists of frames joined are written one after the other.
pub proof fn list_bytes_concat(a: Seq<(Seq<u8>, Seq<u8>)>, b: Seq<(Seq<u8>, Seq<u8>)>)
    ensures
        list_bytes(a + b) == list_bytes(a) + list_bytes(b),
    decreases b.len(),
{
    if b.len() == 0 {
        assert(a + b =~= a);
        assert(list_bytes(a) + Seq::<u8>::empty() =~= list_bytes(a));
    } else {
        assert((a + b).drop_last() =~= a + b.drop_last());
        list_bytes_concat(a, b.drop_last());
        assert(list_bytes(a + b) =~= list_bytes(a) + list_bytes(b));
    }
}

/// One frame is written as itself.
pub proof fn one_frame(id: Seq<u8>, body: Seq<u8>)
    ensures
        list_bytes(seq![(id, body)]) == frame(id, body),
{
    let one = seq![(id, body)];
    assert(one.drop_last() =~= Seq::empty());
    assert(one.last() == (id, body));
    assert(list_bytes(one.drop_last()) =~= Seq::empty());
    assert(list_bytes(one) =~= frame(id, body));
}

/// A frame with a four-byte id that does not look like padding, is no chapter frame, and has
/// a body that fits.
pub open spec fn sound_frame(f: (Seq<u8>, Seq<u8>)) -> bool {
    &&& f.0.len() == 4
    &&& f.0[0] != 0
    &&& f.0 != ID_CHAP@
    &&& f.0 != ID_CTOC@
    &&& f.1.len() <= MAX_SYNCHSAFE
}

/// Every frame is sound.
pub open spec fn all_sound(s: Seq<(Seq<u8>, Seq<u8>)>) -> bool {
    forall|i: int| 0 <= i < s.len() ==> sound_frame(#[trigger] s[i])
}

/// A written frame stands where its bytes stand.
proof fn frame_stands(d: Seq<u8>, p: int, f: (Seq<u8>, Seq<u8>))
    requires
        d[3] == 4,
        0 <= p,
        p + 10 + f.1.len() <= d.len(),
        d.subrange(p, p + 10 + f.1.len()) == frame(f.0, f.1),
        sound_frame(f),
    ensures
        d[p] != 0,
        frame_end(d, p) == p + 10 + f.1.len(),
        d.subrange(p, p + 4) == f.0,
        d.subrange(p + 10, frame_end(d, p)) == f.1,
        d[p + 8] == 0,
        d[p + 9] == 0,
        synchsafe_at(d, p + 4),
{
    let n = f.1.len() as int;
    let w = frame(f.0, f.1);
    let part = d.subrange(p, p + 10 + n);
    let z = synchsafe_bytes(n);
    synchsafe_round_trip(n);
    assert(z.len() == 4);
    assert(part[0] == d[p] && w[0] == f.0[0]);
    assert(part[4] == d[p + 4] && part[5] == d[p + 5] && part[6] == d[p + 6] && part[7] == d[p
        + 7]);
    assert(w[4] == z[0] && w[5] == z[1] && w[6] == z[2] && w[7] == z[3]);
    assert(z[0] < 0x80 && z[1] < 0x80 && z[2] < 0x80 && z[3] < 0x80);
    assert(synchsafe(d, p + 4) == synchsafe(z, 0));
    assert(part[8] == d[p + 8] && part[9] == d[p + 9] && w[8] == 0 && w[9] == 0);
    assert(d.subrange(p, p + 4) =~= part.subrange(0, 4));
    assert(w.subrange(0, 4) =~= f.0);
    assert(d.subrange(p + 10, p + 10 + n) =~= part.subrange(10, 10 + n));
    assert(w.subrange(10, 10 + n) =~= f.1);
}

/// Written frames that end where the tag ends are the frames of the tag, and are safe.
proof fn frames_stand(d: Seq<u8>, p: int, s: Seq<(Seq<u8>, Seq<u8>)>)
    requires
        d.len() >= 10,
        d[3] == 4,
        0 <= p,
        all_sound(s),
        frames_end(d) == p + list_bytes(s).len(),
        frames_end(d) <= d.len(),
        d.subrange(p, p + list_bytes(s).len()) == list_bytes(s),
    ensures
        frames_from(d, p, frames_end(d)) == s,
        frames_fill(d, p, frames_end(d)),
        s.len() > 0 || p == d.len() ==> frames_safe(d, p),
    decreases s.len(),
{
    let end = frames_end(d);
    if s.len() == 0 {
        assert(frames_from(d, p, end) =~= s);
    } else {
        let f = s[0];
        let rest = s.drop_first();
        let one = seq![f];
        assert(s =~= one + rest);
        list_bytes_concat(one, rest);
        one_frame(f.0, f.1);
        assert(sound_frame(s[0]));
        let all = list_bytes(s);
        let n = (10 + f.1.len()) as int;
        let part = d.subrange(p, p + all.len());
        assert(frame(f.0, f.1).len() == n);
        assert(d.subrange(p, p + n) =~= part.subrange(0, n));
        assert(all.subrange(0, n) =~= frame(f.0, f.1));
        frame_stands(d, p, f);
        assert(d.subrange(p + n, p + all.len()) =~= part.subrange(n, all.len() as int));
        assert(all.subrange(n, all.len() as int) =~= list_bytes(rest));
        assert forall|i: int| 0 <= i < rest.len() implies sound_frame(#[trigger] rest[i]) by {
            assert(rest[i] == s[i + 1]);
        }
        frames_stand(d, p + n, rest);
        assert(seq![f] + rest =~= s);
        assert(frame_safe(d, p));
        if rest.len() > 0 {
            assert(list_bytes(rest).len() > 0) by {
                assert(list_bytes(rest).len() >= frame(rest.last().0, rest.last().1).len());
                assert(sound_frame(rest[rest.len() - 1]));
            }
        }
    }
}

/// The whole tag, its header in front.
pub open spec fn whole_tag(s: Seq<(Seq<u8>, Seq<u8>)>) -> Seq<u8> {
    tag_header(list_bytes(s).len() as int) + list_bytes(s)
}

/// A whole tag of sound frames passes the guard, and its frames are those written. Something
/// may follow it, if it has any frame at all.
pub proof fn whole_tag_stands(s: Seq<(Seq<u8>, Seq<u8>)>, after: Seq<u8>)
    requires
        all_sound(s),
        list_bytes(s).len() <= MAX_SYNCHSAFE,
        s.len() > 0 || after.len() == 0,
    ensures
        ({
            let d = whole_tag(s) + after;
            &&& alloc_safe(d)
            &&& d[3] == 4
            &&& d[5] == 0
            &&& frames_end(d) == 10 + list_bytes(s).len()
            &&& frames_from(d, 10, frames_end(d)) == s
            &&& frames_fill(d, 10, frames_end(d))
            &&& tag_frames(d) == s
        }),
{
    let n = list_bytes(s).len() as int;
    let h = tag_header(n);
    let d = whole_tag(s) + after;
    let z = synchsafe_bytes(n);
    synchsafe_round_trip(n);
    assert(z.len() == 4);
    assert(h.len() == 10);
    assert(d[0] == h[0] && d[1] == h[1] && d[2] == h[2] && d[3] == h[3] && d[5] == h[5]);
    assert(h[6] == z[0] && h[7] == z[1] && h[8] == z[2] && h[9] == z[3]);
    assert(d[6] == h[6] && d[7] == h[7] && d[8] == h[8] && d[9] == h[9]);
    assert(z[0] < 0x80 && z[1] < 0x80 && z[2] < 0x80 && z[3] < 0x80);
    assert(synchsafe(d, 6) == synchsafe(z, 0));
    assert(d.subrange(10, 10 + n) =~= list_bytes(s));
    frames_stand(d, 10, s);
}

/// A tag without any frame holds none, whatever follows it: the guard may take the bytes
/// behind it for a frame, and then refuses it.
pub proof fn empty_tag_holds_nothing(after: Seq<u8>)
    ensures
        ({
            let none = Seq::<(Seq<u8>, Seq<u8>)>::empty();
            let d = whole_tag(none) + after;
            &&& d[3] == 4
            &&& d[5] == 0
            &&& frames_end(d) == 10
            &&& frames_from(d, 10, frames_end(d)) == none
            &&& tag_frames(d) == none
        }),
{
    let none = Seq::<(Seq<u8>, Seq<u8>)>::empty();
    assert(list_bytes(none).len() == 0);
    let h = tag_header(0);
    let d = whole_tag(none) + after;
    let z = synchsafe_bytes(0);
    synchsafe_round_trip(0);
    assert(h.len() == 10);
    assert(d[3] == h[3] && d[5] == h[5]);
    assert(h[6] == z[0] && h[7] == z[1] && h[8] == z[2] && h[9] == z[3]);
    assert(d[6] == h[6] && d[7] == h[7] && d[8] == h[8] && d[9] == h[9]);
    assert(synchsafe(d, 6) == synchsafe(z, 0));
}

/// One frame for each value, given as id and body.
pub open spec fn txxx_list(desc: Seq<char>, values: Seq<Seq<char>>) -> Seq<(Seq<u8>, Seq<u8>)> {
    Seq::new(values.len(), |i: int| (ID_TXXX@, txxx_data(desc, values[i])))
}

/// One `COMM` or `USLT` frame for each value, given as id and body.
pub open spec fn comm_list(id: Seq<u8>, values: Seq<Seq<char>>) -> Seq<(Seq<u8>, Seq<u8>)> {
    Seq::new(values.len(), |i: int| (id, comm_data(values[i])))
}

/// The frames of one group, given as id and body.
pub open spec fn group_list(key: Seq<char>, values: Seq<Seq<char>>) -> Seq<(Seq<u8>, Seq<u8>)> {
    match id3_slot_of(key) {
        Some(Id3Model::Text(id)) => seq![(id, text_data(values))],
        Some(Id3Model::Txxx(desc)) => txxx_list(desc, values),
        Some(Id3Model::Comment) => comm_list(ID_COMM@, values),
        Some(Id3Model::Lyrics) => comm_list(ID_USLT@, values),
        None => if text_frame_id(utf8(key)) {
            seq![(utf8(key), text_data(values))]
        } else {
            txxx_list(key, values)
        },
    }
}

/// The frames of all groups, given as id and body.
pub open spec fn groups_list(groups: Seq<(Seq<char>, Seq<Seq<char>>)>) -> Seq<(Seq<u8>, Seq<u8>)>
    decreases groups.len(),
{
    if groups.len() == 0 {
        Seq::empty()
    } else {
        groups_list(groups.drop_last()) + group_list(groups.last().0, groups.last().1)
    }
}

proof fn txxx_list_written(desc: Seq<char>, values: Seq<Seq<char>>)
    ensures
        txxx_frames(desc, values) == list_bytes(txxx_list(desc, values)),
    decreases values.len(),
{
    let l = txxx_list(desc, values);
    if values.len() > 0 {
        txxx_list_written(desc, values.drop_last());
        assert(l.drop_last() =~= txxx_list(desc, values.drop_last()));
    }
}

proof fn comm_list_written(id: Seq<u8>, values: Seq<Seq<char>>)
    ensures
        comm_frames(id, values) == list_bytes(comm_list(id, values)),
    decreases values.len(),
{
    let l = comm_list(id, values);
    if values.len() > 0 {
        comm_list_written(id, values.drop_last());
        assert(l.drop_last() =~= comm_list(id, values.drop_last()));
    }
}

proof fn group_list_written(key: Seq<char>, values: Seq<Seq<char>>)
    ensures
        group_frames(key, values) == list_bytes(group_list(key, values)),
{
    match id3_slot_of(key) {
        Some(Id3Model::Text(id)) => {
            one_frame(id, text_data(values));
        },
        Some(Id3Model::Txxx(desc)) => {
            txxx_list_written(desc, values);
        },
        Some(Id3Model::Comment) => {
            comm_list_written(ID_COMM@, values);
        },
        Some(Id3Model::Lyrics) => {
            comm_list_written(ID_USLT@, values);
        },
        None => {
            one_frame(utf8(key), text_data(values));
            txxx_list_written(key, values);
        },
    }
}

proof fn groups_list_written(groups: Seq<(Seq<char>, Seq<Seq<char>>)>)
    ensures
        grouped_frames(groups) == list_bytes(groups_list(groups)),
    decreases groups.len(),
{
    if groups.len() > 0 {
        let g = groups.last();
        groups_list_written(groups.drop_last());
        group_list_written(g.0, g.1);
        list_bytes_concat(groups_list(groups.drop_last()), group_list(g.0, g.1));
    }
}

/// The promoted frames, given as id and body.
pub open spec fn promoted_list(tags: Seq<TagInput>) -> Seq<(Seq<u8>, Seq<u8>)> {
    let popm = match rating_of(tags) {
        Some(r) => seq![(ID_POPM@, popm_data(r as u8, playcount_of(tags)))],
        None => Seq::empty(),
    };
    let ufid = match mbid_of(tags) {
        Some(m) => seq![(ID_UFID@, ufid_data(MUSICBRAINZ_UFID_OWNER@, utf8(m)))],
        None => Seq::empty(),
    };
    popm + ufid
}

proof fn promoted_list_written(tags: Seq<TagInput>)
    ensures
        promoted_frames(tags) == list_bytes(promoted_list(tags)),
{
    let popm = match rating_of(tags) {
        Some(r) => seq![(ID_POPM@, popm_data(r as u8, playcount_of(tags)))],
        None => Seq::empty(),
    };
    let ufid = match mbid_of(tags) {
        Some(m) => seq![(ID_UFID@, ufid_data(MUSICBRAINZ_UFID_OWNER@, utf8(m)))],
        None => Seq::empty(),
    };
    list_bytes_concat(popm, ufid);
    if let Some(r) = rating_of(tags) {
        one_frame(ID_POPM@, popm_data(r as u8, playcount_of(tags)));
    }
    if let Some(m) = mbid_of(tags) {
        one_frame(ID_UFID@, ufid_data(MUSICBRAINZ_UFID_OWNER@, utf8(m)));
    }
}

/// The opaque binary frames, given as id and body.
pub open spec fn binary_list(tags: Seq<BinaryTagInput>, src: Sources) -> Seq<(Seq<u8>, Seq<u8>)>
    decreases tags.len(),
{
    if tags.len() == 0 {
        Seq::empty()
    } else {
        let before = binary_list(tags.drop_last(), src);
        let bt = tags.last();
        if id3_binary_written(bt) {
            before.push((utf8(bt.key@), (src.payloads)(bt.payload_id)))
        } else {
            before
        }
    }
}

/// The picture frames, given as id and body.
pub open spec fn apic_list(arts: Seq<ArtInput>, src: Sources) -> Seq<(Seq<u8>, Seq<u8>)>
    decreases arts.len(),
{
    if arts.len() == 0 {
        Seq::empty()
    } else {
        let before = apic_list(arts.drop_last(), src);
        let art = arts.last();
        if art.data_len > 0 {
            before.push((ID_APIC@, apic_head(art) + (src.art)(art.art_id)))
        } else {
            before
        }
    }
}

proof fn binary_list_served(d: DraftModel, tags: Seq<BinaryTagInput>, src: Sources)
    requires
        forall|i: int|
            0 <= i < tags.len() ==> (src.payloads)((#[trigger] tags[i]).payload_id).len()
                == tags[i].len,
    ensures
        served_draft(src, with_binary_frames(d, tags)) == served_draft(src, d) + list_bytes(
            binary_list(tags, src),
        ),
    decreases tags.len(),
{
    if tags.len() == 0 {
        assert(served_draft(src, d) + Seq::<u8>::empty() =~= served_draft(src, d));
    } else {
        let f = tags.drop_last();
        let bt = tags.last();
        assert(tags[tags.len() - 1] == bt);
        assert forall|i: int| 0 <= i < f.len() implies (src.payloads)(
            (#[trigger] f[i]).payload_id,
        ).len() == f[i].len by {
            assert(f[i] == tags[i]);
        }
        binary_list_served(d, f, src);
        if id3_binary_written(bt) {
            let p = (src.payloads)(bt.payload_id);
            let h = frame_header(utf8(bt.key@), bt.len as int);
            let s = SegView::BinaryTag { payload_id: bt.payload_id, len: bt.len as int };
            let x = with_binary_frames(d, f);
            served_draft_adds_up(src, x, h, s);
            served_draft_adds_up(src, with_bytes(x, h), h, s);
            let l = binary_list(f, src);
            let e = (utf8(bt.key@), p);
            assert(l.push(e).drop_last() =~= l);
            assert(served_draft(src, d) + list_bytes(l) + h + p =~= served_draft(src, d) + (
            list_bytes(l) + (h + p)));
        }
    }
}

proof fn apic_list_served(d: DraftModel, arts: Seq<ArtInput>, src: Sources)
    requires
        forall|i: int|
            0 <= i < arts.len() ==> (src.art)((#[trigger] arts[i]).art_id).len()
                == arts[i].data_len,
    ensures
        served_draft(src, with_apic_frames(d, arts)) == served_draft(src, d) + list_bytes(
            apic_list(arts, src),
        ),
    decreases arts.len(),
{
    if arts.len() == 0 {
        assert(served_draft(src, d) + Seq::<u8>::empty() =~= served_draft(src, d));
    } else {
        let f = arts.drop_last();
        let art = arts.last();
        assert(arts[arts.len() - 1] == art);
        assert forall|i: int| 0 <= i < f.len() implies (src.art)((#[trigger] f[i]).art_id).len()
            == f[i].data_len by {
            assert(f[i] == arts[i]);
        }
        apic_list_served(d, f, src);
        if art.data_len > 0 {
            let p = (src.art)(art.art_id);
            let a = apic_head(art);
            let h = frame_header(ID_APIC@, a.len() + art.data_len) + a;
            let s = SegView::ArtImage { art_id: art.art_id, len: art.data_len as int };
            let x = with_apic_frames(d, f);
            served_draft_adds_up(src, x, h, s);
            served_draft_adds_up(src, with_bytes(x, h), h, s);
            let l = apic_list(f, src);
            let e = (ID_APIC@, a + p);
            assert(l.push(e).drop_last() =~= l);
            assert(h + p =~= frame(ID_APIC@, a + p));
            assert(served_draft(src, d) + list_bytes(l) + h + p =~= served_draft(src, d) + (
            list_bytes(l) + (h + p)));
        }
    }
}

/// All frames of a regenerated tag, given as id and body.
pub open spec fn tag_list(
    tags: Seq<TagInput>,
    binary_tags: Seq<BinaryTagInput>,
    arts: Seq<ArtInput>,
    src: Sources,
) -> Seq<(Seq<u8>, Seq<u8>)> {
    groups_list(groups_of(tags, true)) + promoted_list(tags) + binary_list(binary_tags, src)
        + apic_list(arts, src)
}

/// The drafted frames of a tag are served as the list of them.
proof fn tag_list_served(
    tags: Seq<TagInput>,
    binary_tags: Seq<BinaryTagInput>,
    arts: Seq<ArtInput>,
    src: Sources,
)
    requires
        sources_hold(src, binary_tags, arts),
    ensures
        served_draft(src, tag_draft(tags, binary_tags, arts)) == list_bytes(
            tag_list(tags, binary_tags, arts, src),
        ),
{
    let t = inline_frames(tags);
    let s = SegView::Inline(t);
    let d1 = with_bytes(empty_draft(), t);
    let d2 = with_binary_frames(d1, binary_tags);
    served_draft_adds_up(src, empty_draft(), t, s);
    binary_list_served(d1, binary_tags, src);
    apic_list_served(d2, arts, src);
    let g = groups_list(groups_of(tags, true));
    let p = promoted_list(tags);
    let b = binary_list(binary_tags, src);
    let a = apic_list(arts, src);
    groups_list_written(groups_of(tags, true));
    promoted_list_written(tags);
    list_bytes_concat(g, p);
    list_bytes_concat(g + p, b);
    list_bytes_concat(g + p + b, a);
    assert(Seq::<u8>::empty() + t =~= t);
}

/// How many bytes a draft is served as is how many it was counted as, where the sources hold
/// what they should.
proof fn served_len(
    tags: Seq<TagInput>,
    binary_tags: Seq<BinaryTagInput>,
    arts: Seq<ArtInput>,
    src: Sources,
)
    requires
        sources_hold(src, binary_tags, arts),
    ensures
        list_bytes(tag_list(tags, binary_tags, arts, src)).len() == frames_len(
            tags,
            binary_tags,
            arts,
        ),
{
    tag_list_served(tags, binary_tags, arts, src);
    let t = inline_frames(tags);
    let d1 = with_bytes(empty_draft(), t);
    let d2 = with_binary_frames(d1, binary_tags);
    let d3 = with_apic_frames(d2, arts);
    let s = SegView::Inline(t);
    served_draft_adds_up(src, empty_draft(), t, s);
    crate::layout::draft_bytes_add_up(empty_draft(), t, s);
    binary_len(d1, binary_tags, src);
    apic_len(d2, arts, src);
    crate::layout::draft_bytes_add_up(d3, t, s);
}

proof fn binary_len(d: DraftModel, tags: Seq<BinaryTagInput>, src: Sources)
    requires
        forall|i: int|
            0 <= i < tags.len() ==> (src.payloads)((#[trigger] tags[i]).payload_id).len()
                == tags[i].len,
    ensures
        served_draft(src, with_binary_frames(d, tags)).len() - served_draft(src, d).len()
            == crate::layout::draft_bytes(with_binary_frames(d, tags)) - crate::layout::draft_bytes(
            d,
        ),
    decreases tags.len(),
{
    if tags.len() > 0 {
        let f = tags.drop_last();
        let bt = tags.last();
        assert(tags[tags.len() - 1] == bt);
        assert forall|i: int| 0 <= i < f.len() implies (src.payloads)(
            (#[trigger] f[i]).payload_id,
        ).len() == f[i].len by {
            assert(f[i] == tags[i]);
        }
        binary_len(d, f, src);
        let h = frame_header(utf8(bt.key@), bt.len as int);
        let s = SegView::BinaryTag { payload_id: bt.payload_id, len: bt.len as int };
        let x = with_binary_frames(d, f);
        served_draft_adds_up(src, x, h, s);
        served_draft_adds_up(src, with_bytes(x, h), h, s);
        crate::layout::draft_bytes_add_up(x, h, s);
        crate::layout::draft_bytes_add_up(with_bytes(x, h), h, s);
    }
}

proof fn apic_len(d: DraftModel, arts: Seq<ArtInput>, src: Sources)
    requires
        forall|i: int|
            0 <= i < arts.len() ==> (src.art)((#[trigger] arts[i]).art_id).len()
                == arts[i].data_len,
    ensures
        served_draft(src, with_apic_frames(d, arts)).len() - served_draft(src, d).len()
            == crate::layout::draft_bytes(with_apic_frames(d, arts)) - crate::layout::draft_bytes(d),
    decreases arts.len(),
{
    if arts.len() > 0 {
        let f = arts.drop_last();
        let art = arts.last();
        assert(arts[arts.len() - 1] == art);
        assert forall|i: int| 0 <= i < f.len() implies (src.art)((#[trigger] f[i]).art_id).len()
            == f[i].data_len by {
            assert(f[i] == arts[i]);
        }
        apic_len(d, f, src);
        let a = apic_head(art);
        let h = frame_header(ID_APIC@, a.len() + art.data_len) + a;
        let s = SegView::ArtImage { art_id: art.art_id, len: art.data_len as int };
        let x = with_apic_frames(d, f);
        served_draft_adds_up(src, x, h, s);
        served_draft_adds_up(src, with_bytes(x, h), h, s);
        crate::layout::draft_bytes_add_up(x, h, s);
        crate::layout::draft_bytes_add_up(with_bytes(x, h), h, s);
    }
}

/// A synthesized MP3 is served as the whole tag and the backing audio.
pub proof fn file_served(
    audio_offset: int,
    audio_length: int,
    tags: Seq<TagInput>,
    binary_tags: Seq<BinaryTagInput>,
    arts: Seq<ArtInput>,
    src: Sources,
)
    requires
        sources_hold(src, binary_tags, arts),
    ensures
        served_bytes(src, mp3_segments(audio_offset, audio_length, tags, binary_tags, arts))
            == whole_tag(tag_list(tags, binary_tags, arts, src)) + src.backing.subrange(
            audio_offset,
            audio_offset + audio_length,
        ),
        list_bytes(tag_list(tags, binary_tags, arts, src)).len() == frames_len(
            tags,
            binary_tags,
            arts,
        ),
{
    let list = tag_list(tags, binary_tags, arts, src);
    tag_list_served(tags, binary_tags, arts, src);
    served_len(tags, binary_tags, arts, src);
    let d = tag_draft(tags, binary_tags, arts);
    let frames = drafted(d);
    let h = tag_header(frames_len(tags, binary_tags, arts));
    let s = SegView::Inline(h);
    served_draft_adds_up(src, d, Seq::empty(), s);
    served_concat(src, seq![s], frames);
    let one = seq![s];
    assert(one.drop_last() =~= Seq::empty());
    assert(one.last() == s);
    assert(served_bytes(src, one.drop_last()) =~= Seq::empty());
    assert(served_bytes(src, one) =~= h);
    let segs = tag_segments(tags, binary_tags, arts);
    let audio = SegView::BackingAudio { offset: audio_offset, len: audio_length };
    crate::serving::served_push(src, segs, audio);
}

} // verus!
