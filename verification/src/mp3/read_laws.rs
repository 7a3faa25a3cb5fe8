//! What comes back of a regenerated ID3v2.4 tag: its binary frames and promoted pairs, its
//! text tags and its pictures.

use crate::bytes::be32_bytes;
use crate::bytes::be_value;
use crate::bytes::find_byte_is;
use crate::bytes::front_eight;
use crate::groups::groups_of;
use crate::input::ArtInput;
use crate::input::BinaryTagInput;
use crate::input::TagInput;
use crate::layout::SegView;
use crate::mp3::frames::frame;
use crate::mp3::frames::frames_len;
use crate::mp3::frames::id3_binary_written;
use crate::mp3::frames::mbid_of;
use crate::mp3::frames::mp3_segments;
use crate::mp3::frames::playcount_of;
use crate::mp3::frames::popm_data;
use crate::mp3::frames::rating_of;
use crate::mp3::frames::tag_segments;
use crate::mp3::frames::ufid_data;
use crate::mp3::frames::ID_APIC;
use crate::mp3::frames::ID_COMM;
use crate::mp3::frames::ID_POPM;
use crate::mp3::frames::ID_TXXX;
use crate::mp3::frames::ID_UFID;
use crate::mp3::frames::ID_USLT;
use crate::mp3::frames::MAX_SYNCHSAFE;
use crate::mp3::frames::MUSICBRAINZ_UFID_OWNER;
use crate::mp3::laws::all_sound;
use crate::mp3::laws::apic_list;
use crate::mp3::laws::binary_list;
use crate::mp3::laws::empty_tag_holds_nothing;
use crate::mp3::laws::file_served;
use crate::mp3::laws::group_list;
use crate::mp3::laws::groups_list;
use crate::mp3::laws::list_bytes;
use crate::mp3::laws::promoted_list;
use crate::mp3::laws::sound_frame;
use crate::mp3::laws::tag_list;
use crate::mp3::laws::whole_tag_stands;
use crate::mp3::read::alloc_safe;
use crate::mp3::read::graphic;
use crate::mp3::read::id_text;
use crate::mp3::read::musicbrainz_ufid;
use crate::mp3::read::opaque_frames;
use crate::mp3::read::opaque_part;
use crate::mp3::read::promoted_pairs;
use crate::mp3::read::promoted_part;
use crate::mp3::read::read_elsewhere;
use crate::mp3::read::tag_frames;
use crate::mp3::read::ID_CHAP;
use crate::mp3::read::ID_CTOC;
use crate::serving::served_bytes;
use crate::serving::sources_hold;
use crate::serving::Sources;
use crate::tagmap::entry_of;
use crate::tagmap::key_is;
use crate::tagmap_laws::found_entry;
use crate::tagmap_laws::id3_slot_shape;
use crate::text::decimal;
use crate::text::lossy_text_of_utf8;
use crate::text::lower;
use crate::text::utf8;
use vstd::prelude::*;
use vstd::utf8::*;

verus! {

/// Every frame is read elsewhere than among the binary frames.
pub open spec fn all_elsewhere(s: Seq<(Seq<u8>, Seq<u8>)>) -> bool {
    forall|i: int| 0 <= i < s.len() ==> read_elsewhere((#[trigger] s[i]).0)
}

/// Frames that are read elsewhere leave nothing among the binary frames.
proof fn elsewhere_leaves_nothing(s: Seq<(Seq<u8>, Seq<u8>)>)
    requires
        all_elsewhere(s),
    ensures
        opaque_frames(s) == Seq::<(Seq<char>, Seq<u8>)>::empty(),
        promoted_pairs(s) == Seq::<(Seq<char>, Seq<char>)>::empty(),
    decreases s.len(),
{
    if s.len() > 0 {
        let f = s.drop_last();
        assert forall|i: int| 0 <= i < f.len() implies read_elsewhere((#[trigger] f[i]).0) by {
            assert(f[i] == s[i]);
        }
        elsewhere_leaves_nothing(f);
        assert(read_elsewhere(s[s.len() - 1].0));
        assert(opaque_frames(s) =~= Seq::empty());
        assert(promoted_pairs(s) =~= Seq::empty());
    } else {
        assert(opaque_frames(s) =~= Seq::empty());
        assert(promoted_pairs(s) =~= Seq::empty());
    }
}

/// Lists of frames joined are read one after the other.
proof fn reading_concat(a: Seq<(Seq<u8>, Seq<u8>)>, b: Seq<(Seq<u8>, Seq<u8>)>)
    ensures
        opaque_frames(a + b) == opaque_frames(a) + opaque_frames(b),
        promoted_pairs(a + b) == promoted_pairs(a) + promoted_pairs(b),
    decreases b.len(),
{
    if b.len() == 0 {
        assert(a + b =~= a);
        assert(opaque_frames(a) + Seq::<(Seq<char>, Seq<u8>)>::empty() =~= opaque_frames(a));
        assert(promoted_pairs(a) + Seq::<(Seq<char>, Seq<char>)>::empty() =~= promoted_pairs(a));
    } else {
        let f = b.drop_last();
        let l = b.last();
        assert((a + b).drop_last() =~= a + f);
        reading_concat(a, f);
        assert(opaque_frames(a) + opaque_frames(f) + opaque_part(l.0, l.1) =~= opaque_frames(a) + (
        opaque_frames(f) + opaque_part(l.0, l.1)));
        assert(promoted_pairs(a) + promoted_pairs(f) + promoted_part(l.0, l.1) =~= promoted_pairs(a)
            + (promoted_pairs(f) + promoted_part(l.0, l.1)));
    }
}

/// One frame is read by itself.
proof fn one_read(id: Seq<u8>, body: Seq<u8>)
    ensures
        opaque_frames(seq![(id, body)]) == opaque_part(id, body),
        promoted_pairs(seq![(id, body)]) == promoted_part(id, body),
{
    let one = seq![(id, body)];
    assert(one.drop_last() =~= Seq::empty());
    assert(one.last() == (id, body));
    assert(opaque_frames(one.drop_last()) =~= Seq::empty());
    assert(promoted_pairs(one.drop_last()) =~= Seq::empty());
    assert(opaque_frames(one) =~= opaque_part(id, body));
    assert(promoted_pairs(one) =~= promoted_part(id, body));
}

/// The frames of a group have four-byte ids that are read elsewhere.
proof fn group_frames_elsewhere(key: Seq<char>, values: Seq<Seq<char>>, i: int)
    requires
        0 <= i < group_list(key, values).len(),
    ensures
        read_elsewhere(group_list(key, values)[i].0),
        group_list(key, values)[i].0.len() == 4,
        group_list(key, values)[i].0[0] == 0x54 || group_list(key, values)[i].0 == ID_COMM@
            || group_list(key, values)[i].0 == ID_USLT@,
{
    assert(ID_TXXX@[0] == 0x54 && ID_TXXX@.len() == 4 && ID_COMM@.len() == 4 && ID_USLT@.len()
        == 4);
    match entry_of(key) {
        Some(e) => {
            found_entry(key_is(lower(key)), 0);
            id3_slot_shape(e);
        },
        None => {},
    }
}

/// The frames of all groups.
proof fn groups_elsewhere(groups: Seq<(Seq<char>, Seq<Seq<char>>)>)
    ensures
        all_elsewhere(groups_list(groups)),
        forall|i: int|
            0 <= i < groups_list(groups).len() ==> (#[trigger] groups_list(groups)[i]).0.len() == 4
                && groups_list(groups)[i].0[0] != 0 && groups_list(groups)[i].0 != ID_CHAP@
                && groups_list(groups)[i].0 != ID_CTOC@,
    decreases groups.len(),
{
    if groups.len() > 0 {
        let f = groups_list(groups.drop_last());
        let g = groups.last();
        let l = group_list(g.0, g.1);
        groups_elsewhere(groups.drop_last());
        assert(ID_CHAP@[1] == 0x48 && ID_CTOC@[1] == 0x54 && ID_COMM@[1] == 0x4f && ID_USLT@[0]
            == 0x55 && ID_CHAP@[0] == 0x43 && ID_CTOC@[0] == 0x43 && ID_COMM@[0] == 0x43);
        let all = groups_list(groups);
        assert forall|i: int| 0 <= i < all.len() implies read_elsewhere((#[trigger] all[i]).0)
            && all[i].0.len() == 4 && all[i].0[0] != 0 && all[i].0 != ID_CHAP@ && all[i].0
            != ID_CTOC@ by {
            if i < f.len() {
                assert(all[i] == f[i]);
                assert(read_elsewhere(f[i].0));
            } else {
                assert(all[i] == l[i - f.len()]);
                group_frames_elsewhere(g.0, g.1, i - f.len());
            }
        }
    }
}

/// The pairs that come back of promoted values: the rating and, where it is not zero, the
/// play count, no more than fits 32 bits; the MusicBrainz track id. A play count without a
/// rating is not written.
pub open spec fn promoted_back(tags: Seq<TagInput>) -> Seq<(Seq<char>, Seq<char>)> {
    let count = playcount_of(tags);
    let rating = match rating_of(tags) {
        Some(r) => if count > 0 {
            seq![
                ("rating"@, decimal(r)),
                (
                    "playcount"@,
                    decimal(
                        if count > u32::MAX {
                            u32::MAX as int
                        } else {
                            count
                        },
                    ),
                ),
            ]
        } else {
            seq![("rating"@, decimal(r))]
        },
        None => Seq::empty(),
    };
    rating + match mbid_of(tags) {
        Some(m) => seq![("musicbrainz_trackid"@, m)],
        None => Seq::empty(),
    }
}

/// Four big-endian bytes are their number.
proof fn be_value_of_four(v: int)
    requires
        0 <= v <= u32::MAX,
    ensures
        be_value(be32_bytes(v)) == v,
        front_eight(be32_bytes(v)) == be32_bytes(v),
{
    let b = be32_bytes(v);
    crate::bytes::be32_round_trip(v);
    assert(front_eight(b) =~= b);
    let b3 = b.drop_last();
    let b2 = b3.drop_last();
    let b1 = b2.drop_last();
    let b0 = b1.drop_last();
    assert(b0 =~= Seq::empty());
    assert(be_value(b0) == 0);
    assert(be_value(b1) == b[0]);
    assert(be_value(b2) == b[0] * 0x100 + b[1]);
    assert(be_value(b3) == (b[0] * 0x100 + b[1]) * 0x100 + b[2]);
    assert(be_value(b) == ((b[0] * 0x100 + b[1]) * 0x100 + b[2]) * 0x100 + b[3]);
    assert(be_value(b) == crate::bytes::be32(b, 0));
}

/// A written `POPM` frame reads back.
proof fn popm_reads(rating: u8, count: int)
    requires
        0 <= count,
    ensures
        opaque_part(ID_POPM@, popm_data(rating, count)) == Seq::<(Seq<char>, Seq<u8>)>::empty(),
        promoted_part(ID_POPM@, popm_data(rating, count)) == if count > 0 {
            seq![
                ("rating"@, decimal(rating as int)),
                (
                    "playcount"@,
                    decimal(
                        if count > u32::MAX {
                            u32::MAX as int
                        } else {
                            count
                        },
                    ),
                ),
            ]
        } else {
            seq![("rating"@, decimal(rating as int))]
        },
{
    let b = popm_data(rating, count);
    assert(ID_POPM@[0] == 0x50 && ID_COMM@[0] == 0x43 && ID_USLT@[0] == 0x55 && ID_APIC@[0] == 0x41);
    assert(b[0] == 0 && b[1] == rating);
    find_byte_is(b, 0, 0, 0);
    let rest = b.subrange(2, b.len() as int);
    if count > 0 {
        let c = if count > u32::MAX {
            u32::MAX as int
        } else {
            count
        };
        assert(rest =~= be32_bytes(c));
        be_value_of_four(c);
    } else {
        assert(rest =~= Seq::empty());
        assert(front_eight(rest) =~= Seq::empty());
    }
}

/// A written MusicBrainz `UFID` frame reads back.
proof fn ufid_reads(m: Seq<char>)
    ensures
        opaque_part(ID_UFID@, ufid_data(MUSICBRAINZ_UFID_OWNER@, utf8(m))) == Seq::<
            (Seq<char>, Seq<u8>),
        >::empty(),
        promoted_part(ID_UFID@, ufid_data(MUSICBRAINZ_UFID_OWNER@, utf8(m))) == seq![
            ("musicbrainz_trackid"@, m),
        ],
{
    let o = utf8(MUSICBRAINZ_UFID_OWNER@);
    let b = ufid_data(MUSICBRAINZ_UFID_OWNER@, utf8(m));
    assert(ID_UFID@[0] == 0x55 && ID_UFID@[1] == 0x46 && ID_COMM@[0] == 0x43 && ID_USLT@[1] == 0x53
        && ID_APIC@[0] == 0x41 && ID_POPM@[0] == 0x50);
    reveal_strlit("http://musicbrainz.org");
    assert(is_ascii_chars(MUSICBRAINZ_UFID_OWNER@));
    crate::text::ascii_bytes(MUSICBRAINZ_UFID_OWNER@);
    assert forall|k: int| 0 <= k < o.len() implies b[k] != 0 by {
        assert(b[k] == o[k]);
    }
    assert(b[o.len() as int] == 0);
    find_byte_is(b, 0, 0, o.len() as int);
    assert(b.subrange(0, o.len() as int) =~= o);
    assert(b.subrange(o.len() as int + 1, b.len() as int) =~= utf8(m));
    lossy_text_of_utf8(m);
}

proof fn playcount_nonneg(tags: Seq<TagInput>)
    ensures
        0 <= playcount_of(tags),
    decreases tags.len(),
{
    if tags.len() > 0 {
        playcount_nonneg(tags.drop_last());
        let b = utf8(tags.last().value@);
        let s = if b.len() > 0 && b[0] == 0x2b {
            b.skip(1)
        } else {
            b
        };
        if crate::text::all_digits(s) {
            crate::text::digits_value_prefix(s, s.len() as int);
        }
    }
}

proof fn rating_range(tags: Seq<TagInput>)
    ensures
        match rating_of(tags) {
            Some(r) => 0 <= r <= 255,
            None => true,
        },
    decreases tags.len(),
{
    if tags.len() > 0 {
        rating_range(tags.drop_last());
        let b = utf8(tags.last().value@);
        let s = if b.len() > 0 && b[0] == 0x2b {
            b.skip(1)
        } else {
            b
        };
        if crate::text::all_digits(s) {
            crate::text::digits_value_prefix(s, s.len() as int);
        }
    }
}

/// The promoted frames read back.
proof fn promoted_list_reads(tags: Seq<TagInput>)
    ensures
        opaque_frames(promoted_list(tags)) == Seq::<(Seq<char>, Seq<u8>)>::empty(),
        promoted_pairs(promoted_list(tags)) == promoted_back(tags),
{
    let count = playcount_of(tags);
    playcount_nonneg(tags);
    rating_range(tags);
    let popm = match rating_of(tags) {
        Some(r) => seq![(ID_POPM@, popm_data(r as u8, count))],
        None => Seq::empty(),
    };
    let ufid = match mbid_of(tags) {
        Some(m) => seq![(ID_UFID@, ufid_data(MUSICBRAINZ_UFID_OWNER@, utf8(m)))],
        None => Seq::empty(),
    };
    reading_concat(popm, ufid);
    let none = Seq::<(Seq<u8>, Seq<u8>)>::empty();
    let no = Seq::<(Seq<char>, Seq<u8>)>::empty();
    let np = Seq::<(Seq<char>, Seq<char>)>::empty();
    assert(opaque_frames(none) =~= no);
    assert(promoted_pairs(none) =~= np);
    if let Some(r) = rating_of(tags) {
        popm_reads(r as u8, count);
        one_read(ID_POPM@, popm_data(r as u8, count));
    }
    if let Some(m) = mbid_of(tags) {
        ufid_reads(m);
        one_read(ID_UFID@, ufid_data(MUSICBRAINZ_UFID_OWNER@, utf8(m)));
    }
    assert(opaque_frames(popm) + opaque_frames(ufid) =~= no);
    assert(promoted_pairs(popm) + promoted_pairs(ufid) =~= promoted_back(tags));
}

/// A binary tag as the reader hands one out: a printable four-byte id of a frame that is
/// neither read elsewhere nor promoted, and that the guard lets through.
pub open spec fn opaque_tag(bt: BinaryTagInput, src: Sources) -> bool {
    let id = utf8(bt.key@);
    &&& graphic(id)
    &&& !read_elsewhere(id)
    &&& id != ID_POPM@
    &&& id != ID_CHAP@
    &&& id != ID_CTOC@
    &&& id == ID_UFID@ ==> !musicbrainz_ufid((src.payloads)(bt.payload_id))
}

/// A binary tag that is written is one that the reader hands out again.
pub open spec fn written_as_read(bt: BinaryTagInput, src: Sources) -> bool {
    id3_binary_written(bt) ==> opaque_tag(bt, src)
}

/// The binary frames that come back: those with a four-byte id that are not empty.
pub open spec fn binaries_back(tags: Seq<BinaryTagInput>, src: Sources) -> Seq<
    (Seq<char>, Seq<u8>),
>
    decreases tags.len(),
{
    if tags.len() == 0 {
        Seq::empty()
    } else {
        let before = binaries_back(tags.drop_last(), src);
        let bt = tags.last();
        if id3_binary_written(bt) {
            before.push((bt.key@, (src.payloads)(bt.payload_id)))
        } else {
            before
        }
    }
}

/// The text of a printable id is the key it was made from.
proof fn id_text_is_key(key: Seq<char>)
    requires
        graphic(utf8(key)),
    ensures
        id_text(utf8(key)) == key,
{
    let b = utf8(key);
    let t = id_text(b);
    assert(is_ascii_chars(t)) by {
        assert forall|i: int| 0 <= i < t.len() implies (#[trigger] t[i] as u32) < 0x80 by {
            assert(0x21 <= b[i] <= 0x7e);
        }
    }
    crate::text::ascii_bytes(t);
    assert(utf8(t) =~= b);
    crate::text::utf8_injective(t, key);
}

/// The opaque binary frames read back.
proof fn binary_list_reads(tags: Seq<BinaryTagInput>, src: Sources)
    requires
        forall|i: int| 0 <= i < tags.len() ==> written_as_read(#[trigger] tags[i], src),
    ensures
        opaque_frames(binary_list(tags, src)) == binaries_back(tags, src),
        promoted_pairs(binary_list(tags, src)) == Seq::<(Seq<char>, Seq<char>)>::empty(),
        forall|i: int|
            0 <= i < binary_list(tags, src).len() ==> (#[trigger] binary_list(tags, src)[i]).0.len()
                == 4 && binary_list(tags, src)[i].0[0] != 0 && binary_list(tags, src)[i].0
                != ID_CHAP@ && binary_list(tags, src)[i].0 != ID_CTOC@,
    decreases tags.len(),
{
    let all = binary_list(tags, src);
    if tags.len() > 0 {
        let f = tags.drop_last();
        let bt = tags.last();
        assert(tags[tags.len() - 1] == bt);
        assert forall|i: int| 0 <= i < f.len() implies written_as_read(#[trigger] f[i], src) by {
            assert(f[i] == tags[i]);
        }
        binary_list_reads(f, src);
        if id3_binary_written(bt) {
            let l = binary_list(f, src);
            let id = utf8(bt.key@);
            let p = (src.payloads)(bt.payload_id);
            assert(opaque_tag(bt, src));
            id_text_is_key(bt.key@);
            assert(l.push((id, p)) =~= l + seq![(id, p)]);
            reading_concat(l, seq![(id, p)]);
            one_read(id, p);
            assert(graphic(id) && 0x21 <= id[0]);
            assert(opaque_part(id, p) == seq![(bt.key@, p)]);
            assert(promoted_part(id, p) == Seq::<(Seq<char>, Seq<char>)>::empty());
            assert(binaries_back(f, src) + seq![(bt.key@, p)] =~= binaries_back(tags, src));
            let np = Seq::<(Seq<char>, Seq<char>)>::empty();
            assert(np + np =~= np);
        }
    } else {
        assert(opaque_frames(all) =~= Seq::empty());
        assert(promoted_pairs(all) =~= Seq::empty());
    }
}

/// The picture frames are read elsewhere.
proof fn apic_elsewhere(arts: Seq<ArtInput>, src: Sources)
    ensures
        all_elsewhere(apic_list(arts, src)),
        forall|i: int| 0 <= i < apic_list(arts, src).len() ==> (#[trigger] apic_list(arts, src)[i]).0 == ID_APIC@,
    decreases arts.len(),
{
    if arts.len() > 0 {
        apic_elsewhere(arts.drop_last(), src);
        let before = apic_list(arts.drop_last(), src);
        let all = apic_list(arts, src);
        assert forall|i: int| 0 <= i < all.len() implies (#[trigger] all[i]).0 == ID_APIC@ by {
            if i < before.len() {
                assert(all[i] == before[i]);
            }
        }
    }
}

/// A frame is no longer than the list it stands in.
proof fn frame_within(s: Seq<(Seq<u8>, Seq<u8>)>, i: int)
    requires
        0 <= i < s.len(),
    ensures
        s[i].1.len() <= list_bytes(s).len(),
    decreases s.len(),
{
    if i < s.len() - 1 {
        frame_within(s.drop_last(), i);
        assert(s.drop_last()[i] == s[i]);
    } else {
        assert(frame(s.last().0, s.last().1).len() >= s.last().1.len());
    }
}

/// All frames of a regenerated tag are sound.
pub proof fn tag_list_is_sound(
    tags: Seq<TagInput>,
    binary_tags: Seq<BinaryTagInput>,
    arts: Seq<ArtInput>,
    src: Sources,
)
    requires
        forall|i: int| 0 <= i < binary_tags.len() ==> written_as_read(#[trigger] binary_tags[i], src),
        list_bytes(tag_list(tags, binary_tags, arts, src)).len() <= MAX_SYNCHSAFE,
    ensures
        all_sound(tag_list(tags, binary_tags, arts, src)),
{
    let g = groups_list(groups_of(tags, true));
    let p = promoted_list(tags);
    let b = binary_list(binary_tags, src);
    let a = apic_list(arts, src);
    let all = tag_list(tags, binary_tags, arts, src);
    groups_elsewhere(groups_of(tags, true));
    binary_list_reads(binary_tags, src);
    apic_elsewhere(arts, src);
    assert(ID_POPM@.len() == 4 && ID_UFID@.len() == 4 && ID_APIC@.len() == 4);
    assert(ID_POPM@[0] == 0x50 && ID_UFID@[0] == 0x55 && ID_APIC@[0] == 0x41 && ID_CHAP@[0] == 0x43
        && ID_CTOC@[0] == 0x43);
    assert forall|i: int| 0 <= i < all.len() implies sound_frame(#[trigger] all[i]) by {
        frame_within(all, i);
        let gp = (g + p).len();
        let gpb = (g + p + b).len();
        if i < g.len() {
            assert(all[i] == g[i]);
        } else if i < gp {
            assert(all[i] == p[i - g.len()]);
        } else if i < gpb {
            assert(all[i] == b[i - gp]);
        } else {
            assert(all[i] == a[i - gpb]);
        }
    }
}

/// The tag of a synthesized MP3 file passes the guard, and its binary frames and promoted
/// pairs read back. (Where the tag has no frame at all the guard may take the audio behind it
/// for one, and refuse the tag; nothing is lost by that.)
pub proof fn binary_tags_read_back(
    audio_offset: int,
    audio_length: int,
    tags: Seq<TagInput>,
    binary_tags: Seq<BinaryTagInput>,
    arts: Seq<ArtInput>,
    src: Sources,
)
    requires
        frames_len(tags, binary_tags, arts) <= MAX_SYNCHSAFE,
        sources_hold(src, binary_tags, arts),
        0 <= audio_offset,
        0 <= audio_length,
        audio_offset + audio_length <= src.backing.len(),
        forall|i: int| 0 <= i < binary_tags.len() ==> written_as_read(#[trigger] binary_tags[i], src),
    ensures
        ({
            let file = served_bytes(
                src,
                mp3_segments(audio_offset, audio_length, tags, binary_tags, arts),
            );
            &&& frames_len(tags, binary_tags, arts) > 0 || audio_length == 0 ==> alloc_safe(file)
            &&& opaque_frames(tag_frames(file)) == binaries_back(binary_tags, src)
            &&& promoted_pairs(tag_frames(file)) == promoted_back(tags)
        }),
{
    let after = src.backing.subrange(audio_offset, audio_offset + audio_length);
    file_served(audio_offset, audio_length, tags, binary_tags, arts, src);
    tag_list_is_sound(tags, binary_tags, arts, src);
    let g = groups_list(groups_of(tags, true));
    let p = promoted_list(tags);
    let b = binary_list(binary_tags, src);
    let a = apic_list(arts, src);
    let all = tag_list(tags, binary_tags, arts, src);
    if all.len() > 0 || after.len() == 0 {
        whole_tag_stands(all, after);
    } else {
        assert(list_bytes(all).len() == 0);
        assert(all =~= Seq::empty());
        empty_tag_holds_nothing(after);
    }
    groups_elsewhere(groups_of(tags, true));
    elsewhere_leaves_nothing(g);
    promoted_list_reads(tags);
    binary_list_reads(binary_tags, src);
    apic_elsewhere(arts, src);
    elsewhere_leaves_nothing(a);
    reading_concat(g, p);
    reading_concat(g + p, b);
    reading_concat(g + p + b, a);
    let no = Seq::<(Seq<char>, Seq<u8>)>::empty();
    let np = Seq::<(Seq<char>, Seq<char>)>::empty();
    assert(no + no + binaries_back(binary_tags, src) + no =~= binaries_back(binary_tags, src));
    assert(np + promoted_back(tags) + np + np =~= promoted_back(tags));
}

/// A built tag, by itself, passes the guard, and its binary frames and promoted pairs read
/// back.
pub proof fn built_tag_reads_back(
    tags: Seq<TagInput>,
    binary_tags: Seq<BinaryTagInput>,
    arts: Seq<ArtInput>,
    src: Sources,
)
    requires
        frames_len(tags, binary_tags, arts) <= MAX_SYNCHSAFE,
        sources_hold(src, binary_tags, arts),
        forall|i: int| 0 <= i < binary_tags.len() ==> written_as_read(#[trigger] binary_tags[i], src),
    ensures
        ({
            let tag = served_bytes(src, tag_segments(tags, binary_tags, arts));
            &&& alloc_safe(tag)
            &&& opaque_frames(tag_frames(tag)) == binaries_back(binary_tags, src)
            &&& promoted_pairs(tag_frames(tag)) == promoted_back(tags)
        }),
{
    binary_tags_read_back(0, 0, tags, binary_tags, arts, src);
    let segs = tag_segments(tags, binary_tags, arts);
    let none = SegView::BackingAudio { offset: 0, len: 0 };
    crate::serving::served_push(src, segs, none);
    let tag = served_bytes(src, segs);
    assert(tag + src.backing.subrange(0, 0) =~= tag);
}

} // verus!
