//! The text tags and pictures of a regenerated ID3v2.4 tag read back as they were given.

use crate::bytes::byte_of;
use crate::bytes::find_byte;
use crate::bytes::find_byte_finds;
use crate::bytes::find_byte_is;
use crate::flac::clamped_type;
use crate::flac::PictureModel;
use crate::groups::groups_of;
use crate::input::ArtInput;
use crate::input::BinaryTagInput;
use crate::input::TagInput;
use crate::mp3::frames::apic_head;
use crate::mp3::frames::comm_data;
use crate::mp3::frames::frames_len;
use crate::mp3::frames::id3_binary_written;
use crate::mp3::frames::joined;
use crate::mp3::frames::mbid_of;
use crate::mp3::frames::mp3_segments;
use crate::mp3::frames::playcount_of;
use crate::mp3::frames::popm_data;
use crate::mp3::frames::rating_of;
use crate::mp3::frames::text_data;
use crate::mp3::frames::text_frame_id;
use crate::mp3::frames::txxx_data;
use crate::mp3::frames::ufid_data;
use crate::mp3::frames::ENC_UTF8;
use crate::mp3::frames::ID_APIC;
use crate::mp3::frames::ID_COMM;
use crate::mp3::frames::ID_POPM;
use crate::mp3::frames::ID_TXXX;
use crate::mp3::frames::ID_UFID;
use crate::mp3::frames::ID_USLT;
use crate::mp3::frames::MAX_SYNCHSAFE;
use crate::mp3::frames::MUSICBRAINZ_UFID_OWNER;
use crate::mp3::laws::apic_list;
use crate::mp3::laws::binary_list;
use crate::mp3::laws::comm_list;
use crate::mp3::laws::empty_tag_holds_nothing;
use crate::mp3::laws::file_served;
use crate::mp3::laws::group_list;
use crate::mp3::laws::groups_list;
use crate::mp3::laws::list_bytes;
use crate::mp3::laws::promoted_list;
use crate::mp3::laws::tag_list;
use crate::mp3::laws::txxx_list;
use crate::mp3::laws::whole_tag;
use crate::mp3::laws::whole_tag_stands;
use crate::mp3::read::all_plain;
use crate::mp3::read::alloc_safe;
use crate::mp3::read::frame_pairs;
use crate::mp3::read::frames_pairs;
use crate::mp3::read::frames_pictures;
use crate::mp3::read::id_text;
use crate::mp3::read::keyed_values;
use crate::mp3::read::marks_differ;
use crate::mp3::read::nul_values;
use crate::mp3::read::plain_frame;
use crate::mp3::read::plain_models;
use crate::mp3::read::plain_tag;
use crate::mp3::read::tag_pairs;
use crate::mp3::read::tag_pictures;
use crate::mp3::read::text_key;
use crate::mp3::read::txxx_key;
use crate::mp3::read::undecoded_id;
use crate::mp3::read::FrameModel;
use crate::mp3::read::ID_TIPL;
use crate::mp3::read::ID_TMCL;
use crate::mp3::read_laws::tag_list_is_sound;
use crate::mp3::read_laws::written_as_read;
use crate::serving::served_bytes;
use crate::serving::sources_hold;
use crate::serving::Sources;
use crate::tagmap::entry_of;
use crate::tagmap::id3_slot_of;
use crate::tagmap::key_is;
use crate::tagmap::vocab;
use crate::tagmap::Id3Model;
use crate::tagmap_laws::found_entry;
use crate::tagmap_laws::id3_frame_leads_back;
use crate::tagmap_laws::id3_slot_shape;
use crate::tagmap_laws::id3_txxx_leads_back;
use crate::text::ascii_bytes;
use crate::text::lower;
use crate::text::utf8;
use crate::text::utf8_concat;
use crate::text::utf8_injective;
use crate::text::utf8_without_nul;
use vstd::prelude::*;
use vstd::utf8::*;

verus! {

/// Values that a text frame keeps apart: none is empty and none holds a NUL.
pub open spec fn separable(values: Seq<Seq<char>>) -> bool {
    forall|i: int|
        0 <= i < values.len() ==> (#[trigger] values[i]).len() > 0 && !values[i].contains('\0')
}

/// Values joined with a NUL between them.
spec fn glued(values: Seq<Seq<char>>) -> Seq<char>
    decreases values.len(),
{
    if values.len() == 0 {
        Seq::empty()
    } else if values.len() == 1 {
        values[0]
    } else {
        glued(values.drop_last()).push('\0') + values.last()
    }
}

proof fn joined_is_glued(values: Seq<Seq<char>>)
    ensures
        joined(values) == utf8(glued(values)),
    decreases values.len(),
{
    if values.len() > 1 {
        joined_is_glued(values.drop_last());
        let g = glued(values.drop_last());
        let nul = seq!['\0'];
        ascii_bytes(nul);
        utf8_concat(g, nul);
        assert(g.push('\0') =~= g + nul);
        utf8_concat(g + nul, values.last());
        assert(joined(values.drop_last()).push(0u8) =~= utf8(g) + utf8(nul));
    } else if values.len() == 0 {
        assert(utf8(Seq::<char>::empty()) =~= Seq::empty());
    }
}

/// A NUL parts what stands before it from what follows.
proof fn values_part_at_nul(a: Seq<u8>, b: Seq<u8>)
    ensures
        nul_values(a.push(0) + b) == nul_values(a) + nul_values(b),
    decreases a.len(),
{
    let all = a.push(0u8) + b;
    let n = find_byte(a, 0, 0);
    find_byte_finds(a, 0, 0);
    assert forall|k: int| 0 <= k < n implies all[k] != 0 by {
        assert(all[k] == a[k]);
    }
    if n < a.len() {
        assert(all[n] == a[n]);
    } else {
        assert(all[n] == 0);
    }
    find_byte_is(all, 0, 0, n);
    assert(all.subrange(0, n) =~= a.subrange(0, n));
    let head = if n > 0 {
        seq![decode_utf8(a.subrange(0, n))]
    } else {
        Seq::empty()
    };
    let rest = all.subrange(n + 1, all.len() as int);
    if n < a.len() {
        let after = a.subrange(n + 1, a.len() as int);
        assert(rest =~= after.push(0u8) + b);
        values_part_at_nul(after, b);
        assert(head + (nul_values(after) + nul_values(b)) =~= head + nul_values(after) + nul_values(
            b,
        ));
    } else {
        assert(rest =~= b);
    }
}

/// One value without a NUL is itself.
proof fn value_alone(v: Seq<char>)
    requires
        v.len() > 0,
        !v.contains('\0'),
    ensures
        nul_values(utf8(v)) == seq![v],
        utf8(v).len() > 0,
        utf8(v).last() != 0,
{
    let b = utf8(v);
    utf8_without_nul(v);
    if b.len() == 0 {
        assert(utf8(Seq::<char>::empty()) =~= b);
        utf8_injective(v, Seq::empty());
    }
    find_byte_finds(b, 0, 0);
    assert(b.subrange(0, b.len() as int) =~= b);
    encode_utf8_decode_utf8(v);
}

/// Joined values come apart again.
proof fn joined_come_apart(values: Seq<Seq<char>>)
    requires
        separable(values),
        values.len() > 0,
    ensures
        nul_values(joined(values)) == values,
        joined(values).len() > 0,
        joined(values).last() != 0,
    decreases values.len(),
{
    let v = values.last();
    assert(v == values[values.len() - 1]);
    value_alone(v);
    if values.len() > 1 {
        let f = values.drop_last();
        assert forall|i: int| 0 <= i < f.len() implies (#[trigger] f[i]).len() > 0
            && !f[i].contains('\0') by {
            assert(f[i] == values[i]);
        }
        joined_come_apart(f);
        values_part_at_nul(joined(f), utf8(v));
        assert(f + seq![v] =~= values);
    } else {
        assert(seq![v] =~= values);
    }
}

/// A text frame's body reads back.
proof fn text_reads(id: Seq<u8>, values: Seq<Seq<char>>)
    requires
        text_frame_id(id),
        id != ID_TIPL@,
        id != ID_TMCL@,
        separable(values),
        values.len() > 0,
    ensures
        plain_frame(id, text_data(values)) == Some(
            FrameModel::Text { id: id_text(id), text: glued(values) },
        ),
        frame_pairs(plain_frame(id, text_data(values))->0) == keyed_values(
            text_key(id_text(id)),
            values,
        ),
{
    let b = text_data(values);
    joined_is_glued(values);
    joined_come_apart(values);
    encode_utf8_valid_utf8(glued(values));
    encode_utf8_decode_utf8(glued(values));
    assert(b.skip(1) =~= joined(values));
    assert(b[0] == ENC_UTF8);
    assert(b[b.len() - 1] == joined(values).last());
    ids_apart(id);
}

/// No text frame id is that of another frame.
proof fn ids_apart(id: Seq<u8>)
    requires
        id.len() == 4,
        id[0] == 0x54,
    ensures
        !undecoded_id(id),
        id != ID_POPM@,
        id != ID_UFID@,
        id != ID_COMM@,
        id != ID_USLT@,
        id != ID_APIC@,
        id != crate::mp3::read::ID_PRIV@,
        id != crate::mp3::read::ID_GEOB@,
        id != crate::mp3::read::ID_WXXX@,
{
    assert(ID_POPM@[0] == 0x50 && ID_UFID@[0] == 0x55 && ID_COMM@[0] == 0x43 && ID_USLT@[0] == 0x55
        && ID_APIC@[0] == 0x41);
    assert(crate::mp3::read::ID_PRIV@[0] == 0x50 && crate::mp3::read::ID_GEOB@[0] == 0x47
        && crate::mp3::read::ID_WXXX@[0] == 0x57);
}

/// A `TXXX` frame's body reads back.
proof fn txxx_reads(desc: Seq<char>, value: Seq<char>)
    requires
        !desc.contains('\0'),
    ensures
        plain_frame(ID_TXXX@, txxx_data(desc, value)) == Some(
            FrameModel::ExtendedText { description: desc, value },
        ),
{
    let b = txxx_data(desc, value);
    let d = utf8(desc);
    let at = 1 + d.len() as int;
    assert(ID_TXXX@.len() == 4 && ID_TXXX@[0] == 0x54);
    ids_apart(ID_TXXX@);
    utf8_without_nul(desc);
    assert forall|k: int| 1 <= k < at implies b[k] != 0 by {
        assert(b[k] == d[k - 1]);
    }
    assert(b[at] == 0 && b[0] == ENC_UTF8);
    find_byte_is(b, 0, 1, at);
    assert(b.subrange(1, at) =~= d);
    assert(b.subrange(at + 1, b.len() as int) =~= utf8(value));
    encode_utf8_valid_utf8(desc);
    encode_utf8_decode_utf8(desc);
    encode_utf8_valid_utf8(value);
    encode_utf8_decode_utf8(value);
}

/// A `COMM` or `USLT` frame's body reads back.
proof fn comm_reads(value: Seq<char>)
    ensures
        plain_frame(ID_COMM@, comm_data(value)) == Some(FrameModel::Comment { text: value }),
        plain_frame(ID_USLT@, comm_data(value)) == Some(FrameModel::Lyrics { text: value }),
{
    let b = comm_data(value);
    assert(ID_COMM@[0] == 0x43 && ID_USLT@[0] == 0x55 && ID_USLT@[1] == 0x53 && ID_TXXX@[0] == 0x54
        && ID_POPM@[0] == 0x50 && ID_UFID@[1] == 0x46);
    assert(crate::mp3::read::ID_PRIV@[0] == 0x50 && crate::mp3::read::ID_GEOB@[0] == 0x47
        && crate::mp3::read::ID_WXXX@[0] == 0x57);
    assert(b[0] == ENC_UTF8 && b[4] == 0);
    find_byte_is(b, 0, 4, 4);
    assert(b.subrange(4, 4) =~= Seq::empty());
    assert(valid_utf8(b.subrange(4, 4)));
    assert(b.subrange(5, b.len() as int) =~= utf8(value));
    encode_utf8_valid_utf8(value);
    encode_utf8_decode_utf8(value);
}

/// A written picture frame reads back: a MIME type in ASCII, and neither it nor the
/// description with a NUL.
pub open spec fn art_readable(art: ArtInput) -> bool {
    is_ascii_chars(art.mime@) && !art.mime@.contains('\0') && !art.description@.contains('\0')
}

/// A picture as it comes back: the type in one byte, and no dimensions.
pub open spec fn picture_back(art: ArtInput, src: Sources) -> PictureModel {
    PictureModel {
        mime: art.mime@,
        picture_type: clamped_type(byte_of(art.picture_type as int, 0) as int),
        description: art.description@,
        width: 0,
        height: 0,
        data: (src.art)(art.art_id),
    }
}

proof fn apic_reads(art: ArtInput, image: Seq<u8>)
    requires
        art_readable(art),
    ensures
        plain_frame(ID_APIC@, apic_head(art) + image) == Some(
            FrameModel::Picture {
                mime: art.mime@,
                picture_type: byte_of(art.picture_type as int, 0),
                description: art.description@,
                data: image,
            },
        ),
{
    let b = apic_head(art) + image;
    let m = utf8(art.mime@);
    let d = utf8(art.description@);
    let ma = 1 + m.len() as int;
    let da = ma + 2 + d.len() as int;
    assert(ID_APIC@[0] == 0x41 && ID_COMM@[0] == 0x43 && ID_USLT@[0] == 0x55 && ID_TXXX@[0] == 0x54
        && ID_POPM@[0] == 0x50 && ID_UFID@[0] == 0x55);
    assert(crate::mp3::read::ID_PRIV@[0] == 0x50 && crate::mp3::read::ID_GEOB@[0] == 0x47
        && crate::mp3::read::ID_WXXX@[0] == 0x57);
    utf8_without_nul(art.mime@);
    utf8_without_nul(art.description@);
    assert(b[0] == ENC_UTF8);
    assert forall|k: int| 1 <= k < ma implies b[k] != 0 by {
        assert(b[k] == m[k - 1]);
    }
    assert(b[ma] == 0);
    find_byte_is(b, 0, 1, ma);
    assert forall|k: int| ma + 2 <= k < da implies b[k] != 0 by {
        assert(b[k] == d[k - ma - 2]);
    }
    assert(b[da] == 0);
    find_byte_is(b, 0, ma + 2, da);
    assert(b.subrange(1, ma) =~= m);
    assert(b.subrange(ma + 2, da) =~= d);
    assert(b.subrange(da + 1, b.len() as int) =~= image);
    assert(b[ma + 1] == byte_of(art.picture_type as int, 0));
    ascii_bytes(art.mime@);
    assert forall|i: int| 0 <= i < m.len() implies #[trigger] m[i] < 0x80 by {
        assert((art.mime@[i] as u32) < 0x80);
    }
    assert(id_text(m) =~= art.mime@);
    encode_utf8_valid_utf8(art.description@);
    encode_utf8_decode_utf8(art.description@);
}

/// The values of a group fit the frames that they are written to: a text frame keeps its
/// values apart, and a description ends at its NUL.
pub open spec fn group_readable(key: Seq<char>, values: Seq<Seq<char>>) -> bool {
    match id3_slot_of(key) {
        Some(Id3Model::Text(_)) => separable(values),
        Some(_) => true,
        None => if text_frame_id(utf8(key)) {
            separable(values) && utf8(key) != ID_TIPL@ && utf8(key) != ID_TMCL@
        } else {
            !key.contains('\0')
        },
    }
}

/// The key that the values of a group come back under: the vocabulary's, where it knows the
/// key or the frame it is written to, else the key itself.
pub open spec fn id3_key_back(key: Seq<char>) -> Seq<char> {
    match entry_of(key) {
        Some(i) => vocab(i).key,
        None => if text_frame_id(utf8(key)) {
            text_key(key)
        } else {
            txxx_key(key)
        },
    }
}

/// The pairs that come back of groups.
pub open spec fn pairs_back(groups: Seq<(Seq<char>, Seq<Seq<char>>)>) -> Seq<
    (Seq<char>, Seq<char>),
>
    decreases groups.len(),
{
    if groups.len() == 0 {
        Seq::empty()
    } else {
        pairs_back(groups.drop_last()) + keyed_values(
            id3_key_back(groups.last().0),
            groups.last().1,
        )
    }
}

/// The pictures that come back: those that are not empty.
pub open spec fn pictures_back(arts: Seq<ArtInput>, src: Sources) -> Seq<PictureModel>
    decreases arts.len(),
{
    if arts.len() == 0 {
        Seq::empty()
    } else {
        let before = pictures_back(arts.drop_last(), src);
        if arts.last().data_len > 0 {
            before.push(picture_back(arts.last(), src))
        } else {
            before
        }
    }
}

/// A list of frames reads as these pairs and pictures.
spec fn reads_as(
    s: Seq<(Seq<u8>, Seq<u8>)>,
    pairs: Seq<(Seq<char>, Seq<char>)>,
    pictures: Seq<PictureModel>,
) -> bool {
    &&& all_plain(s)
    &&& frames_pairs(plain_models(s)) == pairs
    &&& frames_pictures(plain_models(s)) == pictures
}

/// One more frame that yields pairs.
proof fn reads_one_more(
    s: Seq<(Seq<u8>, Seq<u8>)>,
    pairs: Seq<(Seq<char>, Seq<char>)>,
    pictures: Seq<PictureModel>,
    f: (Seq<u8>, Seq<u8>),
)
    requires
        reads_as(s, pairs, pictures),
        plain_frame(f.0, f.1) is Some,
    ensures
        !(plain_frame(f.0, f.1)->0 is Picture) ==> reads_as(
            s.push(f),
            pairs + frame_pairs(plain_frame(f.0, f.1)->0),
            pictures,
        ),
        match plain_frame(f.0, f.1)->0 {
            FrameModel::Picture { mime, picture_type, description, data } => reads_as(
                s.push(f),
                pairs,
                pictures.push(
                    PictureModel {
                        mime,
                        picture_type: clamped_type(picture_type as int),
                        description,
                        width: 0,
                        height: 0,
                        data,
                    },
                ),
            ),
            _ => true,
        },
{
    let all = s.push(f);
    let m = plain_models(all);
    assert forall|i: int| 0 <= i < all.len() implies plain_frame((#[trigger] all[i]).0, all[i].1)
        is Some by {
        if i < s.len() {
            assert(all[i] == s[i]);
        }
    }
    assert(m.drop_last() =~= plain_models(s));
    assert(m.last() == plain_frame(f.0, f.1)->0);
    assert(pairs + Seq::<(Seq<char>, Seq<char>)>::empty() =~= pairs);
}

/// Lists one after the other.
proof fn reads_joined(
    a: Seq<(Seq<u8>, Seq<u8>)>,
    ap: Seq<(Seq<char>, Seq<char>)>,
    ai: Seq<PictureModel>,
    b: Seq<(Seq<u8>, Seq<u8>)>,
    bp: Seq<(Seq<char>, Seq<char>)>,
    bi: Seq<PictureModel>,
)
    requires
        reads_as(a, ap, ai),
        reads_as(b, bp, bi),
    ensures
        reads_as(a + b, ap + bp, ai + bi),
    decreases b.len(),
{
    if b.len() == 0 {
        assert(a + b =~= a);
        assert(ap + bp =~= ap);
        assert(ai + bi =~= ai);
    } else {
        let f = b.drop_last();
        let l = b.last();
        let m = plain_models(b);
        assert(m.drop_last() =~= plain_models(f));
        assert(m.last() == plain_frame(l.0, l.1)->0);
        assert(b[b.len() - 1] == l);
        assert(plain_frame(l.0, l.1) is Some);
        assert forall|i: int| 0 <= i < f.len() implies plain_frame((#[trigger] f[i]).0, f[i].1)
            is Some by {
            assert(f[i] == b[i]);
        }
        let fp = frames_pairs(plain_models(f));
        let fi = frames_pictures(plain_models(f));
        reads_joined(a, ap, ai, f, fp, fi);
        reads_one_more(a + f, ap + fp, ai + fi, l);
        assert((a + f).push(l) =~= a + b);
        let lp = frame_pairs(plain_frame(l.0, l.1)->0);
        assert(ap + fp + lp =~= ap + (fp + lp));
        if plain_frame(l.0, l.1)->0 is Picture {
            assert(ap + fp =~= ap + bp) by {
                assert(lp =~= Seq::empty());
                assert(fp + lp =~= fp);
            }
            assert((ai + fi).push(bi.last()) =~= ai + bi);
        }
    }
}

proof fn nothing_reads()
    ensures
        reads_as(Seq::empty(), Seq::empty(), Seq::empty()),
{
    let s = Seq::<(Seq<u8>, Seq<u8>)>::empty();
    assert(plain_models(s) =~= Seq::empty());
}

/// One frame alone.
proof fn one_reads(f: (Seq<u8>, Seq<u8>))
    requires
        plain_frame(f.0, f.1) is Some,
        !(plain_frame(f.0, f.1)->0 is Picture),
    ensures
        reads_as(seq![f], frame_pairs(plain_frame(f.0, f.1)->0), Seq::empty()),
{
    nothing_reads();
    reads_one_more(Seq::empty(), Seq::empty(), Seq::empty(), f);
    assert(Seq::<(Seq<u8>, Seq<u8>)>::empty().push(f) =~= seq![f]);
    let p = frame_pairs(plain_frame(f.0, f.1)->0);
    assert(Seq::<(Seq<char>, Seq<char>)>::empty() + p =~= p);
}

proof fn txxx_list_reads(desc: Seq<char>, values: Seq<Seq<char>>)
    requires
        !desc.contains('\0'),
    ensures
        reads_as(txxx_list(desc, values), keyed_values(txxx_key(desc), values), Seq::empty()),
    decreases values.len(),
{
    let key = txxx_key(desc);
    if values.len() > 0 {
        let f = values.drop_last();
        let v = values.last();
        txxx_list_reads(desc, f);
        txxx_reads(desc, v);
        let frame = (ID_TXXX@, txxx_data(desc, v));
        reads_one_more(txxx_list(desc, f), keyed_values(key, f), Seq::empty(), frame);
        assert(txxx_list(desc, f).push(frame) =~= txxx_list(desc, values));
        assert(keyed_values(key, f) + seq![(key, v)] =~= keyed_values(key, values));
    } else {
        nothing_reads();
        assert(txxx_list(desc, values) =~= Seq::empty());
        assert(keyed_values(key, values) =~= Seq::empty());
    }
}

proof fn comm_list_reads(id: Seq<u8>, key: Seq<char>, values: Seq<Seq<char>>)
    requires
        (id == ID_COMM@ && key == "comment"@) || (id == ID_USLT@ && key == "lyrics"@),
    ensures
        reads_as(comm_list(id, values), keyed_values(key, values), Seq::empty()),
    decreases values.len(),
{
    if values.len() > 0 {
        let f = values.drop_last();
        let v = values.last();
        comm_list_reads(id, key, f);
        comm_reads(v);
        let frame = (id, comm_data(v));
        reads_one_more(comm_list(id, f), keyed_values(key, f), Seq::empty(), frame);
        assert(comm_list(id, f).push(frame) =~= comm_list(id, values));
        assert(keyed_values(key, f) + seq![(key, v)] =~= keyed_values(key, values));
    } else {
        nothing_reads();
        assert(comm_list(id, values) =~= Seq::empty());
        assert(keyed_values(key, values) =~= Seq::empty());
    }
}

/// The id of a text frame is its own text.
proof fn id_text_bytes(id: Seq<u8>)
    requires
        text_frame_id(id),
    ensures
        utf8(id_text(id)) == id,
{
    let t = id_text(id);
    assert forall|i: int| 0 <= i < t.len() implies (#[trigger] t[i] as u32) < 0x80 by {
        assert(crate::mp3::frames::is_id_byte(id[i]));
    }
    ascii_bytes(t);
    assert(utf8(t) =~= id);
}

/// The frames of one group read back.
proof fn group_reads(key: Seq<char>, values: Seq<Seq<char>>)
    requires
        group_readable(key, values),
        values.len() > 0,
    ensures
        reads_as(
            group_list(key, values),
            keyed_values(id3_key_back(key), values),
            Seq::empty(),
        ),
{
    match entry_of(key) {
        Some(i) => {
            found_entry(key_is(lower(key)), 0);
            id3_slot_shape(i);
            match vocab(i).id3 {
                Id3Model::Text(id) => {
                    id3_frame_leads_back(i);
                    id_text_bytes(id);
                    text_reads(id, values);
                    one_reads((id, text_data(values)));
                },
                Id3Model::Txxx(desc) => {
                    id3_txxx_leads_back(i);
                    txxx_list_reads(desc, values);
                },
                Id3Model::Comment => {
                    comm_list_reads(ID_COMM@, vocab(i).key, values);
                },
                Id3Model::Lyrics => {
                    comm_list_reads(ID_USLT@, vocab(i).key, values);
                },
            }
        },
        None => {
            let id = utf8(key);
            if text_frame_id(id) {
                id_text_bytes(id);
                utf8_injective(id_text(id), key);
                text_reads(id, values);
                one_reads((id, text_data(values)));
            } else {
                txxx_list_reads(key, values);
            }
        },
    }
}

/// Every group has a value.
proof fn groups_have_values(tags: Seq<TagInput>, promoted: bool)
    ensures
        forall|i: int|
            0 <= i < groups_of(tags, promoted).len() ==> (#[trigger] groups_of(
                tags,
                promoted,
            )[i]).1.len() > 0,
    decreases tags.len(),
{
    if tags.len() > 0 {
        groups_have_values(tags.drop_last(), promoted);
        let before = groups_of(tags.drop_last(), promoted);
        let now = groups_of(tags, promoted);
        assert forall|i: int| 0 <= i < now.len() implies (#[trigger] now[i]).1.len() > 0 by {
            if i < before.len() {
                assert(before[i].1.len() > 0);
            }
        }
    }
}

proof fn groups_read(groups: Seq<(Seq<char>, Seq<Seq<char>>)>)
    requires
        forall|i: int|
            0 <= i < groups.len() ==> (#[trigger] groups[i]).1.len() > 0 && group_readable(
                groups[i].0,
                groups[i].1,
            ),
    ensures
        reads_as(groups_list(groups), pairs_back(groups), Seq::empty()),
    decreases groups.len(),
{
    if groups.len() > 0 {
        let f = groups.drop_last();
        let g = groups.last();
        assert(g == groups[groups.len() - 1]);
        assert forall|i: int| 0 <= i < f.len() implies (#[trigger] f[i]).1.len() > 0
            && group_readable(f[i].0, f[i].1) by {
            assert(f[i] == groups[i]);
        }
        groups_read(f);
        group_reads(g.0, g.1);
        let none = Seq::<PictureModel>::empty();
        reads_joined(
            groups_list(f),
            pairs_back(f),
            none,
            group_list(g.0, g.1),
            keyed_values(id3_key_back(g.0), g.1),
            none,
        );
        assert(none + none =~= none);
    } else {
        nothing_reads();
    }
}

proof fn promoted_read(tags: Seq<TagInput>)
    ensures
        reads_as(promoted_list(tags), Seq::empty(), Seq::empty()),
{
    let np = Seq::<(Seq<char>, Seq<char>)>::empty();
    let ni = Seq::<PictureModel>::empty();
    nothing_reads();
    let popm = match rating_of(tags) {
        Some(r) => {
            let b = popm_data(r as u8, playcount_of(tags));
            assert(b[0] == 0);
            find_byte_is(b, 0, 0, 0);
            one_reads((ID_POPM@, b));
            seq![(ID_POPM@, b)]
        },
        None => Seq::empty(),
    };
    let ufid = match mbid_of(tags) {
        Some(m) => {
            let b = ufid_data(MUSICBRAINZ_UFID_OWNER@, utf8(m));
            let o = utf8(MUSICBRAINZ_UFID_OWNER@);
            assert(b[o.len() as int] == 0);
            find_byte_finds(b, 0, 0);
            assert(find_byte(b, 0, 0) < b.len());
            assert(ID_UFID@[0] == 0x55 && ID_POPM@[0] == 0x50);
            one_reads((ID_UFID@, b));
            seq![(ID_UFID@, b)]
        },
        None => Seq::empty(),
    };
    assert(promoted_list(tags) == popm + ufid);
    reads_joined(popm, np, ni, ufid, np, ni);
    assert(np + np =~= np);
    assert(ni + ni =~= ni);
}

proof fn binaries_read(tags: Seq<BinaryTagInput>, src: Sources)
    requires
        forall|i: int|
            0 <= i < tags.len() ==> written_as_read(#[trigger] tags[i], src) && (id3_binary_written(
                tags[i],
            ) ==> plain_frame(utf8(tags[i].key@), (src.payloads)(tags[i].payload_id)) is Some),
    ensures
        reads_as(binary_list(tags, src), Seq::empty(), Seq::empty()),
    decreases tags.len(),
{
    if tags.len() > 0 {
        let f = tags.drop_last();
        let bt = tags.last();
        assert(bt == tags[tags.len() - 1]);
        assert forall|i: int| 0 <= i < f.len() implies written_as_read(#[trigger] f[i], src) && (
        id3_binary_written(f[i]) ==> plain_frame(
            utf8(f[i].key@),
            (src.payloads)(f[i].payload_id),
        ) is Some) by {
            assert(f[i] == tags[i]);
        }
        binaries_read(f, src);
        if id3_binary_written(bt) {
            let id = utf8(bt.key@);
            let p = (src.payloads)(bt.payload_id);
            assert(ID_TXXX@[0] == 0x54);
            assert(plain_frame(id, p) == Some(FrameModel::Other));
            reads_one_more(binary_list(f, src), Seq::empty(), Seq::empty(), (id, p));
            let np = Seq::<(Seq<char>, Seq<char>)>::empty();
            assert(np + np =~= np);
        }
    } else {
        nothing_reads();
    }
}

proof fn pictures_read(arts: Seq<ArtInput>, src: Sources)
    requires
        forall|i: int|
            0 <= i < arts.len() && arts[i].data_len > 0 ==> art_readable(#[trigger] arts[i]),
    ensures
        reads_as(apic_list(arts, src), Seq::empty(), pictures_back(arts, src)),
    decreases arts.len(),
{
    if arts.len() > 0 {
        let f = arts.drop_last();
        let art = arts.last();
        assert(art == arts[arts.len() - 1]);
        assert forall|i: int| 0 <= i < f.len() && f[i].data_len > 0 implies art_readable(
            #[trigger] f[i],
        ) by {
            assert(f[i] == arts[i]);
        }
        pictures_read(f, src);
        if art.data_len > 0 {
            let image = (src.art)(art.art_id);
            apic_reads(art, image);
            reads_one_more(
                apic_list(f, src),
                Seq::empty(),
                pictures_back(f, src),
                (ID_APIC@, apic_head(art) + image),
            );
        }
    } else {
        nothing_reads();
    }
}

/// A synthesized MP3 file reads back: its text tags under the vocabulary's keys, value for
/// value, and its pictures. What a tag cannot keep is left out: frames that are alike (of
/// which the last alone is read), empty or NUL-separated values in a text frame, and binary
/// frames that are not whole.
pub proof fn text_and_pictures_read_back(
    audio_offset: int,
    audio_length: int,
    tags: Seq<TagInput>,
    binary_tags: Seq<BinaryTagInput>,
    arts: Seq<ArtInput>,
    src: Sources,
)
    requires
        frames_len(tags, binary_tags, arts) <= MAX_SYNCHSAFE,
        sources_hold(src, binary_tags, arts),
        0 <= audio_offset,
        0 <= audio_length,
        audio_offset + audio_length <= src.backing.len(),
        forall|i: int|
            0 <= i < groups_of(tags, true).len() ==> group_readable(
                (#[trigger] groups_of(tags, true)[i]).0,
                groups_of(tags, true)[i].1,
            ),
        forall|i: int|
            0 <= i < binary_tags.len() ==> written_as_read(#[trigger] binary_tags[i], src) && (
            id3_binary_written(binary_tags[i]) ==> plain_frame(
                utf8(binary_tags[i].key@),
                (src.payloads)(binary_tags[i].payload_id),
            ) is Some),
        forall|i: int|
            0 <= i < arts.len() && arts[i].data_len > 0 ==> art_readable(#[trigger] arts[i]),
        marks_differ(tag_list(tags, binary_tags, arts, src)),
    ensures
        ({
            let file = served_bytes(
                src,
                mp3_segments(audio_offset, audio_length, tags, binary_tags, arts),
            );
            &&& tag_pairs(file) == pairs_back(groups_of(tags, true))
            &&& tag_pictures(file) == pictures_back(arts, src)
        }),
{
    let audio = src.backing.subrange(audio_offset, audio_offset + audio_length);
    file_served(audio_offset, audio_length, tags, binary_tags, arts, src);
    tag_list_is_sound(tags, binary_tags, arts, src);
    let all = tag_list(tags, binary_tags, arts, src);
    if all.len() > 0 || audio.len() == 0 {
        whole_tag_stands(all, audio);
    } else {
        assert(list_bytes(all).len() == 0);
        assert(all =~= Seq::empty());
        empty_tag_holds_nothing(audio);
    }
    let groups = groups_of(tags, true);
    groups_have_values(tags, true);
    groups_read(groups);
    promoted_read(tags);
    binaries_read(binary_tags, src);
    pictures_read(arts, src);
    let np = Seq::<(Seq<char>, Seq<char>)>::empty();
    let ni = Seq::<PictureModel>::empty();
    let g = groups_list(groups);
    let p = promoted_list(tags);
    let b = binary_list(binary_tags, src);
    let a = apic_list(arts, src);
    let gp = pairs_back(groups);
    let pi = pictures_back(arts, src);
    reads_joined(g, gp, ni, p, np, ni);
    assert(gp + np =~= gp && ni + ni =~= ni && ni + pi =~= pi);
    reads_joined(g + p, gp, ni, b, np, ni);
    reads_joined(g + p + b, gp, ni, a, np, pi);
    let file = whole_tag(all) + audio;
    if alloc_safe(file) {
        assert(plain_tag(file));
    } else {
        assert(all.len() == 0);
    }
}

} // verus!
