//! What holds of the vocabulary as a whole.

use crate::tagmap::entry_of;
use crate::tagmap::first;
use crate::tagmap::first_from;
use crate::tagmap::id3_text_is;
use crate::tagmap::id3_txxx_is;
use crate::tagmap::key_is;
use crate::tagmap::mp4_freeform_is;
use crate::tagmap::mp4_text_is;
use crate::tagmap::vocab;
use crate::tagmap::vorbis_is;
use crate::tagmap::EntryModel;
use crate::tagmap::Id3Model;
use crate::tagmap::Mp4Model;
use crate::tagmap::VOCAB_LEN;
use crate::text::lower;
use vstd::prelude::*;

verus! {

/// The vocabulary holds no canonical key twice.
pub proof fn no_duplicate_keys(i: int, j: int)
    requires
        0 <= i < VOCAB_LEN,
        0 <= j < VOCAB_LEN,
        vocab(i).key == vocab(j).key,
    ensures
        i == j,
{
    reveal_strlit("title");
    reveal_strlit("artist");
    reveal_strlit("album");
    reveal_strlit("albumartist");
    reveal_strlit("genre");
    reveal_strlit("date");
    reveal_strlit("composer");
    reveal_strlit("grouping");
    reveal_strlit("tracknumber");
    reveal_strlit("discnumber");
    reveal_strlit("comment");
    reveal_strlit("lyrics");
    reveal_strlit("copyright");
    reveal_strlit("isrc");
    reveal_strlit("lyricist");
    reveal_strlit("conductor");
    reveal_strlit("replaygain_track_gain");
    reveal_strlit("replaygain_album_gain");
    reveal_strlit("replaygain_track_peak");
    reveal_strlit("replaygain_album_peak");
    reveal_strlit("musicbrainz_albumid");
    reveal_strlit("musicbrainz_artistid");
    let a = vocab(i).key;
    let b = vocab(j).key;
    assert(a.len() == b.len());
    assert(a[2] == b[2]);
    assert(a[11] == b[11]);
    assert(a[17] == b[17]);
}

/// Making small an already small canonical key changes nothing.
pub proof fn keys_are_lowercase(i: int)
    requires
        0 <= i < VOCAB_LEN,
    ensures
        lower(vocab(i).key) == vocab(i).key,
{
    reveal_strlit("title");
    reveal_strlit("artist");
    reveal_strlit("album");
    reveal_strlit("albumartist");
    reveal_strlit("genre");
    reveal_strlit("date");
    reveal_strlit("composer");
    reveal_strlit("grouping");
    reveal_strlit("tracknumber");
    reveal_strlit("discnumber");
    reveal_strlit("comment");
    reveal_strlit("lyrics");
    reveal_strlit("copyright");
    reveal_strlit("isrc");
    reveal_strlit("lyricist");
    reveal_strlit("conductor");
    reveal_strlit("replaygain_track_gain");
    reveal_strlit("replaygain_album_gain");
    reveal_strlit("replaygain_track_peak");
    reveal_strlit("replaygain_album_peak");
    reveal_strlit("musicbrainz_albumid");
    reveal_strlit("musicbrainz_artistid");
    assert(lower("title"@) =~= "title"@);
    assert(lower("artist"@) =~= "artist"@);
    assert(lower("album"@) =~= "album"@);
    assert(lower("albumartist"@) =~= "albumartist"@);
    assert(lower("genre"@) =~= "genre"@);
    assert(lower("date"@) =~= "date"@);
    assert(lower("composer"@) =~= "composer"@);
    assert(lower("grouping"@) =~= "grouping"@);
    assert(lower("tracknumber"@) =~= "tracknumber"@);
    assert(lower("discnumber"@) =~= "discnumber"@);
    assert(lower("comment"@) =~= "comment"@);
    assert(lower("lyrics"@) =~= "lyrics"@);
    assert(lower("copyright"@) =~= "copyright"@);
    assert(lower("isrc"@) =~= "isrc"@);
    assert(lower("lyricist"@) =~= "lyricist"@);
    assert(lower("conductor"@) =~= "conductor"@);
    assert(lower("replaygain_track_gain"@) =~= "replaygain_track_gain"@);
    assert(lower("replaygain_album_gain"@) =~= "replaygain_album_gain"@);
    assert(lower("replaygain_track_peak"@) =~= "replaygain_track_peak"@);
    assert(lower("replaygain_album_peak"@) =~= "replaygain_album_peak"@);
    assert(lower("musicbrainz_albumid"@) =~= "musicbrainz_albumid"@);
    assert(lower("musicbrainz_artistid"@) =~= "musicbrainz_artistid"@);
}

/// A Vorbis field name is the canonical key in capital letters.
pub proof fn vorbis_field_is_key_in_capitals(i: int)
    requires
        0 <= i < VOCAB_LEN,
    ensures
        lower(vocab(i).vorbis) == vocab(i).key,
{
    reveal_strlit("title");
    reveal_strlit("artist");
    reveal_strlit("album");
    reveal_strlit("albumartist");
    reveal_strlit("genre");
    reveal_strlit("date");
    reveal_strlit("composer");
    reveal_strlit("grouping");
    reveal_strlit("tracknumber");
    reveal_strlit("discnumber");
    reveal_strlit("comment");
    reveal_strlit("lyrics");
    reveal_strlit("copyright");
    reveal_strlit("isrc");
    reveal_strlit("lyricist");
    reveal_strlit("conductor");
    reveal_strlit("replaygain_track_gain");
    reveal_strlit("replaygain_album_gain");
    reveal_strlit("replaygain_track_peak");
    reveal_strlit("replaygain_album_peak");
    reveal_strlit("musicbrainz_albumid");
    reveal_strlit("musicbrainz_artistid");
    reveal_strlit("TITLE");
    reveal_strlit("ARTIST");
    reveal_strlit("ALBUM");
    reveal_strlit("ALBUMARTIST");
    reveal_strlit("GENRE");
    reveal_strlit("DATE");
    reveal_strlit("COMPOSER");
    reveal_strlit("GROUPING");
    reveal_strlit("TRACKNUMBER");
    reveal_strlit("DISCNUMBER");
    reveal_strlit("COMMENT");
    reveal_strlit("LYRICS");
    reveal_strlit("COPYRIGHT");
    reveal_strlit("ISRC");
    reveal_strlit("LYRICIST");
    reveal_strlit("CONDUCTOR");
    reveal_strlit("REPLAYGAIN_TRACK_GAIN");
    reveal_strlit("REPLAYGAIN_ALBUM_GAIN");
    reveal_strlit("REPLAYGAIN_TRACK_PEAK");
    reveal_strlit("REPLAYGAIN_ALBUM_PEAK");
    reveal_strlit("MUSICBRAINZ_ALBUMID");
    reveal_strlit("MUSICBRAINZ_ARTISTID");
    assert(lower("TITLE"@) =~= "title"@);
    assert(lower("ARTIST"@) =~= "artist"@);
    assert(lower("ALBUM"@) =~= "album"@);
    assert(lower("ALBUMARTIST"@) =~= "albumartist"@);
    assert(lower("GENRE"@) =~= "genre"@);
    assert(lower("DATE"@) =~= "date"@);
    assert(lower("COMPOSER"@) =~= "composer"@);
    assert(lower("GROUPING"@) =~= "grouping"@);
    assert(lower("TRACKNUMBER"@) =~= "tracknumber"@);
    assert(lower("DISCNUMBER"@) =~= "discnumber"@);
    assert(lower("COMMENT"@) =~= "comment"@);
    assert(lower("LYRICS"@) =~= "lyrics"@);
    assert(lower("COPYRIGHT"@) =~= "copyright"@);
    assert(lower("ISRC"@) =~= "isrc"@);
    assert(lower("LYRICIST"@) =~= "lyricist"@);
    assert(lower("CONDUCTOR"@) =~= "conductor"@);
    assert(lower("REPLAYGAIN_TRACK_GAIN"@) =~= "replaygain_track_gain"@);
    assert(lower("REPLAYGAIN_ALBUM_GAIN"@) =~= "replaygain_album_gain"@);
    assert(lower("REPLAYGAIN_TRACK_PEAK"@) =~= "replaygain_track_peak"@);
    assert(lower("REPLAYGAIN_ALBUM_PEAK"@) =~= "replaygain_album_peak"@);
    assert(lower("MUSICBRAINZ_ALBUMID"@) =~= "musicbrainz_albumid"@);
    assert(lower("MUSICBRAINZ_ARTISTID"@) =~= "musicbrainz_artistid"@);
}

/// Where exactly one entry can be accepted, the search gives it.
proof fn first_is_only(p: spec_fn(EntryModel) -> bool, from: int, i: int)
    requires
        0 <= from <= i < VOCAB_LEN,
        p(vocab(i)),
        forall|j: int| 0 <= j < VOCAB_LEN && #[trigger] p(vocab(j)) ==> j == i,
    ensures
        first_from(p, from) == Some(i),
    decreases i - from,
{
    if from < i {
        first_is_only(p, from + 1, i);
    }
}

/// Looking up a canonical key finds its own entry.
pub proof fn key_finds_its_entry(i: int)
    requires
        0 <= i < VOCAB_LEN,
    ensures
        entry_of(vocab(i).key) == Some(i),
{
    keys_are_lowercase(i);
    let p = key_is(vocab(i).key);
    assert forall|j: int| 0 <= j < VOCAB_LEN && #[trigger] p(vocab(j)) implies j == i by {
        no_duplicate_keys(i, j);
    }
    first_is_only(p, 0, i);
}

/// A key's Vorbis field leads back to the key.
pub proof fn vorbis_field_leads_back(i: int)
    requires
        0 <= i < VOCAB_LEN,
    ensures
        first(vorbis_is(vocab(i).vorbis)) == Some(i),
{
    vorbis_field_is_key_in_capitals(i);
    let p = vorbis_is(vocab(i).vorbis);
    assert forall|j: int| 0 <= j < VOCAB_LEN && #[trigger] p(vocab(j)) implies j == i by {
        vorbis_field_is_key_in_capitals(j);
        no_duplicate_keys(i, j);
    }
    first_is_only(p, 0, i);
}

/// A field is known exactly when it is a canonical key in some case.
pub proof fn vorbis_field_known_by_key(field: Seq<char>)
    ensures
        first(vorbis_is(field)) == entry_of(field),
{
    known_by_key_from(field, 0);
}

proof fn known_by_key_from(field: Seq<char>, i: int)
    requires
        0 <= i <= VOCAB_LEN,
    ensures
        first_from(vorbis_is(field), i) == first_from(key_is(lower(field)), i),
    decreases VOCAB_LEN - i,
{
    if i < VOCAB_LEN {
        vorbis_field_is_key_in_capitals(i);
        known_by_key_from(field, i + 1);
    }
}

/// A key's ID3 text frame leads back to the key.
pub proof fn id3_frame_leads_back(i: int)
    requires
        0 <= i < VOCAB_LEN,
        vocab(i).id3 is Text,
    ensures
        first(id3_text_is(vocab(i).id3->Text_0)) == Some(i),
{
    let id = vocab(i).id3->Text_0;
    let p = id3_text_is(id);
    assert forall|j: int| 0 <= j < VOCAB_LEN && #[trigger] p(vocab(j)) implies j == i by {
        let b = vocab(j).id3->Text_0;
        assert(id[0] == b[0] && id[1] == b[1] && id[2] == b[2] && id[3] == b[3]);
    }
    first_is_only(p, 0, i);
}

/// A key's MP4 text atom leads back to the key.
pub proof fn mp4_atom_leads_back(i: int)
    requires
        0 <= i < VOCAB_LEN,
        vocab(i).mp4 is Text,
    ensures
        first(mp4_text_is(vocab(i).mp4->Text_0)) == Some(i),
{
    let id = vocab(i).mp4->Text_0;
    let p = mp4_text_is(id);
    assert forall|j: int| 0 <= j < VOCAB_LEN && #[trigger] p(vocab(j)) implies j == i by {
        let b = vocab(j).mp4->Text_0;
        assert(id[0] == b[0] && id[1] == b[1] && id[2] == b[2] && id[3] == b[3]);
    }
    first_is_only(p, 0, i);
}

/// A key's `TXXX` description leads back to the key.
pub proof fn id3_txxx_leads_back(i: int)
    requires
        0 <= i < VOCAB_LEN,
        vocab(i).id3 is Txxx,
    ensures
        first(id3_txxx_is(vocab(i).id3->Txxx_0)) == Some(i),
{
    reveal_strlit("REPLAYGAIN_TRACK_GAIN");
    reveal_strlit("REPLAYGAIN_ALBUM_GAIN");
    reveal_strlit("REPLAYGAIN_TRACK_PEAK");
    reveal_strlit("REPLAYGAIN_ALBUM_PEAK");
    reveal_strlit("MusicBrainz Album Id");
    reveal_strlit("MusicBrainz Artist Id");
    let a = vocab(i).id3->Txxx_0;
    let p = id3_txxx_is(vocab(i).id3->Txxx_0);
    assert forall|j: int| 0 <= j < VOCAB_LEN && #[trigger] p(vocab(j)) implies j == i by {
        let b = vocab(j).id3->Txxx_0;
        assert(lower(a).len() == lower(b).len());
        assert(lower(a)[11] == lower(b)[11]);
        assert(lower(a)[17] == lower(b)[17]);
    }
    first_is_only(p, 0, i);
}

/// A key's freeform atom leads back to the key.
pub proof fn mp4_freeform_leads_back(i: int)
    requires
        0 <= i < VOCAB_LEN,
        vocab(i).mp4 is Freeform,
    ensures
        first(mp4_freeform_is(vocab(i).mp4->Freeform_0, vocab(i).mp4->Freeform_1)) == Some(i),
{
    reveal_strlit("COPYRIGHT");
    reveal_strlit("ISRC");
    reveal_strlit("LYRICIST");
    reveal_strlit("CONDUCTOR");
    reveal_strlit("replaygain_track_gain");
    reveal_strlit("replaygain_album_gain");
    reveal_strlit("replaygain_track_peak");
    reveal_strlit("replaygain_album_peak");
    reveal_strlit("MusicBrainz Album Id");
    reveal_strlit("MusicBrainz Artist Id");
    let a = vocab(i).mp4->Freeform_1;
    let p = mp4_freeform_is(vocab(i).mp4->Freeform_0, vocab(i).mp4->Freeform_1);
    assert forall|j: int| 0 <= j < VOCAB_LEN && #[trigger] p(vocab(j)) implies j == i by {
        let b = vocab(j).mp4->Freeform_1;
        assert(lower(a).len() == lower(b).len());
        assert(lower(a)[2] == lower(b)[2]);
        assert(lower(a)[11] == lower(b)[11]);
        assert(lower(a)[17] == lower(b)[17]);
    }
    first_is_only(p, 0, i);
}

/// The MP4 slot of an entry: a text atom that begins with a copyright sign or an `a`, the
/// track or disc number, or a freeform atom.
pub proof fn mp4_slot_shape(i: int)
    requires
        0 <= i < VOCAB_LEN,
    ensures
        match vocab(i).mp4 {
            Mp4Model::Text(a) => a.len() == 4 && (a[0] == 0xa9 || a[0] == 0x61),
            Mp4Model::Number(a, w) => (a == seq![0x74u8, 0x72u8, 0x6bu8, 0x6eu8] && w == 8
                && vocab(i).key == "tracknumber"@) || (a == seq![0x64u8, 0x69u8, 0x73u8, 0x6bu8]
                && w == 6 && vocab(i).key == "discnumber"@),
            Mp4Model::Integer(..) => false,
            Mp4Model::Freeform(m, _) => m == "com.apple.iTunes"@,
        },
{
}

/// The ID3 text frame of an entry has a four-byte id that begins with `T`.
pub proof fn id3_slot_shape(i: int)
    requires
        0 <= i < VOCAB_LEN,
    ensures
        match vocab(i).id3 {
            Id3Model::Text(id) => crate::mp3::frames::text_frame_id(id) && id
                != crate::mp3::read::ID_TIPL@ && id != crate::mp3::read::ID_TMCL@,
            Id3Model::Txxx(desc) => !desc.contains('\0'),
            Id3Model::Comment => vocab(i).key == "comment"@,
            Id3Model::Lyrics => vocab(i).key == "lyrics"@,
        },
{
    reveal_strlit("REPLAYGAIN_TRACK_GAIN");
    reveal_strlit("REPLAYGAIN_ALBUM_GAIN");
    reveal_strlit("REPLAYGAIN_TRACK_PEAK");
    reveal_strlit("REPLAYGAIN_ALBUM_PEAK");
    reveal_strlit("MusicBrainz Album Id");
    reveal_strlit("MusicBrainz Artist Id");
    if let Id3Model::Text(id) = vocab(i).id3 {
        assert(id.len() == 4 && id[0] == 0x54);
        let x = crate::mp3::frames::ID_TXXX@;
        assert(x[1] == 0x58 && x[3] == 0x58);
        assert(id[1] != 0x58);
        let l = crate::mp3::read::ID_TIPL@;
        let c = crate::mp3::read::ID_TMCL@;
        assert(l[1] == 0x49 && l[2] == 0x50 && c[1] == 0x4d && c[2] == 0x43);
        assert(id[1] != 0x49 || id[2] != 0x50);
        assert(id[1] != 0x4d || id[2] != 0x43);
        assert forall|k: int| 0 <= k < 4 implies crate::mp3::frames::is_id_byte(
            #[trigger] id[k],
        ) by {
            assert(k == 0 || k == 1 || k == 2 || k == 3);
        }
    }
}

/// The field that carries a picture is no field of the vocabulary.
pub proof fn picture_field_unknown()
    ensures
        first(vorbis_is("METADATA_BLOCK_PICTURE"@)) is None,
{
    vorbis_field_known_by_key("METADATA_BLOCK_PICTURE"@);
    picture_field_unknown_from(0);
}

proof fn picture_field_unknown_from(i: int)
    requires
        0 <= i <= VOCAB_LEN,
    ensures
        first_from(key_is(lower("METADATA_BLOCK_PICTURE"@)), i) is None,
    decreases VOCAB_LEN - i,
{
    if i < VOCAB_LEN {
        picture_field_unknown_from(i + 1);
        no_picture_key(i);
    }
}

proof fn no_picture_key(i: int)
    requires
        0 <= i < VOCAB_LEN,
    ensures
        vocab(i).key != lower("METADATA_BLOCK_PICTURE"@),
{
    reveal_strlit("METADATA_BLOCK_PICTURE");
    reveal_strlit("title");
    reveal_strlit("artist");
    reveal_strlit("album");
    reveal_strlit("albumartist");
    reveal_strlit("genre");
    reveal_strlit("date");
    reveal_strlit("composer");
    reveal_strlit("grouping");
    reveal_strlit("tracknumber");
    reveal_strlit("discnumber");
    reveal_strlit("comment");
    reveal_strlit("lyrics");
    reveal_strlit("copyright");
    reveal_strlit("isrc");
    reveal_strlit("lyricist");
    reveal_strlit("conductor");
    reveal_strlit("replaygain_track_gain");
    reveal_strlit("replaygain_album_gain");
    reveal_strlit("replaygain_track_peak");
    reveal_strlit("replaygain_album_peak");
    reveal_strlit("musicbrainz_albumid");
    reveal_strlit("musicbrainz_artistid");
    assert(lower("METADATA_BLOCK_PICTURE"@).len() == 22);
}

/// An atom that begins otherwise is no text atom.
pub proof fn not_a_text_atom(kind: Seq<u8>)
    requires
        kind.len() == 4,
        kind[0] != 0xa9,
        kind[0] != 0x61,
    ensures
        first(mp4_text_is(kind)) is None,
{
    let p = mp4_text_is(kind);
    assert forall|j: int| 0 <= j < VOCAB_LEN implies !#[trigger] p(vocab(j)) by {
        mp4_slot_shape(j);
    }
    first_is_none(p, 0);
}

/// Where no entry is accepted, the search gives none.
proof fn first_is_none(p: spec_fn(EntryModel) -> bool, from: int)
    requires
        0 <= from,
        forall|j: int| 0 <= j < VOCAB_LEN ==> !#[trigger] p(vocab(j)),
    ensures
        first_from(p, from) is None,
    decreases VOCAB_LEN - from,
{
    if from < VOCAB_LEN {
        first_is_none(p, from + 1);
    }
}

/// An entry that a search gives is in the vocabulary, and accepted.
pub proof fn found_entry(p: spec_fn(EntryModel) -> bool, i: int)
    requires
        0 <= i,
    ensures
        match first_from(p, i) {
            Some(e) => i <= e < VOCAB_LEN && p(vocab(e)),
            None => true,
        },
    decreases VOCAB_LEN - i,
{
    if i < VOCAB_LEN && !p(vocab(i)) {
        found_entry(p, i + 1);
    }
}

} // verus!
