//! What the vocabulary says, key by key: the place of each canonical key in each format, and
//! the way back from it.

use crate::tagmap::entry_of;
use crate::tagmap::first;
use crate::tagmap::id3_model;
use crate::tagmap::id3_text_is;
use crate::tagmap::id3_text_to_key;
use crate::tagmap::id3_txxx_is;
use crate::tagmap::id3_txxx_to_key;
use crate::tagmap::key_at;
use crate::tagmap::key_is;
use crate::tagmap::key_to_id3;
use crate::tagmap::key_to_mp4;
use crate::tagmap::key_to_vorbis;
use crate::tagmap::mp4_atom_to_key;
use crate::tagmap::mp4_freeform_is;
use crate::tagmap::mp4_freeform_to_key;
use crate::tagmap::mp4_integer_atom_to_key;
use crate::tagmap::mp4_keyed_to_key;
use crate::tagmap::mp4_model;
use crate::tagmap::mp4_text_is;
use crate::tagmap::vocab;
use crate::tagmap::vorbis_field_of;
use crate::tagmap::vorbis_is;
use crate::tagmap::vorbis_to_key;
use crate::tagmap::Id3Model;
use crate::tagmap::Id3Slot;
use crate::tagmap::Mp4Model;
use crate::tagmap::Mp4Slot;
use crate::tagmap::VOCAB_LEN;
use crate::tagmap_laws::found_entry;
use crate::tagmap_laws::key_finds_its_entry;
use crate::tagmap_laws::keys_are_lowercase;
use crate::tagmap_laws::vorbis_field_known_by_key;
use crate::text::lower;
use crate::text::same_ignoring_case;
use crate::text::upper;
use crate::text::utf8;
use vstd::prelude::*;

verus! {

/// A four-character code as bytes, one for each character.
pub open spec fn code(name: Seq<char>) -> Seq<u8> {
    Seq::new(name.len(), |i: int| name[i] as u8)
}

/// The slot found, if any.
pub open spec fn id3_found(r: Option<Id3Slot>) -> Option<Id3Model> {
    match r {
        Some(s) => Some(id3_model(s)),
        None => None,
    }
}

/// The slot found, if any.
pub open spec fn mp4_found(r: Option<Mp4Slot>) -> Option<Mp4Model> {
    match r {
        Some(s) => Some(mp4_model(s)),
        None => None,
    }
}

/// The ID3 frame ids as bytes.
proof fn id3_codes()
    ensures
        code("TALB"@) == seq![0x54u8, 0x41u8, 0x4cu8, 0x42u8],
        code("TCOM"@) == seq![0x54u8, 0x43u8, 0x4fu8, 0x4du8],
        code("TCON"@) == seq![0x54u8, 0x43u8, 0x4fu8, 0x4eu8],
        code("TCOP"@) == seq![0x54u8, 0x43u8, 0x4fu8, 0x50u8],
        code("TDRC"@) == seq![0x54u8, 0x44u8, 0x52u8, 0x43u8],
        code("TEXT"@) == seq![0x54u8, 0x45u8, 0x58u8, 0x54u8],
        code("TIT1"@) == seq![0x54u8, 0x49u8, 0x54u8, 0x31u8],
        code("TIT2"@) == seq![0x54u8, 0x49u8, 0x54u8, 0x32u8],
        code("TPE1"@) == seq![0x54u8, 0x50u8, 0x45u8, 0x31u8],
        code("TPE2"@) == seq![0x54u8, 0x50u8, 0x45u8, 0x32u8],
        code("TPE3"@) == seq![0x54u8, 0x50u8, 0x45u8, 0x33u8],
        code("TPOS"@) == seq![0x54u8, 0x50u8, 0x4fu8, 0x53u8],
        code("TRCK"@) == seq![0x54u8, 0x52u8, 0x43u8, 0x4bu8],
        code("TSRC"@) == seq![0x54u8, 0x53u8, 0x52u8, 0x43u8],
{
    reveal_strlit("TALB");
    reveal_strlit("TCOM");
    reveal_strlit("TCON");
    reveal_strlit("TCOP");
    reveal_strlit("TDRC");
    reveal_strlit("TEXT");
    reveal_strlit("TIT1");
    reveal_strlit("TIT2");
    reveal_strlit("TPE1");
    reveal_strlit("TPE2");
    reveal_strlit("TPE3");
    reveal_strlit("TPOS");
    reveal_strlit("TRCK");
    reveal_strlit("TSRC");
    assert(code("TALB"@) =~= seq![0x54u8, 0x41u8, 0x4cu8, 0x42u8]);
    assert(code("TCOM"@) =~= seq![0x54u8, 0x43u8, 0x4fu8, 0x4du8]);
    assert(code("TCON"@) =~= seq![0x54u8, 0x43u8, 0x4fu8, 0x4eu8]);
    assert(code("TCOP"@) =~= seq![0x54u8, 0x43u8, 0x4fu8, 0x50u8]);
    assert(code("TDRC"@) =~= seq![0x54u8, 0x44u8, 0x52u8, 0x43u8]);
    assert(code("TEXT"@) =~= seq![0x54u8, 0x45u8, 0x58u8, 0x54u8]);
    assert(code("TIT1"@) =~= seq![0x54u8, 0x49u8, 0x54u8, 0x31u8]);
    assert(code("TIT2"@) =~= seq![0x54u8, 0x49u8, 0x54u8, 0x32u8]);
    assert(code("TPE1"@) =~= seq![0x54u8, 0x50u8, 0x45u8, 0x31u8]);
    assert(code("TPE2"@) =~= seq![0x54u8, 0x50u8, 0x45u8, 0x32u8]);
    assert(code("TPE3"@) =~= seq![0x54u8, 0x50u8, 0x45u8, 0x33u8]);
    assert(code("TPOS"@) =~= seq![0x54u8, 0x50u8, 0x4fu8, 0x53u8]);
    assert(code("TRCK"@) =~= seq![0x54u8, 0x52u8, 0x43u8, 0x4bu8]);
    assert(code("TSRC"@) =~= seq![0x54u8, 0x53u8, 0x52u8, 0x43u8]);
}

/// The MP4 atom types as bytes.
proof fn mp4_codes()
    ensures
        code("aART"@) == seq![0x61u8, 0x41u8, 0x52u8, 0x54u8],
        code("cpil"@) == seq![0x63u8, 0x70u8, 0x69u8, 0x6cu8],
        code("disk"@) == seq![0x64u8, 0x69u8, 0x73u8, 0x6bu8],
        code("pgap"@) == seq![0x70u8, 0x67u8, 0x61u8, 0x70u8],
        code("tmpo"@) == seq![0x74u8, 0x6du8, 0x70u8, 0x6fu8],
        code("trkn"@) == seq![0x74u8, 0x72u8, 0x6bu8, 0x6eu8],
        code("©ART"@) == seq![0xa9u8, 0x41u8, 0x52u8, 0x54u8],
        code("©alb"@) == seq![0xa9u8, 0x61u8, 0x6cu8, 0x62u8],
        code("©cmt"@) == seq![0xa9u8, 0x63u8, 0x6du8, 0x74u8],
        code("©day"@) == seq![0xa9u8, 0x64u8, 0x61u8, 0x79u8],
        code("©gen"@) == seq![0xa9u8, 0x67u8, 0x65u8, 0x6eu8],
        code("©grp"@) == seq![0xa9u8, 0x67u8, 0x72u8, 0x70u8],
        code("©lyr"@) == seq![0xa9u8, 0x6cu8, 0x79u8, 0x72u8],
        code("©nam"@) == seq![0xa9u8, 0x6eu8, 0x61u8, 0x6du8],
        code("©wrt"@) == seq![0xa9u8, 0x77u8, 0x72u8, 0x74u8],
{
    reveal_strlit("aART");
    reveal_strlit("cpil");
    reveal_strlit("disk");
    reveal_strlit("pgap");
    reveal_strlit("tmpo");
    reveal_strlit("trkn");
    reveal_strlit("©ART");
    reveal_strlit("©alb");
    reveal_strlit("©cmt");
    reveal_strlit("©day");
    reveal_strlit("©gen");
    reveal_strlit("©grp");
    reveal_strlit("©lyr");
    reveal_strlit("©nam");
    reveal_strlit("©wrt");
    assert(code("aART"@) =~= seq![0x61u8, 0x41u8, 0x52u8, 0x54u8]);
    assert(code("cpil"@) =~= seq![0x63u8, 0x70u8, 0x69u8, 0x6cu8]);
    assert(code("disk"@) =~= seq![0x64u8, 0x69u8, 0x73u8, 0x6bu8]);
    assert(code("pgap"@) =~= seq![0x70u8, 0x67u8, 0x61u8, 0x70u8]);
    assert(code("tmpo"@) =~= seq![0x74u8, 0x6du8, 0x70u8, 0x6fu8]);
    assert(code("trkn"@) =~= seq![0x74u8, 0x72u8, 0x6bu8, 0x6eu8]);
    assert(code("©ART"@) =~= seq![0xa9u8, 0x41u8, 0x52u8, 0x54u8]);
    assert(code("©alb"@) =~= seq![0xa9u8, 0x61u8, 0x6cu8, 0x62u8]);
    assert(code("©cmt"@) =~= seq![0xa9u8, 0x63u8, 0x6du8, 0x74u8]);
    assert(code("©day"@) =~= seq![0xa9u8, 0x64u8, 0x61u8, 0x79u8]);
    assert(code("©gen"@) =~= seq![0xa9u8, 0x67u8, 0x65u8, 0x6eu8]);
    assert(code("©grp"@) =~= seq![0xa9u8, 0x67u8, 0x72u8, 0x70u8]);
    assert(code("©lyr"@) =~= seq![0xa9u8, 0x6cu8, 0x79u8, 0x72u8]);
    assert(code("©nam"@) =~= seq![0xa9u8, 0x6eu8, 0x61u8, 0x6du8]);
    assert(code("©wrt"@) =~= seq![0xa9u8, 0x77u8, 0x72u8, 0x74u8]);
}

/// A key that names entry `i` in any case finds it.
proof fn names_entry(key: Seq<char>, i: int)
    requires
        0 <= i < VOCAB_LEN,
        lower(key) == vocab(i).key,
    ensures
        entry_of(key) == Some(i),
{
    key_finds_its_entry(i);
    keys_are_lowercase(i);
}

/// A key that names no entry finds none, and one that finds an entry names it.
proof fn finds_by_name(key: Seq<char>)
    ensures
        match entry_of(key) {
            Some(i) => 0 <= i < VOCAB_LEN && vocab(i).key == lower(key),
            None => forall|i: int| 0 <= i < VOCAB_LEN ==> (#[trigger] vocab(i)).key != lower(key),
        },
{
    found_entry(key_is(lower(key)), 0);
    if entry_of(key) is None {
        assert forall|i: int| 0 <= i < VOCAB_LEN implies (#[trigger] vocab(i)).key != lower(key) by {
            if vocab(i).key == lower(key) {
                names_entry(key, i);
            }
        }
    }
}

/// The text is one of the canonical keys of the vocabulary.
pub open spec fn is_vocabulary_key(k: Seq<char>) -> bool {
    ||| k == "title"@
    ||| k == "artist"@
    ||| k == "album"@
    ||| k == "albumartist"@
    ||| k == "genre"@
    ||| k == "date"@
    ||| k == "composer"@
    ||| k == "grouping"@
    ||| k == "tracknumber"@
    ||| k == "discnumber"@
    ||| k == "comment"@
    ||| k == "lyrics"@
    ||| k == "copyright"@
    ||| k == "isrc"@
    ||| k == "lyricist"@
    ||| k == "conductor"@
    ||| k == "replaygain_track_gain"@
    ||| k == "replaygain_album_gain"@
    ||| k == "replaygain_track_peak"@
    ||| k == "replaygain_album_peak"@
    ||| k == "musicbrainz_albumid"@
    ||| k == "musicbrainz_artistid"@
}

/// Each canonical key, in any case, has its ID3 frame, and no other key has one.
pub proof fn id3_slot_of_each_key(key: &str, r: Option<Id3Slot>)
    requires
        call_ensures(key_to_id3, (key,), r),
    ensures
        lower(key@) == "title"@ ==> id3_found(r) == Some(Id3Model::Text(code("TIT2"@))),
        lower(key@) == "artist"@ ==> id3_found(r) == Some(Id3Model::Text(code("TPE1"@))),
        lower(key@) == "album"@ ==> id3_found(r) == Some(Id3Model::Text(code("TALB"@))),
        lower(key@) == "albumartist"@ ==> id3_found(r) == Some(Id3Model::Text(code("TPE2"@))),
        lower(key@) == "genre"@ ==> id3_found(r) == Some(Id3Model::Text(code("TCON"@))),
        lower(key@) == "date"@ ==> id3_found(r) == Some(Id3Model::Text(code("TDRC"@))),
        lower(key@) == "composer"@ ==> id3_found(r) == Some(Id3Model::Text(code("TCOM"@))),
        lower(key@) == "grouping"@ ==> id3_found(r) == Some(Id3Model::Text(code("TIT1"@))),
        lower(key@) == "tracknumber"@ ==> id3_found(r) == Some(Id3Model::Text(code("TRCK"@))),
        lower(key@) == "discnumber"@ ==> id3_found(r) == Some(Id3Model::Text(code("TPOS"@))),
        lower(key@) == "comment"@ ==> id3_found(r) == Some(Id3Model::Comment),
        lower(key@) == "lyrics"@ ==> id3_found(r) == Some(Id3Model::Lyrics),
        lower(key@) == "copyright"@ ==> id3_found(r) == Some(Id3Model::Text(code("TCOP"@))),
        lower(key@) == "isrc"@ ==> id3_found(r) == Some(Id3Model::Text(code("TSRC"@))),
        lower(key@) == "lyricist"@ ==> id3_found(r) == Some(Id3Model::Text(code("TEXT"@))),
        lower(key@) == "conductor"@ ==> id3_found(r) == Some(Id3Model::Text(code("TPE3"@))),
        lower(key@) == "replaygain_track_gain"@ ==> id3_found(r) == Some(Id3Model::Txxx("REPLAYGAIN_TRACK_GAIN"@)),
        lower(key@) == "replaygain_album_gain"@ ==> id3_found(r) == Some(Id3Model::Txxx("REPLAYGAIN_ALBUM_GAIN"@)),
        lower(key@) == "replaygain_track_peak"@ ==> id3_found(r) == Some(Id3Model::Txxx("REPLAYGAIN_TRACK_PEAK"@)),
        lower(key@) == "replaygain_album_peak"@ ==> id3_found(r) == Some(Id3Model::Txxx("REPLAYGAIN_ALBUM_PEAK"@)),
        lower(key@) == "musicbrainz_albumid"@ ==> id3_found(r) == Some(Id3Model::Txxx("MusicBrainz Album Id"@)),
        lower(key@) == "musicbrainz_artistid"@ ==> id3_found(r) == Some(Id3Model::Txxx("MusicBrainz Artist Id"@)),
        !is_vocabulary_key(lower(key@)) ==> r is None,
{
    id3_codes();
    finds_by_name(key@);
    if lower(key@) == "title"@ {
        names_entry(key@, 0);
    }
    if lower(key@) == "artist"@ {
        names_entry(key@, 1);
    }
    if lower(key@) == "album"@ {
        names_entry(key@, 2);
    }
    if lower(key@) == "albumartist"@ {
        names_entry(key@, 3);
    }
    if lower(key@) == "genre"@ {
        names_entry(key@, 4);
    }
    if lower(key@) == "date"@ {
        names_entry(key@, 5);
    }
    if lower(key@) == "composer"@ {
        names_entry(key@, 6);
    }
    if lower(key@) == "grouping"@ {
        names_entry(key@, 7);
    }
    if lower(key@) == "tracknumber"@ {
        names_entry(key@, 8);
    }
    if lower(key@) == "discnumber"@ {
        names_entry(key@, 9);
    }
    if lower(key@) == "comment"@ {
        names_entry(key@, 10);
    }
    if lower(key@) == "lyrics"@ {
        names_entry(key@, 11);
    }
    if lower(key@) == "copyright"@ {
        names_entry(key@, 12);
    }
    if lower(key@) == "isrc"@ {
        names_entry(key@, 13);
    }
    if lower(key@) == "lyricist"@ {
        names_entry(key@, 14);
    }
    if lower(key@) == "conductor"@ {
        names_entry(key@, 15);
    }
    if lower(key@) == "replaygain_track_gain"@ {
        names_entry(key@, 16);
    }
    if lower(key@) == "replaygain_album_gain"@ {
        names_entry(key@, 17);
    }
    if lower(key@) == "replaygain_track_peak"@ {
        names_entry(key@, 18);
    }
    if lower(key@) == "replaygain_album_peak"@ {
        names_entry(key@, 19);
    }
    if lower(key@) == "musicbrainz_albumid"@ {
        names_entry(key@, 20);
    }
    if lower(key@) == "musicbrainz_artistid"@ {
        names_entry(key@, 21);
    }
}

/// Each canonical key, in any case, has its MP4 atom; so have `bpm`, `compilation` and
/// `gapless`; and no other key has one.
pub proof fn mp4_slot_of_each_key(key: &str, r: Option<Mp4Slot>)
    requires
        call_ensures(key_to_mp4, (key,), r),
    ensures
        lower(key@) == "title"@ ==> mp4_found(r) == Some(Mp4Model::Text(code("©nam"@))),
        lower(key@) == "artist"@ ==> mp4_found(r) == Some(Mp4Model::Text(code("©ART"@))),
        lower(key@) == "album"@ ==> mp4_found(r) == Some(Mp4Model::Text(code("©alb"@))),
        lower(key@) == "albumartist"@ ==> mp4_found(r) == Some(Mp4Model::Text(code("aART"@))),
        lower(key@) == "genre"@ ==> mp4_found(r) == Some(Mp4Model::Text(code("©gen"@))),
        lower(key@) == "date"@ ==> mp4_found(r) == Some(Mp4Model::Text(code("©day"@))),
        lower(key@) == "composer"@ ==> mp4_found(r) == Some(Mp4Model::Text(code("©wrt"@))),
        lower(key@) == "grouping"@ ==> mp4_found(r) == Some(Mp4Model::Text(code("©grp"@))),
        lower(key@) == "tracknumber"@ ==> mp4_found(r) == Some(Mp4Model::Number(code("trkn"@), 8)),
        lower(key@) == "discnumber"@ ==> mp4_found(r) == Some(Mp4Model::Number(code("disk"@), 6)),
        lower(key@) == "comment"@ ==> mp4_found(r) == Some(Mp4Model::Text(code("©cmt"@))),
        lower(key@) == "lyrics"@ ==> mp4_found(r) == Some(Mp4Model::Text(code("©lyr"@))),
        lower(key@) == "copyright"@ ==> mp4_found(r) == Some(Mp4Model::Freeform("com.apple.iTunes"@, "COPYRIGHT"@)),
        lower(key@) == "isrc"@ ==> mp4_found(r) == Some(Mp4Model::Freeform("com.apple.iTunes"@, "ISRC"@)),
        lower(key@) == "lyricist"@ ==> mp4_found(r) == Some(Mp4Model::Freeform("com.apple.iTunes"@, "LYRICIST"@)),
        lower(key@) == "conductor"@ ==> mp4_found(r) == Some(Mp4Model::Freeform("com.apple.iTunes"@, "CONDUCTOR"@)),
        lower(key@) == "replaygain_track_gain"@ ==> mp4_found(r) == Some(Mp4Model::Freeform("com.apple.iTunes"@, "replaygain_track_gain"@)),
        lower(key@) == "replaygain_album_gain"@ ==> mp4_found(r) == Some(Mp4Model::Freeform("com.apple.iTunes"@, "replaygain_album_gain"@)),
        lower(key@) == "replaygain_track_peak"@ ==> mp4_found(r) == Some(Mp4Model::Freeform("com.apple.iTunes"@, "replaygain_track_peak"@)),
        lower(key@) == "replaygain_album_peak"@ ==> mp4_found(r) == Some(Mp4Model::Freeform("com.apple.iTunes"@, "replaygain_album_peak"@)),
        lower(key@) == "musicbrainz_albumid"@ ==> mp4_found(r) == Some(Mp4Model::Freeform("com.apple.iTunes"@, "MusicBrainz Album Id"@)),
        lower(key@) == "musicbrainz_artistid"@ ==> mp4_found(r) == Some(Mp4Model::Freeform("com.apple.iTunes"@, "MusicBrainz Artist Id"@)),
        lower(key@) == "bpm"@ ==> mp4_found(r) == Some(Mp4Model::Integer(code("tmpo"@), 2)),
        lower(key@) == "compilation"@ ==> mp4_found(r) == Some(Mp4Model::Integer(code("cpil"@), 1)),
        lower(key@) == "gapless"@ ==> mp4_found(r) == Some(Mp4Model::Integer(code("pgap"@), 1)),
        !is_vocabulary_key(lower(key@)) && lower(key@) != "bpm"@ && lower(key@) != "compilation"@
            && lower(key@) != "gapless"@ ==> r is None,
{
    mp4_codes();
    finds_by_name(key@);
    integer_keys_apart();
    if lower(key@) == "title"@ {
        names_entry(key@, 0);
    }
    if lower(key@) == "artist"@ {
        names_entry(key@, 1);
    }
    if lower(key@) == "album"@ {
        names_entry(key@, 2);
    }
    if lower(key@) == "albumartist"@ {
        names_entry(key@, 3);
    }
    if lower(key@) == "genre"@ {
        names_entry(key@, 4);
    }
    if lower(key@) == "date"@ {
        names_entry(key@, 5);
    }
    if lower(key@) == "composer"@ {
        names_entry(key@, 6);
    }
    if lower(key@) == "grouping"@ {
        names_entry(key@, 7);
    }
    if lower(key@) == "tracknumber"@ {
        names_entry(key@, 8);
    }
    if lower(key@) == "discnumber"@ {
        names_entry(key@, 9);
    }
    if lower(key@) == "comment"@ {
        names_entry(key@, 10);
    }
    if lower(key@) == "lyrics"@ {
        names_entry(key@, 11);
    }
    if lower(key@) == "copyright"@ {
        names_entry(key@, 12);
    }
    if lower(key@) == "isrc"@ {
        names_entry(key@, 13);
    }
    if lower(key@) == "lyricist"@ {
        names_entry(key@, 14);
    }
    if lower(key@) == "conductor"@ {
        names_entry(key@, 15);
    }
    if lower(key@) == "replaygain_track_gain"@ {
        names_entry(key@, 16);
    }
    if lower(key@) == "replaygain_album_gain"@ {
        names_entry(key@, 17);
    }
    if lower(key@) == "replaygain_track_peak"@ {
        names_entry(key@, 18);
    }
    if lower(key@) == "replaygain_album_peak"@ {
        names_entry(key@, 19);
    }
    if lower(key@) == "musicbrainz_albumid"@ {
        names_entry(key@, 20);
    }
    if lower(key@) == "musicbrainz_artistid"@ {
        names_entry(key@, 21);
    }
}

/// The keys of integer atoms are none of the vocabulary.
proof fn integer_keys_apart()
    ensures
        !is_vocabulary_key("bpm"@),
        !is_vocabulary_key("compilation"@),
        !is_vocabulary_key("gapless"@),
        "bpm"@ != "compilation"@,
        "bpm"@ != "gapless"@,
        "compilation"@ != "gapless"@,
{
    reveal_strlit("bpm");
    reveal_strlit("compilation");
    reveal_strlit("gapless");
    reveal_strlit("title");
    reveal_strlit("artist");
    reveal_strlit("album");
    reveal_strlit("albumartist");
    reveal_strlit("genre");
    reveal_strlit("date");
    reveal_strlit("composer");
    reveal_strlit("grouping");
    reveal_strlit("tracknumber");
    reveal_strlit("discnumber");
    reveal_strlit("comment");
    reveal_strlit("lyrics");
    reveal_strlit("copyright");
    reveal_strlit("isrc");
    reveal_strlit("lyricist");
    reveal_strlit("conductor");
    reveal_strlit("replaygain_track_gain");
    reveal_strlit("replaygain_album_gain");
    reveal_strlit("replaygain_track_peak");
    reveal_strlit("replaygain_album_peak");
    reveal_strlit("musicbrainz_albumid");
    reveal_strlit("musicbrainz_artistid");
    assert("title"@.len() == 5);
    assert("artist"@.len() == 6);
    assert("album"@.len() == 5);
    assert("albumartist"@.len() == 11);
    assert("genre"@.len() == 5);
    assert("date"@.len() == 4);
    assert("composer"@.len() == 8);
    assert("grouping"@.len() == 8);
    assert("tracknumber"@.len() == 11);
    assert("discnumber"@.len() == 10);
    assert("comment"@.len() == 7);
    assert("lyrics"@.len() == 6);
    assert("copyright"@.len() == 9);
    assert("isrc"@.len() == 4);
    assert("lyricist"@.len() == 8);
    assert("conductor"@.len() == 9);
    assert("replaygain_track_gain"@.len() == 21);
    assert("replaygain_album_gain"@.len() == 21);
    assert("replaygain_track_peak"@.len() == 21);
    assert("replaygain_album_peak"@.len() == 21);
    assert("musicbrainz_albumid"@.len() == 19);
    assert("musicbrainz_artistid"@.len() == 20);
    assert("bpm"@.len() == 3);
    assert("compilation"@.len() == 11);
    assert("gapless"@.len() == 7);
    assert("albumartist"@[0] == 'a' && "albumartist"@[3] == 'u');
    assert("tracknumber"@[0] == 't' && "tracknumber"@[3] == 'c');
    assert("comment"@[0] == 'c' && "comment"@[3] == 'm');
    let g = "gapless"@;
    let c = "compilation"@;
    assert(g[0] == 'g' && g[1] == 'a' && c[0] == 'c' && c[2] == 'm' && c[3] == 'p' && c[4] == 'i');
}

/// The Vorbis field of a canonical key is the key in capital letters.
pub(crate) proof fn field_is_the_key(key: Seq<char>)
    ensures
        vorbis_field_of(key) == if is_vocabulary_key(lower(key)) {
            Some(upper(key))
        } else {
            None
        },
{
    finds_by_name(key);
    if let Some(i) = entry_of(key) {
        field_in_capitals(i);
        assert(upper(lower(key)) =~= upper(key));
    }
    if lower(key) == "title"@ {
        names_entry(key, 0);
    }
    if lower(key) == "artist"@ {
        names_entry(key, 1);
    }
    if lower(key) == "album"@ {
        names_entry(key, 2);
    }
    if lower(key) == "albumartist"@ {
        names_entry(key, 3);
    }
    if lower(key) == "genre"@ {
        names_entry(key, 4);
    }
    if lower(key) == "date"@ {
        names_entry(key, 5);
    }
    if lower(key) == "composer"@ {
        names_entry(key, 6);
    }
    if lower(key) == "grouping"@ {
        names_entry(key, 7);
    }
    if lower(key) == "tracknumber"@ {
        names_entry(key, 8);
    }
    if lower(key) == "discnumber"@ {
        names_entry(key, 9);
    }
    if lower(key) == "comment"@ {
        names_entry(key, 10);
    }
    if lower(key) == "lyrics"@ {
        names_entry(key, 11);
    }
    if lower(key) == "copyright"@ {
        names_entry(key, 12);
    }
    if lower(key) == "isrc"@ {
        names_entry(key, 13);
    }
    if lower(key) == "lyricist"@ {
        names_entry(key, 14);
    }
    if lower(key) == "conductor"@ {
        names_entry(key, 15);
    }
    if lower(key) == "replaygain_track_gain"@ {
        names_entry(key, 16);
    }
    if lower(key) == "replaygain_album_gain"@ {
        names_entry(key, 17);
    }
    if lower(key) == "replaygain_track_peak"@ {
        names_entry(key, 18);
    }
    if lower(key) == "replaygain_album_peak"@ {
        names_entry(key, 19);
    }
    if lower(key) == "musicbrainz_albumid"@ {
        names_entry(key, 20);
    }
    if lower(key) == "musicbrainz_artistid"@ {
        names_entry(key, 21);
    }
}

/// The Vorbis field of each canonical key, in any case, is the key in capital letters; no
/// other key has one of its own.
pub proof fn vorbis_field_of_each_key(key: &str, r: Option<&'static str>)
    requires
        call_ensures(key_to_vorbis, (key,), r),
    ensures
        is_vocabulary_key(lower(key@)) ==> r is Some && r->0@ == upper(key@),
        !is_vocabulary_key(lower(key@)) ==> r is None,
{
    field_is_the_key(key@);
}

proof fn field_in_capitals(i: int)
    requires
        0 <= i < VOCAB_LEN,
    ensures
        vocab(i).vorbis == upper(vocab(i).key),
{
    reveal_strlit("title");
    reveal_strlit("TITLE");
    reveal_strlit("artist");
    reveal_strlit("ARTIST");
    reveal_strlit("album");
    reveal_strlit("ALBUM");
    reveal_strlit("albumartist");
    reveal_strlit("ALBUMARTIST");
    reveal_strlit("genre");
    reveal_strlit("GENRE");
    reveal_strlit("date");
    reveal_strlit("DATE");
    reveal_strlit("composer");
    reveal_strlit("COMPOSER");
    reveal_strlit("grouping");
    reveal_strlit("GROUPING");
    reveal_strlit("tracknumber");
    reveal_strlit("TRACKNUMBER");
    reveal_strlit("discnumber");
    reveal_strlit("DISCNUMBER");
    reveal_strlit("comment");
    reveal_strlit("COMMENT");
    reveal_strlit("lyrics");
    reveal_strlit("LYRICS");
    reveal_strlit("copyright");
    reveal_strlit("COPYRIGHT");
    reveal_strlit("isrc");
    reveal_strlit("ISRC");
    reveal_strlit("lyricist");
    reveal_strlit("LYRICIST");
    reveal_strlit("conductor");
    reveal_strlit("CONDUCTOR");
    reveal_strlit("replaygain_track_gain");
    reveal_strlit("REPLAYGAIN_TRACK_GAIN");
    reveal_strlit("replaygain_album_gain");
    reveal_strlit("REPLAYGAIN_ALBUM_GAIN");
    reveal_strlit("replaygain_track_peak");
    reveal_strlit("REPLAYGAIN_TRACK_PEAK");
    reveal_strlit("replaygain_album_peak");
    reveal_strlit("REPLAYGAIN_ALBUM_PEAK");
    reveal_strlit("musicbrainz_albumid");
    reveal_strlit("MUSICBRAINZ_ALBUMID");
    reveal_strlit("musicbrainz_artistid");
    reveal_strlit("MUSICBRAINZ_ARTISTID");
    assert("TITLE"@ =~= upper("title"@));
    assert("ARTIST"@ =~= upper("artist"@));
    assert("ALBUM"@ =~= upper("album"@));
    assert("ALBUMARTIST"@ =~= upper("albumartist"@));
    assert("GENRE"@ =~= upper("genre"@));
    assert("DATE"@ =~= upper("date"@));
    assert("COMPOSER"@ =~= upper("composer"@));
    assert("GROUPING"@ =~= upper("grouping"@));
    assert("TRACKNUMBER"@ =~= upper("tracknumber"@));
    assert("DISCNUMBER"@ =~= upper("discnumber"@));
    assert("COMMENT"@ =~= upper("comment"@));
    assert("LYRICS"@ =~= upper("lyrics"@));
    assert("COPYRIGHT"@ =~= upper("copyright"@));
    assert("ISRC"@ =~= upper("isrc"@));
    assert("LYRICIST"@ =~= upper("lyricist"@));
    assert("CONDUCTOR"@ =~= upper("conductor"@));
    assert("REPLAYGAIN_TRACK_GAIN"@ =~= upper("replaygain_track_gain"@));
    assert("REPLAYGAIN_ALBUM_GAIN"@ =~= upper("replaygain_album_gain"@));
    assert("REPLAYGAIN_TRACK_PEAK"@ =~= upper("replaygain_track_peak"@));
    assert("REPLAYGAIN_ALBUM_PEAK"@ =~= upper("replaygain_album_peak"@));
    assert("MUSICBRAINZ_ALBUMID"@ =~= upper("musicbrainz_albumid"@));
    assert("MUSICBRAINZ_ARTISTID"@ =~= upper("musicbrainz_artistid"@));
}

/// A text frame id and a key belong together whichever way one looks: the key of a frame has
/// that frame for its slot, and the frame of a key leads back to the key.
pub proof fn id3_frames_and_keys_agree(
    frame_id: &str,
    k: Option<&'static str>,
    key: &str,
    slot: Option<Id3Slot>,
)
    requires
        call_ensures(id3_text_to_key, (frame_id,), k),
        call_ensures(key_to_id3, (key,), slot),
    ensures
        k is Some && key@ == k->0@ ==> id3_found(slot) == Some(Id3Model::Text(utf8(frame_id@))),
        id3_found(slot) == Some(Id3Model::Text(utf8(frame_id@))) ==> k is Some && k->0@ == lower(
            key@,
        ),
{
    let id = utf8(frame_id@);
    found_entry(id3_text_is(id), 0);
    finds_by_name(key@);
    if let Some(i) = first(id3_text_is(id)) {
        keys_are_lowercase(i);
        if key@ == vocab(i).key {
            names_entry(key@, i);
        }
    }
    if let Some(i) = entry_of(key@) {
        if vocab(i).id3 == Id3Model::Text(id) {
            crate::tagmap_laws::id3_frame_leads_back(i);
        }
    }
}

/// A `TXXX` description, in any case, and a key belong together whichever way one looks.
pub proof fn id3_descriptions_and_keys_agree(
    description: &str,
    k: Option<&'static str>,
    key: &str,
    slot: Option<Id3Slot>,
)
    requires
        call_ensures(id3_txxx_to_key, (description,), k),
        call_ensures(key_to_id3, (key,), slot),
    ensures
        k is Some && key@ == k->0@ ==> match id3_found(slot) {
            Some(Id3Model::Txxx(d)) => same_ignoring_case(d, description@),
            _ => false,
        },
        match id3_found(slot) {
            Some(Id3Model::Txxx(d)) => same_ignoring_case(d, description@) ==> k is Some && k->0@
                == lower(key@),
            _ => true,
        },
{
    found_entry(id3_txxx_is(description@), 0);
    finds_by_name(key@);
    if let Some(i) = first(id3_txxx_is(description@)) {
        keys_are_lowercase(i);
        if key@ == vocab(i).key {
            names_entry(key@, i);
        }
    }
    if let Some(i) = entry_of(key@) {
        if let Id3Model::Txxx(d) = vocab(i).id3 {
            if same_ignoring_case(d, description@) {
                crate::tagmap_laws::id3_txxx_leads_back(i);
                same_description(description@, d, 0);
            }
        }
    }
}

proof fn same_description(a: Seq<char>, b: Seq<char>, i: int)
    requires
        same_ignoring_case(a, b),
        0 <= i <= VOCAB_LEN,
    ensures
        crate::tagmap::first_from(id3_txxx_is(a), i) == crate::tagmap::first_from(id3_txxx_is(b), i),
    decreases VOCAB_LEN - i,
{
    if i < VOCAB_LEN {
        same_description(a, b, i + 1);
    }
}

/// A text atom and a key belong together whichever way one looks.
pub proof fn mp4_atoms_and_keys_agree(
    atom: &[u8; 4],
    k: Option<&'static str>,
    key: &str,
    slot: Option<Mp4Slot>,
)
    requires
        call_ensures(mp4_atom_to_key, (atom,), k),
        call_ensures(key_to_mp4, (key,), slot),
    ensures
        k is Some && key@ == k->0@ ==> mp4_found(slot) == Some(Mp4Model::Text(atom@)),
        mp4_found(slot) == Some(Mp4Model::Text(atom@)) ==> k is Some && k->0@ == lower(key@),
{
    found_entry(mp4_text_is(atom@), 0);
    finds_by_name(key@);
    if let Some(i) = first(mp4_text_is(atom@)) {
        keys_are_lowercase(i);
        if key@ == vocab(i).key {
            names_entry(key@, i);
        }
    }
    if let Some(i) = entry_of(key@) {
        if vocab(i).mp4 == Mp4Model::Text(atom@) {
            crate::tagmap_laws::mp4_atom_leads_back(i);
        }
    }
}

/// A freeform atom, in any case, and a key belong together whichever way one looks.
pub proof fn mp4_freeforms_and_keys_agree(
    mean: &str,
    name: &str,
    k: Option<&'static str>,
    key: &str,
    slot: Option<Mp4Slot>,
)
    requires
        call_ensures(mp4_freeform_to_key, (mean, name), k),
        call_ensures(key_to_mp4, (key,), slot),
    ensures
        k is Some && key@ == k->0@ ==> match mp4_found(slot) {
            Some(Mp4Model::Freeform(m, n)) => same_ignoring_case(m, mean@) && same_ignoring_case(
                n,
                name@,
            ),
            _ => false,
        },
        match mp4_found(slot) {
            Some(Mp4Model::Freeform(m, n)) => same_ignoring_case(m, mean@) && same_ignoring_case(
                n,
                name@,
            ) ==> k is Some && k->0@ == lower(key@),
            _ => true,
        },
{
    found_entry(mp4_freeform_is(mean@, name@), 0);
    finds_by_name(key@);
    if let Some(i) = first(mp4_freeform_is(mean@, name@)) {
        keys_are_lowercase(i);
        if key@ == vocab(i).key {
            names_entry(key@, i);
        }
    }
    if let Some(i) = entry_of(key@) {
        if let Mp4Model::Freeform(m, n) = vocab(i).mp4 {
            if same_ignoring_case(m, mean@) && same_ignoring_case(n, name@) {
                crate::tagmap_laws::mp4_freeform_leads_back(i);
                same_freeform(mean@, name@, m, n, 0);
            }
        }
    }
}

proof fn same_freeform(m: Seq<char>, n: Seq<char>, x: Seq<char>, y: Seq<char>, i: int)
    requires
        same_ignoring_case(m, x),
        same_ignoring_case(n, y),
        0 <= i <= VOCAB_LEN,
    ensures
        crate::tagmap::first_from(mp4_freeform_is(m, n), i) == crate::tagmap::first_from(
            mp4_freeform_is(x, y),
            i,
        ),
    decreases VOCAB_LEN - i,
{
    if i < VOCAB_LEN {
        same_freeform(m, n, x, y, i + 1);
    }
}

/// A Vorbis field that is a canonical key but for case is read as that key.
pub(crate) proof fn key_is_the_field(field: Seq<char>)
    ensures
        key_at(first(vorbis_is(field))) == if is_vocabulary_key(lower(field)) {
            Some(lower(field))
        } else {
            None
        },
{
    vorbis_field_known_by_key(field);
    finds_by_name(field);
    if lower(field) == "title"@ {
        names_entry(field, 0);
    }
    if lower(field) == "artist"@ {
        names_entry(field, 1);
    }
    if lower(field) == "album"@ {
        names_entry(field, 2);
    }
    if lower(field) == "albumartist"@ {
        names_entry(field, 3);
    }
    if lower(field) == "genre"@ {
        names_entry(field, 4);
    }
    if lower(field) == "date"@ {
        names_entry(field, 5);
    }
    if lower(field) == "composer"@ {
        names_entry(field, 6);
    }
    if lower(field) == "grouping"@ {
        names_entry(field, 7);
    }
    if lower(field) == "tracknumber"@ {
        names_entry(field, 8);
    }
    if lower(field) == "discnumber"@ {
        names_entry(field, 9);
    }
    if lower(field) == "comment"@ {
        names_entry(field, 10);
    }
    if lower(field) == "lyrics"@ {
        names_entry(field, 11);
    }
    if lower(field) == "copyright"@ {
        names_entry(field, 12);
    }
    if lower(field) == "isrc"@ {
        names_entry(field, 13);
    }
    if lower(field) == "lyricist"@ {
        names_entry(field, 14);
    }
    if lower(field) == "conductor"@ {
        names_entry(field, 15);
    }
    if lower(field) == "replaygain_track_gain"@ {
        names_entry(field, 16);
    }
    if lower(field) == "replaygain_album_gain"@ {
        names_entry(field, 17);
    }
    if lower(field) == "replaygain_track_peak"@ {
        names_entry(field, 18);
    }
    if lower(field) == "replaygain_album_peak"@ {
        names_entry(field, 19);
    }
    if lower(field) == "musicbrainz_albumid"@ {
        names_entry(field, 20);
    }
    if lower(field) == "musicbrainz_artistid"@ {
        names_entry(field, 21);
    }
}

/// A Vorbis field, in any case, is read as its canonical key, and any other field is unknown.
pub proof fn vorbis_fields_are_keys(field: &str, r: Option<&'static str>)
    requires
        call_ensures(vorbis_to_key, (field,), r),
    ensures
        is_vocabulary_key(lower(field@)) ==> r is Some && r->0@ == lower(field@),
        !is_vocabulary_key(lower(field@)) ==> r is None,
{
    key_is_the_field(field@);
}

/// The integer atoms are `tmpo`, `cpil` and `pgap`, and no other.
pub proof fn integer_atoms_and_keys_agree(
    atom: &[u8; 4],
    k: Option<&'static str>,
)
    requires
        call_ensures(mp4_integer_atom_to_key, (atom,), k),
    ensures
        atom@ == code("tmpo"@) ==> k is Some && k->0@ == "bpm"@,
        atom@ == code("cpil"@) ==> k is Some && k->0@ == "compilation"@,
        atom@ == code("pgap"@) ==> k is Some && k->0@ == "gapless"@,
        atom@ != code("tmpo"@) && atom@ != code("cpil"@) && atom@ != code("pgap"@) ==> k is None,
{
    mp4_codes();
    let t = seq![0x74u8, 0x6du8, 0x70u8, 0x6fu8];
    let c = seq![0x63u8, 0x70u8, 0x69u8, 0x6cu8];
    let p = seq![0x70u8, 0x67u8, 0x61u8, 0x70u8];
    assert(t[0] == 0x74 && c[0] == 0x63 && p[0] == 0x70);
}

/// Each QuickTime and `ffmpeg` name of keyed metadata, in any case, is read as its canonical
/// key, and any other name stands for itself.
pub proof fn keyed_names_and_keys(name: &str, r: Option<&'static str>)
    requires
        call_ensures(mp4_keyed_to_key, (name,), r),
    ensures
        lower(name@) == "com.apple.quicktime.title"@ ==> r is Some && r->0@ == "title"@,
        lower(name@) == "com.apple.quicktime.artist"@ ==> r is Some && r->0@ == "artist"@,
        lower(name@) == "com.apple.quicktime.album"@ ==> r is Some && r->0@ == "album"@,
        lower(name@) == "com.apple.quicktime.genre"@ ==> r is Some && r->0@ == "genre"@,
        lower(name@) == "com.apple.quicktime.comment"@ ==> r is Some && r->0@ == "comment"@,
        lower(name@) == "com.apple.quicktime.copyright"@ ==> r is Some && r->0@ == "copyright"@,
        lower(name@) == "com.apple.quicktime.year"@ ==> r is Some && r->0@ == "date"@,
        lower(name@) == "album_artist"@ ==> r is Some && r->0@ == "albumartist"@,
        lower(name@) == "track"@ ==> r is Some && r->0@ == "tracknumber"@,
        lower(name@) == "disc"@ ==> r is Some && r->0@ == "discnumber"@,
        r is Some ==> lower(name@) == "com.apple.quicktime.title"@ || lower(name@) == "com.apple.quicktime.artist"@ || lower(name@) == "com.apple.quicktime.album"@ || lower(name@) == "com.apple.quicktime.genre"@ || lower(name@) == "com.apple.quicktime.comment"@ || lower(name@) == "com.apple.quicktime.copyright"@ || lower(name@) == "com.apple.quicktime.year"@ || lower(name@) == "album_artist"@ || lower(name@) == "track"@ || lower(name@) == "disc"@,
{
    reveal_strlit("com.apple.quicktime.title");
    assert(lower("com.apple.quicktime.title"@) =~= "com.apple.quicktime.title"@);
    reveal_strlit("com.apple.quicktime.artist");
    assert(lower("com.apple.quicktime.artist"@) =~= "com.apple.quicktime.artist"@);
    reveal_strlit("com.apple.quicktime.album");
    assert(lower("com.apple.quicktime.album"@) =~= "com.apple.quicktime.album"@);
    reveal_strlit("com.apple.quicktime.genre");
    assert(lower("com.apple.quicktime.genre"@) =~= "com.apple.quicktime.genre"@);
    reveal_strlit("com.apple.quicktime.comment");
    assert(lower("com.apple.quicktime.comment"@) =~= "com.apple.quicktime.comment"@);
    reveal_strlit("com.apple.quicktime.copyright");
    assert(lower("com.apple.quicktime.copyright"@) =~= "com.apple.quicktime.copyright"@);
    reveal_strlit("com.apple.quicktime.year");
    assert(lower("com.apple.quicktime.year"@) =~= "com.apple.quicktime.year"@);
    reveal_strlit("album_artist");
    assert(lower("album_artist"@) =~= "album_artist"@);
    reveal_strlit("track");
    assert(lower("track"@) =~= "track"@);
    reveal_strlit("disc");
    assert(lower("disc"@) =~= "disc"@);
    keyed_names_apart();
}

/// The names differ.
proof fn keyed_names_apart()
    ensures
        "com.apple.quicktime.title"@ != "com.apple.quicktime.artist"@,
        "com.apple.quicktime.title"@ != "com.apple.quicktime.album"@,
        "com.apple.quicktime.title"@ != "com.apple.quicktime.genre"@,
        "com.apple.quicktime.title"@ != "com.apple.quicktime.comment"@,
        "com.apple.quicktime.title"@ != "com.apple.quicktime.copyright"@,
        "com.apple.quicktime.title"@ != "com.apple.quicktime.year"@,
        "com.apple.quicktime.title"@ != "album_artist"@,
        "com.apple.quicktime.title"@ != "track"@,
        "com.apple.quicktime.title"@ != "disc"@,
        "com.apple.quicktime.artist"@ != "com.apple.quicktime.album"@,
        "com.apple.quicktime.artist"@ != "com.apple.quicktime.genre"@,
        "com.apple.quicktime.artist"@ != "com.apple.quicktime.comment"@,
        "com.apple.quicktime.artist"@ != "com.apple.quicktime.copyright"@,
        "com.apple.quicktime.artist"@ != "com.apple.quicktime.year"@,
        "com.apple.quicktime.artist"@ != "album_artist"@,
        "com.apple.quicktime.artist"@ != "track"@,
        "com.apple.quicktime.artist"@ != "disc"@,
        "com.apple.quicktime.album"@ != "com.apple.quicktime.genre"@,
        "com.apple.quicktime.album"@ != "com.apple.quicktime.comment"@,
        "com.apple.quicktime.album"@ != "com.apple.quicktime.copyright"@,
        "com.apple.quicktime.album"@ != "com.apple.quicktime.year"@,
        "com.apple.quicktime.album"@ != "album_artist"@,
        "com.apple.quicktime.album"@ != "track"@,
        "com.apple.quicktime.album"@ != "disc"@,
        "com.apple.quicktime.genre"@ != "com.apple.quicktime.comment"@,
        "com.apple.quicktime.genre"@ != "com.apple.quicktime.copyright"@,
        "com.apple.quicktime.genre"@ != "com.apple.quicktime.year"@,
        "com.apple.quicktime.genre"@ != "album_artist"@,
        "com.apple.quicktime.genre"@ != "track"@,
        "com.apple.quicktime.genre"@ != "disc"@,
        "com.apple.quicktime.comment"@ != "com.apple.quicktime.copyright"@,
        "com.apple.quicktime.comment"@ != "com.apple.quicktime.year"@,
        "com.apple.quicktime.comment"@ != "album_artist"@,
        "com.apple.quicktime.comment"@ != "track"@,
        "com.apple.quicktime.comment"@ != "disc"@,
        "com.apple.quicktime.copyright"@ != "com.apple.quicktime.year"@,
        "com.apple.quicktime.copyright"@ != "album_artist"@,
        "com.apple.quicktime.copyright"@ != "track"@,
        "com.apple.quicktime.copyright"@ != "disc"@,
        "com.apple.quicktime.year"@ != "album_artist"@,
        "com.apple.quicktime.year"@ != "track"@,
        "com.apple.quicktime.year"@ != "disc"@,
        "album_artist"@ != "track"@,
        "album_artist"@ != "disc"@,
        "track"@ != "disc"@,
{
    reveal_strlit("com.apple.quicktime.title");
    reveal_strlit("com.apple.quicktime.artist");
    reveal_strlit("com.apple.quicktime.album");
    reveal_strlit("com.apple.quicktime.genre");
    reveal_strlit("com.apple.quicktime.comment");
    reveal_strlit("com.apple.quicktime.copyright");
    reveal_strlit("com.apple.quicktime.year");
    reveal_strlit("album_artist");
    reveal_strlit("track");
    reveal_strlit("disc");
    assert("com.apple.quicktime.title"@.len() == 25);
    assert("com.apple.quicktime.artist"@.len() == 26);
    assert("com.apple.quicktime.album"@.len() == 25);
    assert("com.apple.quicktime.genre"@.len() == 25);
    assert("com.apple.quicktime.comment"@.len() == 27);
    assert("com.apple.quicktime.copyright"@.len() == 29);
    assert("com.apple.quicktime.year"@.len() == 24);
    assert("album_artist"@.len() == 12);
    assert("track"@.len() == 5);
    assert("disc"@.len() == 4);
    assert("com.apple.quicktime.title"@[20] == 't' && "com.apple.quicktime.title"@[21] == 'i' && "com.apple.quicktime.title"@.len() == 25);
    assert("com.apple.quicktime.artist"@[20] == 'a' && "com.apple.quicktime.artist"@[21] == 'r' && "com.apple.quicktime.artist"@.len() == 26);
    assert("com.apple.quicktime.album"@[20] == 'a' && "com.apple.quicktime.album"@[21] == 'l' && "com.apple.quicktime.album"@.len() == 25);
    assert("com.apple.quicktime.genre"@[20] == 'g' && "com.apple.quicktime.genre"@[21] == 'e' && "com.apple.quicktime.genre"@.len() == 25);
    assert("com.apple.quicktime.comment"@[20] == 'c' && "com.apple.quicktime.comment"@[21] == 'o' && "com.apple.quicktime.comment"@.len() == 27);
    assert("com.apple.quicktime.copyright"@[20] == 'c' && "com.apple.quicktime.copyright"@[21] == 'o' && "com.apple.quicktime.copyright"@.len() == 29);
    assert("com.apple.quicktime.year"@[20] == 'y' && "com.apple.quicktime.year"@[21] == 'e' && "com.apple.quicktime.year"@.len() == 24);
    assert("com.apple.quicktime.artist"@[21] == 'r' && "com.apple.quicktime.album"@[21] == 'l');
    assert("com.apple.quicktime.comment"@[22] == 'm' && "com.apple.quicktime.copyright"@[22] == 'p');
}

} // verus!
