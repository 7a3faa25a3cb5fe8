//! Canonical tag vocabulary: the single source of truth mapping a canonical
//! (lowercase) tag key to its native representation in each container format.
//! Format modules consult this for both scanning (native -> canonical) and
//! synthesis (canonical -> native). Tags absent from the vocabulary are
//! user-defined and round-trip verbatim through each format's extension slot.

use crate::text::ascii_lowercase;
use crate::text::equal_ignoring_case;
use crate::text::lower;
use crate::text::same_ignoring_case;
use crate::text::same_text;
use vstd::prelude::*;

verus! {

/// How a canonical key is represented inside an ID3v2 tag.
#[derive(Debug, Clone, Copy, PartialEq, Eq)]
pub enum Id3Slot {
    /// A standard text information frame, e.g. `TIT2`.
    Text([u8; 4]),
    /// A `TXXX` user-defined text frame with this fixed, exact-case description.
    Txxx(&'static str),
    /// The `COMM` comment frame.
    Comment,
    /// The `USLT` unsynchronised-lyrics frame.
    Lyrics,
}

/// How a canonical key is represented inside an MP4 `ilst`.
#[derive(Debug, Clone, Copy, PartialEq, Eq)]
pub enum Mp4Slot {
    /// A text atom, e.g. `©nam`.
    Text([u8; 4]),
    /// A binary number atom (`trkn`/`disk`); the `usize` is the `data` body width.
    Number([u8; 4], usize),
    /// A big-endian integer atom (`tmpo`/`cpil`/`pgap`); the `usize` is the value width.
    Integer([u8; 4], usize),
    /// A `----` freeform atom: `(mean, name)`.
    Freeform(&'static str, &'static str),
}

/// One key of the vocabulary with its place in each format.
#[derive(Debug, Clone, Copy, PartialEq, Eq)]
pub struct Entry {
    /// Canonical, lowercase.
    pub key: &'static str,
    pub id3: Id3Slot,
    pub mp4: Mp4Slot,
    /// Vorbis field name (uppercase convention).
    pub vorbis: &'static str,
}

/// An ID3 slot as a mathematical value.
pub enum Id3Model {
    Text(Seq<u8>),
    Txxx(Seq<char>),
    Comment,
    Lyrics,
}

/// An MP4 slot as a mathematical value.
pub enum Mp4Model {
    Text(Seq<u8>),
    Number(Seq<u8>, int),
    Integer(Seq<u8>, int),
    Freeform(Seq<char>, Seq<char>),
}

/// An entry as a mathematical value.
pub struct EntryModel {
    pub key: Seq<char>,
    pub id3: Id3Model,
    pub mp4: Mp4Model,
    pub vorbis: Seq<char>,
}

/// What an ID3 slot stands for.
pub open spec fn id3_model(s: Id3Slot) -> Id3Model {
    match s {
        Id3Slot::Text(id) => Id3Model::Text(id@),
        Id3Slot::Txxx(d) => Id3Model::Txxx(d@),
        Id3Slot::Comment => Id3Model::Comment,
        Id3Slot::Lyrics => Id3Model::Lyrics,
    }
}

/// What an MP4 slot stands for.
pub open spec fn mp4_model(s: Mp4Slot) -> Mp4Model {
    match s {
        Mp4Slot::Text(a) => Mp4Model::Text(a@),
        Mp4Slot::Number(a, w) => Mp4Model::Number(a@, w as int),
        Mp4Slot::Integer(a, w) => Mp4Model::Integer(a@, w as int),
        Mp4Slot::Freeform(m, n) => Mp4Model::Freeform(m@, n@),
    }
}

/// What an entry stands for.
pub open spec fn entry_model(e: Entry) -> EntryModel {
    EntryModel { key: e.key@, id3: id3_model(e.id3), mp4: mp4_model(e.mp4), vorbis: e.vorbis@ }
}

/// The number of keys in the vocabulary.
pub const VOCAB_LEN: usize = 22;

/// Entry `i` of the vocabulary.
pub open spec fn vocab(i: int) -> EntryModel {
    if i == 0 { // TIT2, ©nam
        EntryModel { key: "title"@, id3: Id3Model::Text(seq![0x54u8, 0x49u8, 0x54u8, 0x32u8]), mp4: Mp4Model::Text(seq![0xa9u8, 0x6eu8, 0x61u8, 0x6du8]), vorbis: "TITLE"@ }
    } else if i == 1 { // TPE1, ©ART
        EntryModel { key: "artist"@, id3: Id3Model::Text(seq![0x54u8, 0x50u8, 0x45u8, 0x31u8]), mp4: Mp4Model::Text(seq![0xa9u8, 0x41u8, 0x52u8, 0x54u8]), vorbis: "ARTIST"@ }
    } else if i == 2 { // TALB, ©alb
        EntryModel { key: "album"@, id3: Id3Model::Text(seq![0x54u8, 0x41u8, 0x4cu8, 0x42u8]), mp4: Mp4Model::Text(seq![0xa9u8, 0x61u8, 0x6cu8, 0x62u8]), vorbis: "ALBUM"@ }
    } else if i == 3 { // TPE2, aART
        EntryModel { key: "albumartist"@, id3: Id3Model::Text(seq![0x54u8, 0x50u8, 0x45u8, 0x32u8]), mp4: Mp4Model::Text(seq![0x61u8, 0x41u8, 0x52u8, 0x54u8]), vorbis: "ALBUMARTIST"@ }
    } else if i == 4 { // TCON, ©gen
        EntryModel { key: "genre"@, id3: Id3Model::Text(seq![0x54u8, 0x43u8, 0x4fu8, 0x4eu8]), mp4: Mp4Model::Text(seq![0xa9u8, 0x67u8, 0x65u8, 0x6eu8]), vorbis: "GENRE"@ }
    } else if i == 5 { // TDRC, ©day
        EntryModel { key: "date"@, id3: Id3Model::Text(seq![0x54u8, 0x44u8, 0x52u8, 0x43u8]), mp4: Mp4Model::Text(seq![0xa9u8, 0x64u8, 0x61u8, 0x79u8]), vorbis: "DATE"@ }
    } else if i == 6 { // TCOM, ©wrt
        EntryModel { key: "composer"@, id3: Id3Model::Text(seq![0x54u8, 0x43u8, 0x4fu8, 0x4du8]), mp4: Mp4Model::Text(seq![0xa9u8, 0x77u8, 0x72u8, 0x74u8]), vorbis: "COMPOSER"@ }
    } else if i == 7 { // TIT1, ©grp
        EntryModel { key: "grouping"@, id3: Id3Model::Text(seq![0x54u8, 0x49u8, 0x54u8, 0x31u8]), mp4: Mp4Model::Text(seq![0xa9u8, 0x67u8, 0x72u8, 0x70u8]), vorbis: "GROUPING"@ }
    } else if i == 8 { // TRCK, trkn
        EntryModel { key: "tracknumber"@, id3: Id3Model::Text(seq![0x54u8, 0x52u8, 0x43u8, 0x4bu8]), mp4: Mp4Model::Number(seq![0x74u8, 0x72u8, 0x6bu8, 0x6eu8], 8), vorbis: "TRACKNUMBER"@ }
    } else if i == 9 { // TPOS, disk
        EntryModel { key: "discnumber"@, id3: Id3Model::Text(seq![0x54u8, 0x50u8, 0x4fu8, 0x53u8]), mp4: Mp4Model::Number(seq![0x64u8, 0x69u8, 0x73u8, 0x6bu8], 6), vorbis: "DISCNUMBER"@ }
    } else if i == 10 { // ©cmt
        EntryModel { key: "comment"@, id3: Id3Model::Comment, mp4: Mp4Model::Text(seq![0xa9u8, 0x63u8, 0x6du8, 0x74u8]), vorbis: "COMMENT"@ }
    } else if i == 11 { // ©lyr
        EntryModel { key: "lyrics"@, id3: Id3Model::Lyrics, mp4: Mp4Model::Text(seq![0xa9u8, 0x6cu8, 0x79u8, 0x72u8]), vorbis: "LYRICS"@ }
    } else if i == 12 { // TCOP
        EntryModel { key: "copyright"@, id3: Id3Model::Text(seq![0x54u8, 0x43u8, 0x4fu8, 0x50u8]), mp4: Mp4Model::Freeform("com.apple.iTunes"@, "COPYRIGHT"@), vorbis: "COPYRIGHT"@ }
    } else if i == 13 { // TSRC
        EntryModel { key: "isrc"@, id3: Id3Model::Text(seq![0x54u8, 0x53u8, 0x52u8, 0x43u8]), mp4: Mp4Model::Freeform("com.apple.iTunes"@, "ISRC"@), vorbis: "ISRC"@ }
    } else if i == 14 { // TEXT
        EntryModel { key: "lyricist"@, id3: Id3Model::Text(seq![0x54u8, 0x45u8, 0x58u8, 0x54u8]), mp4: Mp4Model::Freeform("com.apple.iTunes"@, "LYRICIST"@), vorbis: "LYRICIST"@ }
    } else if i == 15 { // TPE3
        EntryModel { key: "conductor"@, id3: Id3Model::Text(seq![0x54u8, 0x50u8, 0x45u8, 0x33u8]), mp4: Mp4Model::Freeform("com.apple.iTunes"@, "CONDUCTOR"@), vorbis: "CONDUCTOR"@ }
    } else if i == 16 {
        EntryModel { key: "replaygain_track_gain"@, id3: Id3Model::Txxx("REPLAYGAIN_TRACK_GAIN"@), mp4: Mp4Model::Freeform("com.apple.iTunes"@, "replaygain_track_gain"@), vorbis: "REPLAYGAIN_TRACK_GAIN"@ }
    } else if i == 17 {
        EntryModel { key: "replaygain_album_gain"@, id3: Id3Model::Txxx("REPLAYGAIN_ALBUM_GAIN"@), mp4: Mp4Model::Freeform("com.apple.iTunes"@, "replaygain_album_gain"@), vorbis: "REPLAYGAIN_ALBUM_GAIN"@ }
    } else if i == 18 {
        EntryModel { key: "replaygain_track_peak"@, id3: Id3Model::Txxx("REPLAYGAIN_TRACK_PEAK"@), mp4: Mp4Model::Freeform("com.apple.iTunes"@, "replaygain_track_peak"@), vorbis: "REPLAYGAIN_TRACK_PEAK"@ }
    } else if i == 19 {
        EntryModel { key: "replaygain_album_peak"@, id3: Id3Model::Txxx("REPLAYGAIN_ALBUM_PEAK"@), mp4: Mp4Model::Freeform("com.apple.iTunes"@, "replaygain_album_peak"@), vorbis: "REPLAYGAIN_ALBUM_PEAK"@ }
    } else if i == 20 {
        EntryModel { key: "musicbrainz_albumid"@, id3: Id3Model::Txxx("MusicBrainz Album Id"@), mp4: Mp4Model::Freeform("com.apple.iTunes"@, "MusicBrainz Album Id"@), vorbis: "MUSICBRAINZ_ALBUMID"@ }
    } else {
        EntryModel { key: "musicbrainz_artistid"@, id3: Id3Model::Txxx("MusicBrainz Artist Id"@), mp4: Mp4Model::Freeform("com.apple.iTunes"@, "MusicBrainz Artist Id"@), vorbis: "MUSICBRAINZ_ARTISTID"@ }
    }
}

/// Entry `i` of the vocabulary.
pub fn vocab_entry(i: usize) -> (r: Entry)
    requires
        i < VOCAB_LEN,
    ensures
        entry_model(r) == vocab(i as int),
{
    let r: Entry = if i == 0 { // TIT2, ©nam
            Entry { key: "title", id3: Id3Slot::Text([0x54u8, 0x49u8, 0x54u8, 0x32u8]), mp4: Mp4Slot::Text([0xa9u8, 0x6eu8, 0x61u8, 0x6du8]), vorbis: "TITLE" }
        } else if i == 1 { // TPE1, ©ART
            Entry { key: "artist", id3: Id3Slot::Text([0x54u8, 0x50u8, 0x45u8, 0x31u8]), mp4: Mp4Slot::Text([0xa9u8, 0x41u8, 0x52u8, 0x54u8]), vorbis: "ARTIST" }
        } else if i == 2 { // TALB, ©alb
            Entry { key: "album", id3: Id3Slot::Text([0x54u8, 0x41u8, 0x4cu8, 0x42u8]), mp4: Mp4Slot::Text([0xa9u8, 0x61u8, 0x6cu8, 0x62u8]), vorbis: "ALBUM" }
        } else if i == 3 { // TPE2, aART
            Entry { key: "albumartist", id3: Id3Slot::Text([0x54u8, 0x50u8, 0x45u8, 0x32u8]), mp4: Mp4Slot::Text([0x61u8, 0x41u8, 0x52u8, 0x54u8]), vorbis: "ALBUMARTIST" }
        } else if i == 4 { // TCON, ©gen
            Entry { key: "genre", id3: Id3Slot::Text([0x54u8, 0x43u8, 0x4fu8, 0x4eu8]), mp4: Mp4Slot::Text([0xa9u8, 0x67u8, 0x65u8, 0x6eu8]), vorbis: "GENRE" }
        } else if i == 5 { // TDRC, ©day
            Entry { key: "date", id3: Id3Slot::Text([0x54u8, 0x44u8, 0x52u8, 0x43u8]), mp4: Mp4Slot::Text([0xa9u8, 0x64u8, 0x61u8, 0x79u8]), vorbis: "DATE" }
        } else if i == 6 { // TCOM, ©wrt
            Entry { key: "composer", id3: Id3Slot::Text([0x54u8, 0x43u8, 0x4fu8, 0x4du8]), mp4: Mp4Slot::Text([0xa9u8, 0x77u8, 0x72u8, 0x74u8]), vorbis: "COMPOSER" }
        } else if i == 7 { // TIT1, ©grp
            Entry { key: "grouping", id3: Id3Slot::Text([0x54u8, 0x49u8, 0x54u8, 0x31u8]), mp4: Mp4Slot::Text([0xa9u8, 0x67u8, 0x72u8, 0x70u8]), vorbis: "GROUPING" }
        } else if i == 8 { // TRCK, trkn
            Entry { key: "tracknumber", id3: Id3Slot::Text([0x54u8, 0x52u8, 0x43u8, 0x4bu8]), mp4: Mp4Slot::Number([0x74u8, 0x72u8, 0x6bu8, 0x6eu8], 8), vorbis: "TRACKNUMBER" }
        } else if i == 9 { // TPOS, disk
            Entry { key: "discnumber", id3: Id3Slot::Text([0x54u8, 0x50u8, 0x4fu8, 0x53u8]), mp4: Mp4Slot::Number([0x64u8, 0x69u8, 0x73u8, 0x6bu8], 6), vorbis: "DISCNUMBER" }
        } else if i == 10 { // ©cmt
            Entry { key: "comment", id3: Id3Slot::Comment, mp4: Mp4Slot::Text([0xa9u8, 0x63u8, 0x6du8, 0x74u8]), vorbis: "COMMENT" }
        } else if i == 11 { // ©lyr
            Entry { key: "lyrics", id3: Id3Slot::Lyrics, mp4: Mp4Slot::Text([0xa9u8, 0x6cu8, 0x79u8, 0x72u8]), vorbis: "LYRICS" }
        } else if i == 12 { // TCOP
            Entry { key: "copyright", id3: Id3Slot::Text([0x54u8, 0x43u8, 0x4fu8, 0x50u8]), mp4: Mp4Slot::Freeform("com.apple.iTunes", "COPYRIGHT"), vorbis: "COPYRIGHT" }
        } else if i == 13 { // TSRC
            Entry { key: "isrc", id3: Id3Slot::Text([0x54u8, 0x53u8, 0x52u8, 0x43u8]), mp4: Mp4Slot::Freeform("com.apple.iTunes", "ISRC"), vorbis: "ISRC" }
        } else if i == 14 { // TEXT
            Entry { key: "lyricist", id3: Id3Slot::Text([0x54u8, 0x45u8, 0x58u8, 0x54u8]), mp4: Mp4Slot::Freeform("com.apple.iTunes", "LYRICIST"), vorbis: "LYRICIST" }
        } else if i == 15 { // TPE3
            Entry { key: "conductor", id3: Id3Slot::Text([0x54u8, 0x50u8, 0x45u8, 0x33u8]), mp4: Mp4Slot::Freeform("com.apple.iTunes", "CONDUCTOR"), vorbis: "CONDUCTOR" }
        } else if i == 16 {
            Entry { key: "replaygain_track_gain", id3: Id3Slot::Txxx("REPLAYGAIN_TRACK_GAIN"), mp4: Mp4Slot::Freeform("com.apple.iTunes", "replaygain_track_gain"), vorbis: "REPLAYGAIN_TRACK_GAIN" }
        } else if i == 17 {
            Entry { key: "replaygain_album_gain", id3: Id3Slot::Txxx("REPLAYGAIN_ALBUM_GAIN"), mp4: Mp4Slot::Freeform("com.apple.iTunes", "replaygain_album_gain"), vorbis: "REPLAYGAIN_ALBUM_GAIN" }
        } else if i == 18 {
            Entry { key: "replaygain_track_peak", id3: Id3Slot::Txxx("REPLAYGAIN_TRACK_PEAK"), mp4: Mp4Slot::Freeform("com.apple.iTunes", "replaygain_track_peak"), vorbis: "REPLAYGAIN_TRACK_PEAK" }
        } else if i == 19 {
            Entry { key: "replaygain_album_peak", id3: Id3Slot::Txxx("REPLAYGAIN_ALBUM_PEAK"), mp4: Mp4Slot::Freeform("com.apple.iTunes", "replaygain_album_peak"), vorbis: "REPLAYGAIN_ALBUM_PEAK" }
        } else if i == 20 {
            Entry { key: "musicbrainz_albumid", id3: Id3Slot::Txxx("MusicBrainz Album Id"), mp4: Mp4Slot::Freeform("com.apple.iTunes", "MusicBrainz Album Id"), vorbis: "MUSICBRAINZ_ALBUMID" }
        } else {
            Entry { key: "musicbrainz_artistid", id3: Id3Slot::Txxx("MusicBrainz Artist Id"), mp4: Mp4Slot::Freeform("com.apple.iTunes", "MusicBrainz Artist Id"), vorbis: "MUSICBRAINZ_ARTISTID" }
        };
    proof {
        match r.id3 {
            Id3Slot::Text(a) => {
                assert(a@ =~= seq![a@[0], a@[1], a@[2], a@[3]]);
            },
            _ => {},
        }
        match r.mp4 {
            Mp4Slot::Text(a) => {
                assert(a@ =~= seq![a@[0], a@[1], a@[2], a@[3]]);
            },
            Mp4Slot::Number(a, w) => {
                assert(a@ =~= seq![a@[0], a@[1], a@[2], a@[3]]);
            },
            _ => {},
        }
    }
    r
}

/// The first entry from `i` on that `p` accepts.
pub open spec fn first_from(p: spec_fn(EntryModel) -> bool, i: int) -> Option<int>
    decreases VOCAB_LEN - i,
{
    if i < 0 || i >= VOCAB_LEN {
        None
    } else if p(vocab(i)) {
        Some(i)
    } else {
        first_from(p, i + 1)
    }
}

/// The first entry that `p` accepts.
pub open spec fn first(p: spec_fn(EntryModel) -> bool) -> Option<int> {
    first_from(p, 0)
}

/// The canonical key of entry `i`, if there is an entry.
pub open spec fn key_at(i: Option<int>) -> Option<Seq<char>> {
    match i {
        Some(k) => Some(vocab(k).key),
        None => None,
    }
}

/// `r` is `key`, or neither is there.
pub open spec fn gives(r: Option<&'static str>, key: Option<Seq<char>>) -> bool {
    match r {
        Some(s) => key == Some(s@),
        None => key is None,
    }
}

/// Entries with canonical key `k`.
pub open spec fn key_is(k: Seq<char>) -> spec_fn(EntryModel) -> bool {
    |e: EntryModel| e.key == k
}

/// Entries with Vorbis field `f`, in any case.
pub open spec fn vorbis_is(f: Seq<char>) -> spec_fn(EntryModel) -> bool {
    |e: EntryModel| same_ignoring_case(e.vorbis, f)
}

/// Entries whose ID3 slot is the text frame `id`.
pub open spec fn id3_text_is(id: Seq<u8>) -> spec_fn(EntryModel) -> bool {
    |e: EntryModel| e.id3 == Id3Model::Text(id)
}

/// Entries whose ID3 slot is a `TXXX` frame with description `d`, in any case.
pub open spec fn id3_txxx_is(d: Seq<char>) -> spec_fn(EntryModel) -> bool {
    |e: EntryModel|
        match e.id3 {
            Id3Model::Txxx(x) => same_ignoring_case(x, d),
            _ => false,
        }
}

/// Entries whose MP4 slot is the text atom `a`.
pub open spec fn mp4_text_is(a: Seq<u8>) -> spec_fn(EntryModel) -> bool {
    |e: EntryModel| e.mp4 == Mp4Model::Text(a)
}

/// Entries whose MP4 slot is the freeform atom `(mean, name)`, in any case.
pub open spec fn mp4_freeform_is(mean: Seq<char>, name: Seq<char>) -> spec_fn(EntryModel) -> bool {
    |e: EntryModel|
        match e.mp4 {
            Mp4Model::Freeform(m, n) => same_ignoring_case(m, mean) && same_ignoring_case(n, name),
            _ => false,
        }
}

/// The entry of a key, matched in any case.
pub open spec fn entry_of(key: Seq<char>) -> Option<int> {
    first(key_is(lower(key)))
}

/// The entry of `key`, matched case-insensitively.
fn find_entry(key: &str) -> (r: Option<Entry>)
    ensures
        match r {
            Some(e) => entry_of(key@) is Some && entry_model(e) == vocab(entry_of(key@)->0),
            None => entry_of(key@) is None,
        },
{
    let k = ascii_lowercase(key);
    let mut i: usize = 0;
    while i < VOCAB_LEN
        invariant
            i <= VOCAB_LEN,
            k@ == lower(key@),
            entry_of(key@) == first_from(key_is(k@), i as int),
        decreases VOCAB_LEN - i,
    {
        let e = vocab_entry(i);
        if same_text(e.key, k.as_str()) {
            return Some(e);
        }
        i = i + 1;
    }
    None
}

/// Four bytes are the same.
fn same_code(a: &[u8; 4], b: &[u8; 4]) -> (r: bool)
    ensures
        r == (a@ == b@),
{
    let r = a[0] == b[0] && a[1] == b[1] && a[2] == b[2] && a[3] == b[3];
    proof {
        if r {
            assert(a@ =~= b@);
        }
    }
    r
}

/// ID3 text frame id (e.g. "TIT2") -> canonical key, for `Text` slots only.
pub fn id3_text_to_key(frame_id: &str) -> (r: Option<&'static str>)
    ensures
        gives(r, key_at(first(id3_text_is(crate::text::utf8(frame_id@))))),
{
    let b = frame_id.as_bytes();
    let mut i: usize = 0;
    while i < VOCAB_LEN
        invariant
            i <= VOCAB_LEN,
            b@ == crate::text::utf8(frame_id@),
            first(id3_text_is(b@)) == first_from(id3_text_is(b@), i as int),
        decreases VOCAB_LEN - i,
    {
        let e = vocab_entry(i);
        if let Id3Slot::Text(id) = e.id3 {
            if crate::bytes::same_bytes(id.as_slice(), b) {
                return Some(e.key);
            }
        }
        i = i + 1;
    }
    None
}

/// `TXXX` description -> canonical key (case-insensitive), for `Txxx` slots only.
pub fn id3_txxx_to_key(description: &str) -> (r: Option<&'static str>)
    ensures
        gives(r, key_at(first(id3_txxx_is(description@)))),
{
    let mut i: usize = 0;
    while i < VOCAB_LEN
        invariant
            i <= VOCAB_LEN,
            first(id3_txxx_is(description@)) == first_from(id3_txxx_is(description@), i as int),
        decreases VOCAB_LEN - i,
    {
        let e = vocab_entry(i);
        if let Id3Slot::Txxx(d) = e.id3 {
            if equal_ignoring_case(d, description) {
                return Some(e.key);
            }
        }
        i = i + 1;
    }
    None
}

/// The ID3 slot of a key.
pub open spec fn id3_slot_of(key: Seq<char>) -> Option<Id3Model> {
    match entry_of(key) {
        Some(i) => Some(vocab(i).id3),
        None => None,
    }
}

/// Canonical key -> ID3 slot (key matched case-insensitively).
pub fn key_to_id3(key: &str) -> (r: Option<Id3Slot>)
    ensures
        match r {
            Some(s) => id3_slot_of(key@) == Some(id3_model(s)),
            None => id3_slot_of(key@) is None,
        },
{
    match find_entry(key) {
        Some(e) => Some(e.id3),
        None => None,
    }
}

/// MP4 text atom -> canonical key, for `Text` slots only. `Number` atoms
/// (`trkn`/`disk`) are intentionally excluded: the scan path decodes their binary
/// track/disc value positionally rather than through this lookup.
pub fn mp4_atom_to_key(atom: &[u8; 4]) -> (r: Option<&'static str>)
    ensures
        gives(r, key_at(first(mp4_text_is(atom@)))),
{
    let mut i: usize = 0;
    while i < VOCAB_LEN
        invariant
            i <= VOCAB_LEN,
            first(mp4_text_is(atom@)) == first_from(mp4_text_is(atom@), i as int),
        decreases VOCAB_LEN - i,
    {
        let e = vocab_entry(i);
        if let Mp4Slot::Text(a) = e.mp4 {
            if same_code(&a, atom) {
                return Some(e.key);
            }
        }
        i = i + 1;
    }
    None
}

/// MP4 `----` (mean, name) -> canonical key (case-insensitive), `Freeform` only.
pub fn mp4_freeform_to_key(mean: &str, name: &str) -> (r: Option<&'static str>)
    ensures
        gives(r, key_at(first(mp4_freeform_is(mean@, name@)))),
{
    let mut i: usize = 0;
    while i < VOCAB_LEN
        invariant
            i <= VOCAB_LEN,
            first(mp4_freeform_is(mean@, name@)) == first_from(
                mp4_freeform_is(mean@, name@),
                i as int,
            ),
        decreases VOCAB_LEN - i,
    {
        let e = vocab_entry(i);
        if let Mp4Slot::Freeform(m, n) = e.mp4 {
            if equal_ignoring_case(m, mean) && equal_ignoring_case(n, name) {
                return Some(e.key);
            }
        }
        i = i + 1;
    }
    None
}

/// The key of a big-endian integer atom: `tmpo`, `cpil` and `pgap`.
pub open spec fn integer_atom_key(atom: Seq<u8>) -> Option<Seq<char>> {
    if atom == seq![0x74u8, 0x6du8, 0x70u8, 0x6fu8] {
        Some("bpm"@)
    } else if atom == seq![0x63u8, 0x70u8, 0x69u8, 0x6cu8] {
        Some("compilation"@)
    } else if atom == seq![0x70u8, 0x67u8, 0x61u8, 0x70u8] {
        Some("gapless"@)
    } else {
        None
    }
}

/// MP4 integer atom (`tmpo`/`cpil`/`pgap`) -> canonical key.
pub fn mp4_integer_atom_to_key(atom: &[u8; 4]) -> (r: Option<&'static str>)
    ensures
        gives(r, integer_atom_key(atom@)),
{
    assert(atom@ =~= seq![atom@[0], atom@[1], atom@[2], atom@[3]]);
    if atom[0] == 0x74 && atom[1] == 0x6d && atom[2] == 0x70 && atom[3] == 0x6f {
        Some("bpm")
    } else if atom[0] == 0x63 && atom[1] == 0x70 && atom[2] == 0x69 && atom[3] == 0x6c {
        Some("compilation")
    } else if atom[0] == 0x70 && atom[1] == 0x67 && atom[2] == 0x61 && atom[3] == 0x70 {
        Some("gapless")
    } else {
        None
    }
}

/// The MP4 slot of a key, matched in any case: that of the vocabulary, or an integer
/// atom.
pub open spec fn mp4_slot_of(key: Seq<char>) -> Option<Mp4Model> {
    match entry_of(key) {
        Some(i) => Some(vocab(i).mp4),
        None => if lower(key) == "bpm"@ {
            Some(Mp4Model::Integer(seq![0x74u8, 0x6du8, 0x70u8, 0x6fu8], 2))
        } else if lower(key) == "compilation"@ {
            Some(Mp4Model::Integer(seq![0x63u8, 0x70u8, 0x69u8, 0x6cu8], 1))
        } else if lower(key) == "gapless"@ {
            Some(Mp4Model::Integer(seq![0x70u8, 0x67u8, 0x61u8, 0x70u8], 1))
        } else {
            None
        },
    }
}

/// Canonical key -> MP4 slot (key matched case-insensitively).
pub fn key_to_mp4(key: &str) -> (r: Option<Mp4Slot>)
    ensures
        match r {
            Some(s) => mp4_slot_of(key@) == Some(mp4_model(s)),
            None => mp4_slot_of(key@) is None,
        },
{
    if let Some(e) = find_entry(key) {
        return Some(e.mp4);
    }
    let k = ascii_lowercase(key);
    let (atom, width): ([u8; 4], usize) = if same_text(k.as_str(), "bpm") {
        ([0x74u8, 0x6du8, 0x70u8, 0x6fu8], 2)
    } else if same_text(k.as_str(), "compilation") {
        ([0x63u8, 0x70u8, 0x69u8, 0x6cu8], 1)
    } else if same_text(k.as_str(), "gapless") {
        ([0x70u8, 0x67u8, 0x61u8, 0x70u8], 1)
    } else {
        return None;
    };
    assert(atom@ =~= seq![atom@[0], atom@[1], atom@[2], atom@[3]]);
    Some(Mp4Slot::Integer(atom, width))
}

/// The name of the keyed-metadata item that holds artwork.
pub const MP4_KEYED_ARTWORK: &'static str = "com.apple.quicktime.artwork";

/// The canonical key of a QuickTime keyed-metadata name, matched in any case.
pub open spec fn keyed_key(name: Seq<char>) -> Option<Seq<char>> {
    if same_ignoring_case(name, "com.apple.quicktime.title"@) {
        Some("title"@)
    } else if same_ignoring_case(name, "com.apple.quicktime.artist"@) {
        Some("artist"@)
    } else if same_ignoring_case(name, "com.apple.quicktime.album"@) {
        Some("album"@)
    } else if same_ignoring_case(name, "com.apple.quicktime.genre"@) {
        Some("genre"@)
    } else if same_ignoring_case(name, "com.apple.quicktime.comment"@) {
        Some("comment"@)
    } else if same_ignoring_case(name, "com.apple.quicktime.copyright"@) {
        Some("copyright"@)
    } else if same_ignoring_case(name, "com.apple.quicktime.year"@) {
        Some("date"@)
    } else if same_ignoring_case(name, "album_artist"@) {
        Some("albumartist"@)
    } else if same_ignoring_case(name, "track"@) {
        Some("tracknumber"@)
    } else if same_ignoring_case(name, "disc"@) {
        Some("discnumber"@)
    } else {
        None
    }
}

/// QuickTime keyed-metadata name -> canonical key (case-insensitive). Names that are
/// already canonical need no mapping.
pub fn mp4_keyed_to_key(name: &str) -> (r: Option<&'static str>)
    ensures
        gives(r, keyed_key(name@)),
{
    if equal_ignoring_case(name, "com.apple.quicktime.title") {
        Some("title")
    } else if equal_ignoring_case(name, "com.apple.quicktime.artist") {
        Some("artist")
    } else if equal_ignoring_case(name, "com.apple.quicktime.album") {
        Some("album")
    } else if equal_ignoring_case(name, "com.apple.quicktime.genre") {
        Some("genre")
    } else if equal_ignoring_case(name, "com.apple.quicktime.comment") {
        Some("comment")
    } else if equal_ignoring_case(name, "com.apple.quicktime.copyright") {
        Some("copyright")
    } else if equal_ignoring_case(name, "com.apple.quicktime.year") {
        Some("date")
    } else if equal_ignoring_case(name, "album_artist") {
        Some("albumartist")
    } else if equal_ignoring_case(name, "track") {
        Some("tracknumber")
    } else if equal_ignoring_case(name, "disc") {
        Some("discnumber")
    } else {
        None
    }
}

/// Vorbis field name -> canonical key (case-insensitive).
pub fn vorbis_to_key(field: &str) -> (r: Option<&'static str>)
    ensures
        gives(r, key_at(first(vorbis_is(field@)))),
{
    let mut i: usize = 0;
    while i < VOCAB_LEN
        invariant
            i <= VOCAB_LEN,
            first(vorbis_is(field@)) == first_from(vorbis_is(field@), i as int),
        decreases VOCAB_LEN - i,
    {
        let e = vocab_entry(i);
        if equal_ignoring_case(e.vorbis, field) {
            return Some(e.key);
        }
        i = i + 1;
    }
    None
}

/// The Vorbis field name of a key.
pub open spec fn vorbis_field_of(key: Seq<char>) -> Option<Seq<char>> {
    match entry_of(key) {
        Some(i) => Some(vocab(i).vorbis),
        None => None,
    }
}

/// Canonical key -> Vorbis field name (key matched case-insensitively).
pub fn key_to_vorbis(key: &str) -> (r: Option<&'static str>)
    ensures
        gives(r, vorbis_field_of(key@)),
{
    match find_entry(key) {
        Some(e) => Some(e.vorbis),
        None => None,
    }
}

} // verus!
