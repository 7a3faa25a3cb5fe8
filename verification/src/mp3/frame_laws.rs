//! Frames one by one: what each parsed frame gives, and what each tag is written as.

use crate::flac::picture_views;
use crate::flac::PictureModel;
use crate::id3v2::synchsafe_bytes;
use crate::input::EmbeddedPicture;
use crate::input::TagInput;
use crate::mp3::frames::comm_data;
use crate::mp3::frames::frame;
use crate::mp3::frames::group_frames;
use crate::mp3::frames::grouped_frames;
use crate::mp3::frames::is_id3_text_frame_id;
use crate::mp3::frames::joined;
use crate::mp3::frames::mbid_of;
use crate::mp3::frames::parsed_rating;
use crate::mp3::frames::playcount_of;
use crate::mp3::frames::popm_data;
use crate::mp3::frames::promoted_frames;
use crate::mp3::frames::rating_of;
use crate::mp3::frames::syncsafe;
use crate::mp3::frames::text_data;
use crate::mp3::frames::txxx_data;
use crate::mp3::frames::ID_TXXX;
use crate::mp3::frames::MUSICBRAINZ_UFID_OWNER;
use crate::mp3::read::frame_view;
use crate::mp3::read::frame_views;
use crate::mp3::read::nul_values;
use crate::mp3::read::pictures_of_frames;
use crate::mp3::read::tags_of_frames;
use crate::mp3::read::Id3Frame;
use crate::mp3::scan_laws::any_frame;
use crate::mp3::scan_laws::seven_bit_bytes;
use crate::mp4::value_laws::big_endian;
use crate::number_laws::are_digits;
use crate::number_laws::number_in;
use crate::slot_laws::code;
use crate::tagmap::id3_text_to_key;
use crate::tagmap::id3_txxx_to_key;
use crate::tagmap::key_to_id3;
use crate::tagmap::Id3Slot;
use crate::text::all_digits;
use crate::text::ascii_bytes;
use crate::text::parsed_number;
use crate::text::utf8;
use crate::text::utf8_concat;
use crate::vorbiscomment::pair_views;
use vstd::prelude::*;
use vstd::string::*;

verus! {

/// Four bytes of seven bits each hold the number.
pub proof fn sizes_are_written_in_seven_bits(n: u32, r: [u8; 4])
    requires
        call_ensures(syncsafe, (n,), r),
        n < 0x10000000,
    ensures
        r@ == seven_bit_bytes(n as int),
{
    assert(r@ =~= seven_bit_bytes(n as int));
}

/// A text frame id is `T` and three capital letters or digits, but not `TXXX`.
pub proof fn text_frame_ids_are_told(key: &str, r: bool)
    requires
        call_ensures(is_id3_text_frame_id, (key,), r),
    ensures
        r == (key@.len() == 4 && key@[0] == 'T' && key@ != "TXXX"@ && forall|i: int|
            0 <= i < 4 ==> 'A' <= #[trigger] key@[i] <= 'Z' || '0' <= key@[i] <= '9'),
{
    let k = key@;
    let b = utf8(k);
    reveal_strlit("TXXX");
    ascii_bytes("TXXX"@);
    assert(utf8("TXXX"@) =~= ID_TXXX@);
    crate::text::utf8_injective(k, "TXXX"@);
    if r {
        let t = Seq::new(4, |i: int| b[i] as char);
        assert forall|i: int| 0 <= i < 4 implies 0x30 <= #[trigger] b[i] <= 0x5a by {
            assert(crate::mp3::frames::is_id_byte(b[i]));
        }
        assert(vstd::utf8::is_ascii_chars(t));
        ascii_bytes(t);
        assert(utf8(t) =~= b);
        crate::text::utf8_injective(k, t);
        assert(k =~= t);
        assert(b[0] == 0x54);
        assert forall|i: int| 0 <= i < 4 implies 'A' <= #[trigger] k[i] <= 'Z' || '0' <= k[i]
            <= '9' by {
            assert(crate::mp3::frames::is_id_byte(b[i]));
        }
    }
    if k.len() == 4 && k[0] == 'T' && k != "TXXX"@ && (forall|i: int|
        0 <= i < 4 ==> 'A' <= #[trigger] k[i] <= 'Z' || '0' <= k[i] <= '9') {
        assert(vstd::utf8::is_ascii_chars(k)) by {
            assert forall|i: int| 0 <= i < k.len() implies '\0' <= #[trigger] k[i]
                <= '\u{7f}' by {}
        }
        ascii_bytes(k);
        assert forall|i: int| 0 <= i < 4 implies crate::mp3::frames::is_id_byte(
            #[trigger] b[i],
        ) by {
            assert('A' <= k[i] <= 'Z' || '0' <= k[i] <= '9');
            assert(b[i] == k[i] as u8);
        }
        assert(b[0] == k[0] as u8);
    }
}

/// Texts with a NUL between them.
pub open spec fn with_nuls(values: Seq<Seq<char>>) -> Seq<char>
    decreases values.len(),
{
    if values.len() == 0 {
        Seq::empty()
    } else if values.len() == 1 {
        values[0]
    } else {
        values[0] + seq!['\0'] + with_nuls(values.drop_first())
    }
}

/// The values between the NULs, but for empty ones.
proof fn values_between(values: Seq<Seq<char>>)
    requires
        forall|i: int| 0 <= i < values.len() ==> !(#[trigger] values[i]).contains('\0'),
    ensures
        nul_values(utf8(with_nuls(values))) == values.filter(|v: Seq<char>| v.len() > 0),
    decreases values.len(),
{
    reveal(Seq::filter);
    let full = |v: Seq<char>| v.len() > 0;
    let text = with_nuls(values);
    let b = utf8(text);
    if values.len() == 0 {
        assert(b.len() == 0);
        assert(nul_values(b) =~= values.filter(full));
    } else {
        let v = values[0];
        let u = utf8(v);
        crate::text::utf8_without_nul(v);
        vstd::utf8::encode_utf8_decode_utf8(v);
        assert(v.len() == 0 ==> u.len() == 0);
        assert(v.len() > 0 ==> u.len() > 0) by {
            if u.len() == 0 {
                crate::text::utf8_injective(v, Seq::empty());
            }
        }
        let rest = values.drop_first();
        assert forall|i: int| 0 <= i < rest.len() implies !(#[trigger] rest[i]).contains('\0') by {
            assert(rest[i] == values[i + 1]);
        }
        assert(values =~= seq![v] + rest);
        Seq::filter_distributes_over_add(seq![v], rest, full);
        assert(seq![v].drop_last() =~= Seq::empty());
        assert(seq![v].filter(full) =~= if v.len() > 0 {
            seq![v]
        } else {
            Seq::empty()
        }) by {
            reveal_with_fuel(Seq::filter, 2);
        }
        if values.len() == 1 {
            assert(rest =~= Seq::empty());
            assert(rest.filter(full) =~= Seq::empty());
            if u.len() > 0 {
                crate::bytes::find_byte_finds(b, 0, 0);
            }
            let n = crate::bytes::find_byte(b, 0, 0);
            crate::bytes::find_byte_finds(b, 0, 0);
            assert(n == b.len());
            assert(b.subrange(0, n) =~= b);
            assert(nul_values(b) =~= values.filter(full));
        } else {
            let nul = seq!['\0'];
            ascii_bytes(nul);
            assert(utf8(nul) =~= seq![0u8]);
            utf8_concat(v, nul);
            utf8_concat(v + nul, with_nuls(rest));
            let tail = utf8(with_nuls(rest));
            assert(b =~= u + seq![0u8] + tail);
            let n = u.len() as int;
            assert forall|k: int| 0 <= k < n implies b[k] != 0 by {
                assert(b[k] == u[k]);
            }
            crate::bytes::find_byte_is(b, 0, 0, n);
            assert(b.subrange(0, n) =~= u);
            assert(b.subrange(n + 1, b.len() as int) =~= tail);
            values_between(rest);
            assert(nul_values(b) =~= values.filter(full));
        }
    }
}

/// One more parsed frame: a `TXXX` frame adds its value under its description, or the
/// canonical key that the description names; a comment and lyrics add their text; a text
/// frame adds each of its values that is not empty, under the canonical key of its id or the
/// id itself; any other adds nothing.
pub proof fn each_frame_adds_its_pairs(
    before: &Vec<Id3Frame>,
    after: &Vec<Id3Frame>,
    f: Id3Frame,
    b: Vec<(String, String)>,
    a: Vec<(String, String)>,
)
    requires
        after@ == before@.push(f),
        call_ensures(tags_of_frames, (before,), b),
        call_ensures(tags_of_frames, (after,), a),
    ensures
        match f {
            Id3Frame::ExtendedText { description, value } => forall|d: &str, k: Option<&'static str>|
                d@ == description@ && #[trigger] call_ensures(id3_txxx_to_key, (d,), k)
                    ==> pair_views(a@) == pair_views(b@).push(
                    (
                        match k {
                            Some(key) => key@,
                            None => d@,
                        },
                        value@,
                    ),
                ),
            Id3Frame::Comment { text } => pair_views(a@) == pair_views(b@).push(
                ("comment"@, text@),
            ),
            Id3Frame::Lyrics { text } => pair_views(a@) == pair_views(b@).push(("lyrics"@, text@)),
            Id3Frame::Text { .. } => true,
            _ => pair_views(a@) == pair_views(b@),
        },
{
    let all = frame_views(after@);
    assert(all.drop_last() =~= frame_views(before@));
    assert(all.last() == frame_view(f));
    let none = Seq::<(Seq<char>, Seq<char>)>::empty();
    assert(pair_views(b@) + none =~= pair_views(b@));
    assert(forall|p: (Seq<char>, Seq<char>)|
        #[trigger] (pair_views(b@) + seq![p]) =~= pair_views(b@).push(p));
}

/// A text frame adds each of its values that is not empty.
pub proof fn each_value_of_a_text_frame_is_added(
    before: &Vec<Id3Frame>,
    after: &Vec<Id3Frame>,
    id: String,
    text: String,
    name: &str,
    key: Option<&'static str>,
    values: Seq<Seq<char>>,
    b: Vec<(String, String)>,
    a: Vec<(String, String)>,
)
    requires
        after@ == before@.push(Id3Frame::Text { id, text }),
        name@ == id@,
        call_ensures(id3_text_to_key, (name,), key),
        forall|i: int| 0 <= i < values.len() ==> !(#[trigger] values[i]).contains('\0'),
        text@ == with_nuls(values),
        call_ensures(tags_of_frames, (before,), b),
        call_ensures(tags_of_frames, (after,), a),
    ensures
        pair_views(a@) == pair_views(b@) + values.filter(|v: Seq<char>| v.len() > 0).map_values(
            |v: Seq<char>|
                (
                    match key {
                        Some(k) => k@,
                        None => id@,
                    },
                    v,
                ),
        ),
{
    let f = Id3Frame::Text { id, text };
    let all = frame_views(after@);
    assert(all.drop_last() =~= frame_views(before@));
    assert(all.last() == frame_view(f));
    values_between(values);
    let k = match key {
        Some(k) => k@,
        None => id@,
    };
    let full = values.filter(|v: Seq<char>| v.len() > 0);
    assert(crate::mp3::read::keyed_values(k, full) =~= full.map_values(
        |v: Seq<char>|
            (
                match key {
                    Some(k) => k@,
                    None => id@,
                },
                v,
            ),
    ));
}

/// One more parsed frame: a picture is added as it is, its type counted as "Other" where it is
/// over 20; any other frame adds no picture. Without frames there is nothing.
pub proof fn each_picture_frame_is_added(
    before: &Vec<Id3Frame>,
    after: &Vec<Id3Frame>,
    f: Id3Frame,
    b: Vec<EmbeddedPicture>,
    a: Vec<EmbeddedPicture>,
)
    requires
        after@ == before@.push(f),
        call_ensures(pictures_of_frames, (before,), b),
        call_ensures(pictures_of_frames, (after,), a),
    ensures
        picture_views(a@) == match f {
            Id3Frame::Picture { mime, picture_type, description, data } => picture_views(b@).push(
                PictureModel {
                    mime: mime@,
                    picture_type: if picture_type <= 20 {
                        picture_type as int
                    } else {
                        0
                    },
                    description: description@,
                    width: 0,
                    height: 0,
                    data: data@,
                },
            ),
            _ => picture_views(b@),
        },
        before@.len() == 0 ==> b@.len() == 0,
{
    let all = frame_views(after@);
    assert(all.drop_last() =~= frame_views(before@));
    assert(all.last() == frame_view(f));
    assert(picture_views(b@).len() == b@.len());
}

/// Text that stands for a number: digits, at least one, with a plus sign in front or without.
pub open spec fn stands_for(value: Seq<char>, n: int) -> bool {
    ||| value.len() > 0 && are_digits(value) && number_in(value) == n
    ||| value.len() > 1 && value[0] == '+' && are_digits(value.skip(1)) && number_in(value.skip(1))
        == n
}

proof fn digits_in_bytes(s: Seq<char>)
    requires
        are_digits(s),
    ensures
        utf8(s) == Seq::new(s.len(), |i: int| s[i] as u8),
        all_digits(utf8(s)),
        crate::text::digits_value(utf8(s)) == number_in(s),
{
    assert(vstd::utf8::is_ascii_chars(s)) by {
        assert forall|i: int| 0 <= i < s.len() implies '\0' <= #[trigger] s[i] <= '\u{7f}' by {
            assert('0' <= s[i] <= '9');
        }
    }
    ascii_bytes(s);
    crate::number_laws::digits_as_bytes(s);
    assert forall|i: int| 0 <= i < utf8(s).len() implies 0x30 <= #[trigger] utf8(s)[i] <= 0x39 by {
        assert('0' <= s[i] <= '9');
    }
}

proof fn digit_bytes_are_digits(b: Seq<u8>, s: Seq<char>)
    requires
        all_digits(b),
        b == utf8(s),
    ensures
        are_digits(s),
        s.len() == b.len(),
{
    let t = Seq::new(b.len(), |i: int| b[i] as char);
    assert(vstd::utf8::is_ascii_chars(t)) by {
        assert forall|i: int| 0 <= i < t.len() implies '\0' <= #[trigger] t[i] <= '\u{7f}' by {
            assert(0x30 <= b[i] <= 0x39);
        }
    }
    ascii_bytes(t);
    assert(utf8(t) =~= b);
    crate::text::utf8_injective(s, t);
    assert forall|i: int| 0 <= i < s.len() implies '0' <= #[trigger] s[i] <= '9' by {
        assert(0x30 <= b[i] <= 0x39);
    }
}

/// What text stands for is what is parsed of it.
pub(crate) proof fn number_of_text(value: Seq<char>, n: int)
    ensures
        stands_for(value, n) == (parsed_number(utf8(value)) == Some(n)),
{
    let b = utf8(value);
    let plus = seq!['+'];
    ascii_bytes(plus);
    assert(utf8(plus) =~= seq![0x2bu8]);
    if value.len() > 0 && are_digits(value) {
        digits_in_bytes(value);
        assert('0' <= value[0] <= '9');
        assert(b[0] == value[0] as u8);
    }
    if value.len() > 1 && value[0] == '+' && are_digits(value.skip(1)) {
        let rest = value.skip(1);
        digits_in_bytes(rest);
        assert(value =~= plus + rest);
        utf8_concat(plus, rest);
        assert(b.skip(1) =~= utf8(rest));
    }
    if parsed_number(b) is Some {
        if b.len() > 0 && b[0] == 0x2b {
            vstd::utf8::encode_utf8_valid_utf8(value);
            crate::text::utf8_splits_at_ascii(b, 0);
            let back = b.subrange(1, b.len() as int);
            assert(back =~= b.skip(1));
            let rest = vstd::utf8::decode_utf8(back);
            vstd::utf8::decode_utf8_encode_utf8(back);
            utf8_concat(plus, rest);
            assert(utf8(plus + rest) =~= b);
            crate::text::utf8_injective(plus + rest, value);
            digit_bytes_are_digits(b.skip(1), rest);
            assert(value.skip(1) =~= rest);
            digits_in_bytes(rest);
            if are_digits(value) {
                assert('0' <= value[0]);
            }
        } else {
            digit_bytes_are_digits(b, value);
            digits_in_bytes(value);
            assert('0' <= value[0] <= '9');
        }
    }
}

/// The tag is a rating that can be read: a number of one byte.
pub open spec fn is_rating(t: TagInput, n: int) -> bool {
    t.key@ == "rating"@ && stands_for(t.value@, n) && n <= 255
}

/// The tag is a play count that can be read: a number of 64 bits.
pub open spec fn is_playcount(t: TagInput, n: int) -> bool {
    t.key@ == "playcount"@ && stands_for(t.value@, n) && n <= u64::MAX
}

/// The first rating that can be read is `n`.
pub open spec fn first_rating(tags: Seq<TagInput>, i: int, n: int) -> bool {
    &&& 0 <= i < tags.len()
    &&& is_rating(tags[i], n)
    &&& forall|j: int, m: int| 0 <= j < i ==> !#[trigger] is_rating(tags[j], m)
}

/// The last play count that can be read is `n`.
pub open spec fn last_playcount(tags: Seq<TagInput>, i: int, n: int) -> bool {
    &&& 0 <= i < tags.len()
    &&& is_playcount(tags[i], n)
    &&& forall|j: int, m: int| i < j < tags.len() ==> !#[trigger] is_playcount(tags[j], m)
}

/// The first track id is at `i`.
pub open spec fn first_track_id(tags: Seq<TagInput>, i: int) -> bool {
    &&& 0 <= i < tags.len()
    &&& tags[i].key@ == "musicbrainz_trackid"@
    &&& forall|j: int| 0 <= j < i ==> (#[trigger] tags[j]).key@ != "musicbrainz_trackid"@
}

/// The rating that is written is one that stands there, and the first.
proof fn rating_found(tags: Seq<TagInput>) -> (i: int)
    ensures
        match rating_of(tags) {
            Some(n) => first_rating(tags, i, n),
            None => forall|j: int, m: int|
                0 <= j < tags.len() ==> !#[trigger] is_rating(tags[j], m),
        },
    decreases tags.len(),
{
    if tags.len() == 0 {
        0
    } else {
        let front = tags.drop_last();
        let last = tags.len() - 1;
        let t = tags.last();
        let i = rating_found(front);
        assert forall|m: int| #[trigger] is_rating(t, m) == (t.key@ == "rating"@ && parsed_rating(
            t.value@,
        ) == Some(m)) by {
            number_of_text(t.value@, m);
        }
        match rating_of(front) {
            Some(n) => {
                assert(is_rating(front[i], n));
                assert forall|j: int, m: int| 0 <= j < i implies !#[trigger] is_rating(
                    tags[j],
                    m,
                ) by {
                    assert(!is_rating(front[j], m));
                }
                i
            },
            None => {
                assert forall|j: int, m: int| 0 <= j < last implies !#[trigger] is_rating(
                    tags[j],
                    m,
                ) by {
                    assert(!is_rating(front[j], m));
                }
                if let Some(n) = rating_of(tags) {
                    assert(is_rating(t, n));
                }
                last
            },
        }
    }
}

/// The play count that is written is one that stands there, and the last.
proof fn playcount_found(tags: Seq<TagInput>) -> (i: int)
    ensures
        last_playcount(tags, i, playcount_of(tags)) || (playcount_of(tags) == 0 && forall|
            j: int,
            m: int,
        |
            0 <= j < tags.len() ==> !#[trigger] is_playcount(tags[j], m)),
    decreases tags.len(),
{
    if tags.len() == 0 {
        0
    } else {
        let front = tags.drop_last();
        let last = tags.len() - 1;
        let t = tags.last();
        let i = playcount_found(front);
        let n = parsed_number(utf8(t.value@));
        assert forall|m: int| #[trigger] is_playcount(t, m) == (t.key@ == "playcount"@ && n == Some(
            m,
        ) && m <= u64::MAX) by {
            number_of_text(t.value@, m);
        }
        if t.key@ == "playcount"@ && n is Some && n->0 <= u64::MAX {
            assert(is_playcount(tags[last], n->0));
            last
        } else {
            assert forall|m: int| !#[trigger] is_playcount(tags[last], m) by {}
            assert forall|j: int, m: int| 0 <= j < last implies #[trigger] is_playcount(tags[j], m)
                == is_playcount(front[j], m) by {}
            i
        }
    }
}

/// The track id that is written is the first.
proof fn track_id_found(tags: Seq<TagInput>) -> (i: int)
    ensures
        match mbid_of(tags) {
            Some(m) => first_track_id(tags, i) && m == tags[i].value@,
            None => forall|j: int|
                0 <= j < tags.len() ==> (#[trigger] tags[j]).key@ != "musicbrainz_trackid"@,
        },
    decreases tags.len(),
{
    if tags.len() == 0 {
        0
    } else {
        let front = tags.drop_last();
        let last = tags.len() - 1;
        let i = track_id_found(front);
        assert forall|j: int| 0 <= j < last implies (#[trigger] tags[j]).key@ == front[j].key@ by {}
        if mbid_of(front) is Some {
            i
        } else {
            last
        }
    }
}

/// Of several ratings the first that can be read is written, and none where none can be.
pub proof fn first_rating_is_written(tags: Seq<TagInput>, i: int, n: int)
    ensures
        first_rating(tags, i, n) ==> rating_of(tags) == Some(n),
        (forall|j: int, m: int| 0 <= j < tags.len() ==> !#[trigger] is_rating(tags[j], m))
            ==> rating_of(tags) is None,
{
    let k = rating_found(tags);
    if first_rating(tags, i, n) {
        assert(is_rating(tags[i], n));
        let m = rating_of(tags)->0;
        if k < i {
            assert(!is_rating(tags[k], m));
        }
        if i < k {
            assert(!is_rating(tags[i], n));
        }
        number_of_text(tags[i].value@, n);
        number_of_text(tags[i].value@, m);
    }
}

/// Of several play counts the last that can be read is written, and zero where none can be.
pub proof fn last_playcount_is_written(tags: Seq<TagInput>, i: int, n: int)
    ensures
        last_playcount(tags, i, n) ==> playcount_of(tags) == n,
        (forall|j: int, m: int| 0 <= j < tags.len() ==> !#[trigger] is_playcount(tags[j], m))
            ==> playcount_of(tags) == 0,
{
    let k = playcount_found(tags);
    let m = playcount_of(tags);
    if last_playcount(tags, i, n) {
        assert(is_playcount(tags[i], n));
        if k < i {
            assert(!is_playcount(tags[i], n));
        }
        if i < k {
            assert(!is_playcount(tags[k], m));
        }
        number_of_text(tags[i].value@, n);
        number_of_text(tags[i].value@, m);
    }
    if last_playcount(tags, k, m) {
        assert(is_playcount(tags[k], m));
    }
}

/// Of several track ids the first is written.
pub proof fn first_track_id_is_written(tags: Seq<TagInput>, i: int)
    ensures
        first_track_id(tags, i) ==> mbid_of(tags) == Some(tags[i].value@),
        (forall|j: int|
            0 <= j < tags.len() ==> (#[trigger] tags[j]).key@ != "musicbrainz_trackid"@)
            ==> mbid_of(tags) is None,
{
    let k = track_id_found(tags);
    if first_track_id(tags, i) {
        assert(tags[i].key@ == "musicbrainz_trackid"@);
        if k < i {
            assert(tags[k].key@ != "musicbrainz_trackid"@);
        }
        if i < k {
            assert(tags[i].key@ != "musicbrainz_trackid"@);
        }
    }
}

pub(crate) proof fn frame_written(id: Seq<u8>, data: Seq<u8>)
    requires
        data.len() < 0x10000000,
    ensures
        frame(id, data) == any_frame(4, (id, data)),
{
    assert(synchsafe_bytes(data.len() as int) =~= seven_bit_bytes(data.len() as int));
    assert(frame(id, data) =~= any_frame(4, (id, data)));
}

/// The promoted frames: a rating with an empty owner, its counter in four bytes where it is
/// not zero, and no more than they hold; a MusicBrainz id. A play count alone is not written.
pub proof fn promoted_frames_are_written(tags: Seq<TagInput>, id: Seq<char>)
    requires
        utf8(id).len() < 0x1000000,
        mbid_of(tags) is Some ==> mbid_of(tags) == Some(id),
    ensures
        promoted_frames(tags) == (match rating_of(tags) {
            Some(n) => any_frame(
                4,
                (
                    code("POPM"@),
                    seq![0u8, n as u8] + if playcount_of(tags) > 0xffffffff {
                        seq![255u8, 255u8, 255u8, 255u8]
                    } else if playcount_of(tags) > 0 {
                        big_endian(playcount_of(tags), 4)
                    } else {
                        Seq::empty()
                    },
                ),
            ),
            None => Seq::empty(),
        }) + (match mbid_of(tags) {
            Some(_) => any_frame(
                4,
                (code("UFID"@), utf8("http://musicbrainz.org"@) + seq![0u8] + utf8(id)),
            ),
            None => Seq::empty(),
        }),
{
    reveal_strlit("POPM");
    reveal_strlit("UFID");
    reveal_strlit("http://musicbrainz.org");
    ascii_bytes(MUSICBRAINZ_UFID_OWNER@);
    assert(code("POPM"@) =~= crate::mp3::frames::ID_POPM@);
    assert(code("UFID"@) =~= crate::mp3::frames::ID_UFID@);
    let n = playcount_of(tags);
    if let Some(r) = rating_of(tags) {
        reveal_with_fuel(big_endian, 5);
        assert(n > 0 && n <= 0xffffffff ==> big_endian(n, 4) =~= seq![
            (n / 256 / 256 / 256 % 256) as u8,
            (n / 256 / 256 % 256) as u8,
            (n / 256 % 256) as u8,
            (n % 256) as u8,
        ]);
        let data = popm_data(r as u8, n);
        assert(data =~= seq![0u8, r as u8] + if n > 0xffffffff {
            seq![255u8, 255u8, 255u8, 255u8]
        } else if n > 0 {
            big_endian(n, 4)
        } else {
            Seq::empty()
        });
        frame_written(code("POPM"@), data);
    }
    if mbid_of(tags) is Some {
        frame_written(
            code("UFID"@),
            utf8("http://musicbrainz.org"@) + seq![0u8] + utf8(id),
        );
    }
}

proof fn joined_texts(values: Seq<Seq<char>>)
    ensures
        joined(values) == utf8(with_nuls(values)),
    decreases values.len(),
{
    if values.len() > 1 {
        let front = values.drop_last();
        joined_texts(front);
        nuls_push(front, values.last());
        assert(front.push(values.last()) =~= values);
        let nul = seq!['\0'];
        ascii_bytes(nul);
        assert(utf8(nul) =~= seq![0u8]);
        utf8_concat(with_nuls(front), nul);
        utf8_concat(with_nuls(front) + nul, values.last());
        assert(joined(values) =~= utf8(with_nuls(values)));
    }
}

proof fn nuls_push(front: Seq<Seq<char>>, last: Seq<char>)
    requires
        front.len() > 0,
    ensures
        with_nuls(front.push(last)) == with_nuls(front) + seq!['\0'] + last,
    decreases front.len(),
{
    let all = front.push(last);
    reveal_with_fuel(with_nuls, 2);
    assert(all.drop_first() =~= front.drop_first().push(last));
    if front.len() > 1 {
        nuls_push(front.drop_first(), last);
    } else {
        assert(front.drop_first().push(last) =~= seq![last]);
    }
    assert(with_nuls(all) =~= with_nuls(front) + seq!['\0'] + last);
}

/// One group of values is written by the place of its key: a text frame, of the canonical id
/// or of the key itself where it is an id, holds all the values with NULs between them; a
/// comment and lyrics, in the unknown language and without a description, have a frame for each
/// value, and so has everything else, with the key or its canonical name for a description.
/// Groups are written in order.
pub proof fn groups_are_written(
    key: &str,
    slot: Option<Id3Slot>,
    text_id: bool,
    front: Seq<(Seq<char>, Seq<Seq<char>>)>,
    values: Seq<Seq<char>>,
    last: Seq<char>,
)
    requires
        call_ensures(key_to_id3, (key,), slot),
        call_ensures(is_id3_text_frame_id, (key,), text_id),
        utf8(with_nuls(values)).len() < 0x1000000,
        utf8(last).len() < 0x1000000,
        utf8(key@).len() < 0x1000000,
    ensures
        grouped_frames(front.push((key@, values))) == grouped_frames(front) + group_frames(
            key@,
            values,
        ),
        match slot {
            Some(Id3Slot::Text(id)) => group_frames(key@, values) == any_frame(
                4,
                (id@, seq![3u8] + utf8(with_nuls(values))),
            ),
            Some(Id3Slot::Txxx(d)) => utf8(d@).len() < 0x1000000 ==> group_frames(
                key@,
                values.push(last),
            ) == group_frames(key@, values) + any_frame(
                4,
                (code("TXXX"@), seq![3u8] + utf8(d@) + seq![0u8] + utf8(last)),
            ),
            Some(Id3Slot::Comment) => group_frames(key@, values.push(last)) == group_frames(
                key@,
                values,
            ) + any_frame(
                4,
                (code("COMM"@), seq![3u8] + code("XXX"@) + seq![0u8] + utf8(last)),
            ),
            Some(Id3Slot::Lyrics) => group_frames(key@, values.push(last)) == group_frames(
                key@,
                values,
            ) + any_frame(
                4,
                (code("USLT"@), seq![3u8] + code("XXX"@) + seq![0u8] + utf8(last)),
            ),
            None => if text_id {
                group_frames(key@, values) == any_frame(
                    4,
                    (utf8(key@), seq![3u8] + utf8(with_nuls(values))),
                )
            } else {
                group_frames(key@, values.push(last)) == group_frames(key@, values) + any_frame(
                    4,
                    (code("TXXX"@), seq![3u8] + utf8(key@) + seq![0u8] + utf8(last)),
                )
            },
        },
        !(slot matches Some(Id3Slot::Text(_))) && !(slot is None && text_id) ==> group_frames(
            key@,
            Seq::empty(),
        ).len() == 0,
{
    let more = front.push((key@, values));
    assert(more.drop_last() =~= front);
    joined_texts(values);
    reveal_strlit("TXXX");
    reveal_strlit("COMM");
    reveal_strlit("USLT");
    reveal_strlit("XXX");
    assert(code("TXXX"@) =~= ID_TXXX@);
    assert(code("COMM"@) =~= crate::mp3::frames::ID_COMM@);
    assert(code("USLT"@) =~= crate::mp3::frames::ID_USLT@);
    assert(code("XXX"@) =~= seq![0x58u8, 0x58u8, 0x58u8]);
    assert(values.push(last).drop_last() =~= values);
    let c = seq![3u8] + code("XXX"@) + seq![0u8] + utf8(last);
    assert(comm_data(last) =~= c);
    frame_written(code("COMM"@), c);
    frame_written(code("USLT"@), c);
    let d = match slot {
        Some(Id3Slot::Txxx(d)) => d@,
        _ => key@,
    };
    if utf8(d).len() < 0x1000000 {
        let x = seq![3u8] + utf8(d) + seq![0u8] + utf8(last);
        assert(txxx_data(d, last) =~= x);
        frame_written(code("TXXX"@), x);
    }
    let t = seq![3u8] + utf8(with_nuls(values));
    assert(text_data(values) =~= t);
    frame_written(utf8(key@), t);
    if let Some(Id3Slot::Text(id)) = slot {
        frame_written(id@, t);
    }
}

} // verus!
