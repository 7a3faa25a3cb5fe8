//! The regenerated ID3v2.4 tag: its frames, and the layout of a synthesized MP3.

use crate::bytes::append;
use crate::bytes::be32_bytes;
use crate::bytes::byte_of;
use crate::bytes::push_u32_be;
use crate::error::FormatError;
use crate::error::Result;
use crate::groups::group_tags;
use crate::groups::group_views;
use crate::groups::groups_of;
use crate::groups::texts;
use crate::groups::Group;
use crate::id3v2::synchsafe_bytes;
use crate::input::ArtInput;
use crate::input::BinaryTagInput;
use crate::input::BlobLen;
use crate::input::TagInput;
use crate::layout::draft_bytes;
use crate::layout::draft_bytes_add_up;
use crate::layout::drafted;
use crate::layout::empty_draft;
use crate::layout::layout_fault;
use crate::layout::push_segment;
use crate::layout::seg_views;
use crate::layout::total_bytes;
use crate::layout::with_bytes;
use crate::layout::with_stream;
use crate::layout::Draft;
use crate::layout::DraftModel;
use crate::layout::RegionLayout;
use crate::layout::SegView;
use crate::layout::Segment;
use crate::tagmap::id3_slot_of;
use crate::tagmap::key_to_id3;
use crate::tagmap::Id3Model;
use crate::tagmap::Id3Slot;
use crate::text::parse_number;
use crate::text::parsed_number;
use crate::text::same_text;
use crate::text::utf8;
use vstd::prelude::*;
use vstd::string::*;

verus! {

/// The encoding byte for UTF-8.
pub const ENC_UTF8: u8 = 0x03;

/// The largest size a 28-bit synchsafe field can hold.
pub const MAX_SYNCHSAFE: u64 = 0x0FFF_FFFF;

/// The owner of a MusicBrainz `UFID` frame.
pub const MUSICBRAINZ_UFID_OWNER: &'static str = "http://musicbrainz.org";

/// `TXXX`.
pub const ID_TXXX: [u8; 4] = [0x54, 0x58, 0x58, 0x58];

/// `COMM`.
pub const ID_COMM: [u8; 4] = [0x43, 0x4f, 0x4d, 0x4d];

/// `USLT`.
pub const ID_USLT: [u8; 4] = [0x55, 0x53, 0x4c, 0x54];

/// `POPM`.
pub const ID_POPM: [u8; 4] = [0x50, 0x4f, 0x50, 0x4d];

/// `UFID`.
pub const ID_UFID: [u8; 4] = [0x55, 0x46, 0x49, 0x44];

/// `APIC`.
pub const ID_APIC: [u8; 4] = [0x41, 0x50, 0x49, 0x43];

/// A 28-bit value as four synchsafe bytes.
pub fn syncsafe(n: u32) -> (r: [u8; 4])
    ensures
        r@ == synchsafe_bytes(n as int),
{
    let r: [u8; 4] = [
        ((n / 0x20_0000) % 0x80) as u8,
        ((n / 0x4000) % 0x80) as u8,
        ((n / 0x80) % 0x80) as u8,
        (n % 0x80) as u8,
    ];
    assert(r@ =~= synchsafe_bytes(n as int));
    r
}

/// The header of a frame: id, synchsafe size, no flags.
pub open spec fn frame_header(id: Seq<u8>, len: int) -> Seq<u8> {
    id + synchsafe_bytes(len) + seq![0u8, 0u8]
}

/// A whole frame.
pub open spec fn frame(id: Seq<u8>, data: Seq<u8>) -> Seq<u8> {
    frame_header(id, data.len() as int) + data
}

/// Append a frame header. ID3v2.4 frame sizes are a 28-bit syncsafe field; an oversized
/// frame is a hard error rather than a silently-truncated (corrupt) tag.
pub fn push_frame_header(out: &mut Vec<u8>, id: &[u8; 4], data_len: usize) -> (r: Result<()>)
    ensures
        match r {
            Ok(_) => data_len <= MAX_SYNCHSAFE && final(out)@ == old(out)@ + frame_header(
                id@,
                data_len as int,
            ),
            Err(e) => e == FormatError::TooLarge && data_len > MAX_SYNCHSAFE && final(out)@
                == old(out)@,
        },
{
    if data_len as u64 > MAX_SYNCHSAFE {
        return Err(FormatError::TooLarge);
    }
    append(out, id.as_slice());
    append(out, syncsafe(data_len as u32).as_slice());
    out.push(0x00);
    out.push(0x00);
    assert(out@ =~= old(out)@ + frame_header(id@, data_len as int));
    Ok(())
}

/// Append a whole frame.
fn push_frame(out: &mut Vec<u8>, id: &[u8; 4], data: &[u8]) -> (r: Result<()>)
    ensures
        match r {
            Ok(_) => final(out)@ == old(out)@ + frame(id@, data@),
            Err(e) => e == FormatError::TooLarge && data@.len() > MAX_SYNCHSAFE,
        },
{
    match push_frame_header(out, id, data.len()) {
        Ok(_) => {
            append(out, data);
            assert(out@ =~= old(out)@ + frame(id@, data@));
            Ok(())
        },
        Err(e) => Err(e),
    }
}

/// Values joined with a zero byte between them.
pub open spec fn joined(values: Seq<Seq<char>>) -> Seq<u8>
    decreases values.len(),
{
    if values.len() == 0 {
        Seq::empty()
    } else if values.len() == 1 {
        utf8(values[0])
    } else {
        joined(values.drop_last()).push(0u8) + utf8(values.last())
    }
}

/// The body of a text frame.
pub open spec fn text_data(values: Seq<Seq<char>>) -> Seq<u8> {
    seq![ENC_UTF8] + joined(values)
}

/// The body of a `TXXX` frame.
pub open spec fn txxx_data(desc: Seq<char>, value: Seq<char>) -> Seq<u8> {
    seq![ENC_UTF8] + utf8(desc) + seq![0u8] + utf8(value)
}

/// The body of a `COMM` or `USLT` frame: unknown language, empty descriptor.
pub open spec fn comm_data(value: Seq<char>) -> Seq<u8> {
    seq![ENC_UTF8, 0x58u8, 0x58u8, 0x58u8, 0u8] + utf8(value)
}

/// The body of a text frame: the values, separated by zero bytes.
fn text_frame_data(values: &Vec<String>) -> (r: Vec<u8>)
    ensures
        r@ == text_data(texts(values@)),
{
    let ghost all = texts(values@);
    let mut d: Vec<u8> = Vec::new();
    d.push(ENC_UTF8);
    let mut i: usize = 0;
    assert(d@ =~= seq![ENC_UTF8] + joined(all.take(0)));
    while i < values.len()
        invariant
            i <= values@.len(),
            all == texts(values@),
            d@ == seq![ENC_UTF8] + joined(all.take(i as int)),
        decreases values@.len() - i,
    {
        assert(all.take(i + 1).drop_last() =~= all.take(i as int));
        assert(all.take(i + 1).last() == values@[i as int]@);
        if i > 0 {
            d.push(0x00);
        }
        append(&mut d, values[i].as_str().as_bytes());
        assert(d@ =~= seq![ENC_UTF8] + joined(all.take(i + 1)));
        i = i + 1;
    }
    assert(all.take(i as int) =~= all);
    d
}

/// The body of a `TXXX` frame.
fn txxx_frame_data(desc: &str, value: &str) -> (r: Vec<u8>)
    ensures
        r@ == txxx_data(desc@, value@),
{
    let mut d: Vec<u8> = Vec::new();
    d.push(ENC_UTF8);
    append(&mut d, desc.as_bytes());
    d.push(0x00);
    append(&mut d, value.as_bytes());
    assert(d@ =~= txxx_data(desc@, value@));
    d
}

/// COMM/USLT share a body layout: `[enc][lang(3)][descriptor NUL][text]`. We
/// write UTF-8 with an unknown language (`XXX`) and empty descriptor; the
/// original language code and descriptor are not preserved on round-trip.
fn comm_like_frame_data(value: &str) -> (r: Vec<u8>)
    ensures
        r@ == comm_data(value@),
{
    let mut d: Vec<u8> = Vec::new();
    d.push(ENC_UTF8);
    d.push(0x58);
    d.push(0x58);
    d.push(0x58);
    d.push(0x00);
    append(&mut d, value.as_bytes());
    assert(d@ =~= comm_data(value@));
    d
}

/// Upper-case ASCII letter or digit.
pub open spec fn is_id_byte(b: u8) -> bool {
    0x41 <= b <= 0x5a || 0x30 <= b <= 0x39
}

/// A standard text frame id: `T` and three upper-case letters or digits, not `TXXX`.
pub open spec fn text_frame_id(key: Seq<u8>) -> bool {
    &&& key.len() == 4
    &&& key != ID_TXXX@
    &&& key[0] == 0x54
    &&& forall|i: int| 0 <= i < 4 ==> is_id_byte(#[trigger] key[i])
}

/// True if `key` is shaped like an ID3v2 text frame id (`T` + 3 upper/digit),
/// excluding `TXXX` itself. Used to round-trip unmapped standard text frames.
pub fn is_id3_text_frame_id(key: &str) -> (r: bool)
    ensures
        r == text_frame_id(utf8(key@)),
{
    let b = key.as_bytes();
    if b.len() != 4 {
        return false;
    }
    if crate::bytes::same_bytes(b, ID_TXXX.as_slice()) {
        return false;
    }
    if b[0] != 0x54 {
        return false;
    }
    let mut i: usize = 0;
    while i < 4
        invariant
            i <= 4,
            b@.len() == 4,
            b@ == utf8(key@),
            forall|k: int| 0 <= k < i ==> is_id_byte(#[trigger] b@[k]),
        decreases 4 - i,
    {
        let x: u8 = b[i];
        if !((0x41 <= x && x <= 0x5a) || (0x30 <= x && x <= 0x39)) {
            assert(!is_id_byte(b@[i as int]));
            return false;
        }
        i = i + 1;
    }
    true
}

/// The body of an `APIC` frame up to (but excluding) the image bytes.
pub open spec fn apic_head(art: ArtInput) -> Seq<u8> {
    seq![ENC_UTF8] + utf8(art.mime@) + seq![0u8, byte_of(art.picture_type as int, 0)] + utf8(
        art.description@,
    ) + seq![0u8]
}

/// APIC frame data up to (but excluding) the image bytes:
/// `[encoding][mime\0][picture type][description\0]`.
fn apic_framing(art: &ArtInput) -> (r: Vec<u8>)
    ensures
        r@ == apic_head(*art),
{
    let mut d: Vec<u8> = Vec::new();
    d.push(ENC_UTF8);
    append(&mut d, art.mime.as_str().as_bytes());
    d.push(0x00);
    d.push((art.picture_type % 0x100) as u8);
    append(&mut d, art.description.as_str().as_bytes());
    d.push(0x00);
    assert(d@ =~= apic_head(*art));
    d
}

/// The body of a `POPM` frame: empty owner, rating, and a play count that is left out when
/// it is 0 and clamped to 32 bits.
pub open spec fn popm_data(rating: u8, playcount: int) -> Seq<u8> {
    seq![0u8, rating] + if playcount > 0 {
        be32_bytes(
            if playcount > u32::MAX {
                u32::MAX as int
            } else {
                playcount
            },
        )
    } else {
        Seq::empty()
    }
}

/// POPM body: `<owner>\0<rating:u8>[<counter: 4-byte big-endian>]`. Owner is empty
/// by design (the original tagger identity is dropped). The counter is
/// emitted as 4 bytes when `playcount > 0` and omitted when 0; values above
/// `u32::MAX` are clamped.
fn popm_frame_data(rating: u8, playcount: u64) -> (r: Vec<u8>)
    ensures
        r@ == popm_data(rating, playcount as int),
{
    let mut d: Vec<u8> = Vec::new();
    d.push(0x00);
    d.push(rating);
    if playcount > 0 {
        let c: u32 = if playcount > 0xffff_ffff {
            0xffff_ffff
        } else {
            playcount as u32
        };
        push_u32_be(&mut d, c);
    }
    assert(d@ =~= popm_data(rating, playcount as int));
    d
}

/// The body of a `UFID` frame: `<owner>\0<identifier bytes>`.
pub open spec fn ufid_data(owner: Seq<char>, identifier: Seq<u8>) -> Seq<u8> {
    utf8(owner) + seq![0u8] + identifier
}

/// UFID body: `<owner>\0<identifier bytes>`.
fn ufid_frame_data(owner: &str, identifier: &[u8]) -> (r: Vec<u8>)
    ensures
        r@ == ufid_data(owner@, identifier@),
{
    let mut d: Vec<u8> = Vec::new();
    append(&mut d, owner.as_bytes());
    d.push(0x00);
    append(&mut d, identifier);
    assert(d@ =~= ufid_data(owner@, identifier@));
    d
}

/// The keys that are rebuilt as POPM/UFID frames.
pub open spec fn promoted_key(key: Seq<char>) -> bool {
    key == "rating"@ || key == "playcount"@ || key == "musicbrainz_trackid"@
}

/// True for the canonical text keys that are rebuilt as POPM/UFID frames and must
/// therefore be excluded from the generic text/TXXX emission (no double-store).
pub(crate) fn is_promoted_key(key: &str) -> (r: bool)
    ensures
        r == promoted_key(key@),
{
    same_text(key, "rating") || same_text(key, "playcount") || same_text(key, "musicbrainz_trackid")
}

/// The rating that text stands for.
pub open spec fn parsed_rating(value: Seq<char>) -> Option<int> {
    match parsed_number(utf8(value)) {
        Some(n) => if n <= 255 {
            Some(n)
        } else {
            None
        },
        None => None,
    }
}

/// The first rating that can be read.
pub open spec fn rating_of(tags: Seq<TagInput>) -> Option<int>
    decreases tags.len(),
{
    if tags.len() == 0 {
        None
    } else {
        match rating_of(tags.drop_last()) {
            Some(r) => Some(r),
            None => if tags.last().key@ == "rating"@ {
                parsed_rating(tags.last().value@)
            } else {
                None
            },
        }
    }
}

/// The last play count that can be read, 0 if there is none.
pub open spec fn playcount_of(tags: Seq<TagInput>) -> int
    decreases tags.len(),
{
    if tags.len() == 0 {
        0
    } else {
        let t = tags.last();
        let n = parsed_number(utf8(t.value@));
        if t.key@ == "playcount"@ && n is Some && n->0 <= u64::MAX {
            n->0
        } else {
            playcount_of(tags.drop_last())
        }
    }
}

/// The first MusicBrainz track id.
pub open spec fn mbid_of(tags: Seq<TagInput>) -> Option<Seq<char>>
    decreases tags.len(),
{
    if tags.len() == 0 {
        None
    } else {
        match mbid_of(tags.drop_last()) {
            Some(m) => Some(m),
            None => if tags.last().key@ == "musicbrainz_trackid"@ {
                Some(tags.last().value@)
            } else {
                None
            },
        }
    }
}

/// The promoted frames: `POPM` from rating and play count, `UFID` from the track id.
pub open spec fn promoted_frames(tags: Seq<TagInput>) -> Seq<u8> {
    let popm = match rating_of(tags) {
        Some(r) => frame(ID_POPM@, popm_data(r as u8, playcount_of(tags))),
        None => Seq::empty(),
    };
    let ufid = match mbid_of(tags) {
        Some(m) => frame(ID_UFID@, ufid_data(MUSICBRAINZ_UFID_OWNER@, utf8(m))),
        None => Seq::empty(),
    };
    popm + ufid
}

/// Append the promoted frames.
fn push_promoted(out: &mut Vec<u8>, tags: &[TagInput]) -> (r: Result<()>)
    ensures
        match r {
            Ok(_) => final(out)@ == old(out)@ + promoted_frames(tags@),
            Err(e) => e == FormatError::TooLarge && promoted_frames(tags@).len() > MAX_SYNCHSAFE,
        },
{
    let mut rating: Option<u8> = None;
    let mut playcount: u64 = 0;
    let mut mbid: Option<&str> = None;
    let mut i: usize = 0;
    while i < tags.len()
        invariant
            i <= tags@.len(),
            match rating {
                Some(r) => rating_of(tags@.take(i as int)) == Some(r as int),
                None => rating_of(tags@.take(i as int)) is None,
            },
            playcount == playcount_of(tags@.take(i as int)),
            match mbid {
                Some(m) => mbid_of(tags@.take(i as int)) == Some(m@),
                None => mbid_of(tags@.take(i as int)) is None,
            },
        decreases tags@.len() - i,
    {
        assert(tags@.take(i + 1).drop_last() =~= tags@.take(i as int));
        let t = &tags[i];
        let key = t.key.as_str();
        if same_text(key, "rating") && rating.is_none() {
            if let Some(n) = parse_number(t.value.as_str().as_bytes()) {
                if n <= 255 {
                    rating = Some(n as u8);
                }
            }
        }
        if same_text(key, "playcount") {
            if let Some(n) = parse_number(t.value.as_str().as_bytes()) {
                playcount = n;
            }
        }
        if same_text(key, "musicbrainz_trackid") && mbid.is_none() {
            mbid = Some(t.value.as_str());
        }
        i = i + 1;
    }
    assert(tags@.take(i as int) =~= tags@);
    let ghost start = out@;
    if let Some(r) = rating {
        let data = popm_frame_data(r, playcount);
        match push_frame(out, &ID_POPM, data.as_slice()) {
            Ok(_) => {},
            Err(e) => {
                return Err(e);
            },
        }
    }
    let ghost mid = out@;
    if let Some(m) = mbid {
        let data = ufid_frame_data(MUSICBRAINZ_UFID_OWNER, m.as_bytes());
        match push_frame(out, &ID_UFID, data.as_slice()) {
            Ok(_) => {},
            Err(e) => {
                return Err(e);
            },
        }
    }
    assert(out@ =~= start + promoted_frames(tags@));
    Ok(())
}

/// One `TXXX` frame for each value.
pub open spec fn txxx_frames(desc: Seq<char>, values: Seq<Seq<char>>) -> Seq<u8>
    decreases values.len(),
{
    if values.len() == 0 {
        Seq::empty()
    } else {
        txxx_frames(desc, values.drop_last()) + frame(ID_TXXX@, txxx_data(desc, values.last()))
    }
}

/// One `COMM` or `USLT` frame for each value.
pub open spec fn comm_frames(id: Seq<u8>, values: Seq<Seq<char>>) -> Seq<u8>
    decreases values.len(),
{
    if values.len() == 0 {
        Seq::empty()
    } else {
        comm_frames(id, values.drop_last()) + frame(id, comm_data(values.last()))
    }
}

/// The frames of one group: a text frame with all values where the key has one, otherwise
/// a frame for each value.
pub open spec fn group_frames(key: Seq<char>, values: Seq<Seq<char>>) -> Seq<u8> {
    match id3_slot_of(key) {
        Some(Id3Model::Text(id)) => frame(id, text_data(values)),
        Some(Id3Model::Txxx(desc)) => txxx_frames(desc, values),
        Some(Id3Model::Comment) => comm_frames(ID_COMM@, values),
        Some(Id3Model::Lyrics) => comm_frames(ID_USLT@, values),
        None => if text_frame_id(utf8(key)) {
            frame(utf8(key), text_data(values))
        } else {
            txxx_frames(key, values)
        },
    }
}

/// The frames of all groups.
pub open spec fn grouped_frames(groups: Seq<(Seq<char>, Seq<Seq<char>>)>) -> Seq<u8>
    decreases groups.len(),
{
    if groups.len() == 0 {
        Seq::empty()
    } else {
        grouped_frames(groups.drop_last()) + group_frames(groups.last().0, groups.last().1)
    }
}

proof fn txxx_frames_prefix(desc: Seq<char>, values: Seq<Seq<char>>, n: int)
    requires
        0 <= n <= values.len(),
    ensures
        txxx_frames(desc, values.take(n)).len() <= txxx_frames(desc, values).len(),
    decreases values.len(),
{
    if n == values.len() {
        assert(values.take(n) =~= values);
    } else {
        txxx_frames_prefix(desc, values.drop_last(), n);
        assert(values.drop_last().take(n) =~= values.take(n));
    }
}

proof fn comm_frames_prefix(id: Seq<u8>, values: Seq<Seq<char>>, n: int)
    requires
        0 <= n <= values.len(),
    ensures
        comm_frames(id, values.take(n)).len() <= comm_frames(id, values).len(),
    decreases values.len(),
{
    if n == values.len() {
        assert(values.take(n) =~= values);
    } else {
        comm_frames_prefix(id, values.drop_last(), n);
        assert(values.drop_last().take(n) =~= values.take(n));
    }
}

proof fn grouped_frames_prefix(groups: Seq<(Seq<char>, Seq<Seq<char>>)>, n: int)
    requires
        0 <= n <= groups.len(),
    ensures
        grouped_frames(groups.take(n)).len() <= grouped_frames(groups).len(),
    decreases groups.len(),
{
    if n == groups.len() {
        assert(groups.take(n) =~= groups);
    } else {
        grouped_frames_prefix(groups.drop_last(), n);
        assert(groups.drop_last().take(n) =~= groups.take(n));
    }
}

/// Append one `TXXX` frame for each value.
fn push_txxx_frames(out: &mut Vec<u8>, desc: &str, values: &Vec<String>) -> (r: Result<()>)
    ensures
        match r {
            Ok(_) => final(out)@ == old(out)@ + txxx_frames(desc@, texts(values@)),
            Err(e) => e == FormatError::TooLarge && txxx_frames(desc@, texts(values@)).len()
                > MAX_SYNCHSAFE,
        },
{
    let ghost all = texts(values@);
    let ghost start = out@;
    let mut i: usize = 0;
    assert(out@ =~= start + txxx_frames(desc@, all.take(0)));
    while i < values.len()
        invariant
            i <= values@.len(),
            all == texts(values@),
            out@ == start + txxx_frames(desc@, all.take(i as int)),
        decreases values@.len() - i,
    {
        assert(all.take(i + 1).drop_last() =~= all.take(i as int));
        assert(all.take(i + 1).last() == values@[i as int]@);
        let data = txxx_frame_data(desc, values[i].as_str());
        match push_frame(out, &ID_TXXX, data.as_slice()) {
            Ok(_) => {},
            Err(e) => {
                proof {
                    txxx_frames_prefix(desc@, all, i + 1);
                }
                return Err(e);
            },
        }
        assert(out@ =~= start + txxx_frames(desc@, all.take(i + 1)));
        i = i + 1;
    }
    assert(all.take(i as int) =~= all);
    Ok(())
}

/// Append one `COMM` or `USLT` frame for each value.
fn push_comm_frames(out: &mut Vec<u8>, id: &[u8; 4], values: &Vec<String>) -> (r: Result<()>)
    ensures
        match r {
            Ok(_) => final(out)@ == old(out)@ + comm_frames(id@, texts(values@)),
            Err(e) => e == FormatError::TooLarge && comm_frames(id@, texts(values@)).len()
                > MAX_SYNCHSAFE,
        },
{
    let ghost all = texts(values@);
    let ghost start = out@;
    let mut i: usize = 0;
    assert(out@ =~= start + comm_frames(id@, all.take(0)));
    while i < values.len()
        invariant
            i <= values@.len(),
            all == texts(values@),
            out@ == start + comm_frames(id@, all.take(i as int)),
        decreases values@.len() - i,
    {
        assert(all.take(i + 1).drop_last() =~= all.take(i as int));
        assert(all.take(i + 1).last() == values@[i as int]@);
        let data = comm_like_frame_data(values[i].as_str());
        match push_frame(out, id, data.as_slice()) {
            Ok(_) => {},
            Err(e) => {
                proof {
                    comm_frames_prefix(id@, all, i + 1);
                }
                return Err(e);
            },
        }
        assert(out@ =~= start + comm_frames(id@, all.take(i + 1)));
        i = i + 1;
    }
    assert(all.take(i as int) =~= all);
    Ok(())
}

/// A four-byte frame id out of a key of four bytes.
fn id_of_key(key: &str) -> (r: Option<[u8; 4]>)
    ensures
        match r {
            Some(id) => id@ == utf8(key@) && utf8(key@).len() == 4,
            None => utf8(key@).len() != 4,
        },
{
    let b = key.as_bytes();
    if b.len() != 4 {
        return None;
    }
    let id: [u8; 4] = [b[0], b[1], b[2], b[3]];
    assert(id@ =~= b@);
    Some(id)
}

/// Append the frames of one group.
fn push_group(out: &mut Vec<u8>, g: &Group) -> (r: Result<()>)
    ensures
        match r {
            Ok(_) => final(out)@ == old(out)@ + group_frames(g.key@, texts(g.values@)),
            Err(e) => e == FormatError::TooLarge && group_frames(g.key@, texts(g.values@)).len()
                > MAX_SYNCHSAFE,
        },
{
    match key_to_id3(g.key.as_str()) {
        Some(Id3Slot::Text(id)) => {
            let data = text_frame_data(&g.values);
            push_frame(out, &id, data.as_slice())
        },
        Some(Id3Slot::Txxx(desc)) => push_txxx_frames(out, desc, &g.values),
        Some(Id3Slot::Comment) => push_comm_frames(out, &ID_COMM, &g.values),
        Some(Id3Slot::Lyrics) => push_comm_frames(out, &ID_USLT, &g.values),
        None => {
            if is_id3_text_frame_id(g.key.as_str()) {
                if let Some(id) = id_of_key(g.key.as_str()) {
                    let data = text_frame_data(&g.values);
                    return push_frame(out, &id, data.as_slice());
                }
            }
            push_txxx_frames(out, g.key.as_str(), &g.values)
        },
    }
}

/// Append the frames of all groups.
fn push_groups(out: &mut Vec<u8>, groups: &Vec<Group>) -> (r: Result<()>)
    ensures
        match r {
            Ok(_) => final(out)@ == old(out)@ + grouped_frames(group_views(groups@)),
            Err(e) => e == FormatError::TooLarge && grouped_frames(group_views(groups@)).len()
                > MAX_SYNCHSAFE,
        },
{
    let ghost all = group_views(groups@);
    let ghost start = out@;
    let mut i: usize = 0;
    assert(out@ =~= start + grouped_frames(all.take(0)));
    while i < groups.len()
        invariant
            i <= groups@.len(),
            all == group_views(groups@),
            out@ == start + grouped_frames(all.take(i as int)),
        decreases groups@.len() - i,
    {
        assert(all.take(i + 1).drop_last() =~= all.take(i as int));
        assert(all.take(i + 1).last() == (groups@[i as int].key@, texts(groups@[i as int].values@)));
        match push_group(out, &groups[i]) {
            Ok(_) => {},
            Err(e) => {
                proof {
                    grouped_frames_prefix(all, i + 1);
                }
                return Err(e);
            },
        }
        assert(out@ =~= start + grouped_frames(all.take(i + 1)));
        i = i + 1;
    }
    assert(all.take(i as int) =~= all);
    Ok(())
}

/// A binary tag is written: its key is a frame id, and there is something to write.
pub open spec fn id3_binary_written(bt: BinaryTagInput) -> bool {
    utf8(bt.key@).len() == 4 && bt.len > 0
}

/// A draft followed by the opaque binary frames: each a header and a streamed body.
pub open spec fn with_binary_frames(d: DraftModel, tags: Seq<BinaryTagInput>) -> DraftModel
    decreases tags.len(),
{
    if tags.len() == 0 {
        d
    } else {
        let before = with_binary_frames(d, tags.drop_last());
        let bt = tags.last();
        if id3_binary_written(bt) {
            with_stream(
                with_bytes(before, frame_header(utf8(bt.key@), bt.len as int)),
                SegView::BinaryTag { payload_id: bt.payload_id, len: bt.len as int },
            )
        } else {
            before
        }
    }
}

/// A draft followed by the pictures: each an `APIC` header, framing and a streamed image.
pub open spec fn with_apic_frames(d: DraftModel, arts: Seq<ArtInput>) -> DraftModel
    decreases arts.len(),
{
    if arts.len() == 0 {
        d
    } else {
        let before = with_apic_frames(d, arts.drop_last());
        let art = arts.last();
        if art.data_len > 0 {
            with_stream(
                with_bytes(
                    before,
                    frame_header(ID_APIC@, apic_head(art).len() + art.data_len) + apic_head(art),
                ),
                SegView::ArtImage { art_id: art.art_id, len: art.data_len as int },
            )
        } else {
            before
        }
    }
}

proof fn binary_frames_grow(d: DraftModel, tags: Seq<BinaryTagInput>, n: int)
    requires
        0 <= n <= tags.len(),
    ensures
        draft_bytes(d) <= draft_bytes(with_binary_frames(d, tags.take(n))) <= draft_bytes(
            with_binary_frames(d, tags),
        ),
    decreases tags.len(),
{
    if n < tags.len() {
        binary_frames_grow(d, tags.drop_last(), n);
        assert(tags.drop_last().take(n) =~= tags.take(n));
    } else {
        assert(tags.take(n) =~= tags);
        if n > 0 {
            binary_frames_grow(d, tags.drop_last(), n - 1);
        }
    }
    if tags.len() > 0 {
        let before = with_binary_frames(d, tags.drop_last());
        let bt = tags.last();
        let h = frame_header(utf8(bt.key@), bt.len as int);
        let s = SegView::BinaryTag { payload_id: bt.payload_id, len: bt.len as int };
        draft_bytes_add_up(before, h, s);
        draft_bytes_add_up(with_bytes(before, h), h, s);
    }
}

proof fn apic_frames_grow(d: DraftModel, arts: Seq<ArtInput>, n: int)
    requires
        0 <= n <= arts.len(),
    ensures
        draft_bytes(d) <= draft_bytes(with_apic_frames(d, arts.take(n))) <= draft_bytes(
            with_apic_frames(d, arts),
        ),
    decreases arts.len(),
{
    if n < arts.len() {
        apic_frames_grow(d, arts.drop_last(), n);
        assert(arts.drop_last().take(n) =~= arts.take(n));
    } else {
        assert(arts.take(n) =~= arts);
        if n > 0 {
            apic_frames_grow(d, arts.drop_last(), n - 1);
        }
    }
    if arts.len() > 0 {
        let before = with_apic_frames(d, arts.drop_last());
        let art = arts.last();
        let h = frame_header(ID_APIC@, apic_head(art).len() + art.data_len) + apic_head(art);
        let s = SegView::ArtImage { art_id: art.art_id, len: art.data_len as int };
        draft_bytes_add_up(before, h, s);
        draft_bytes_add_up(with_bytes(before, h), h, s);
    }
}

/// Draft the opaque binary frames: header (inline) + streamed body.
fn draft_binary_frames(draft: &mut Draft, tags: &[BinaryTagInput]) -> (r: Result<()>)
    requires
        draft_bytes(old(draft).model()) >= 0,
    ensures
        match r {
            Ok(_) => final(draft).model() == with_binary_frames(old(draft).model(), tags@),
            Err(e) => e == FormatError::TooLarge && draft_bytes(
                with_binary_frames(old(draft).model(), tags@),
            ) > MAX_SYNCHSAFE,
        },
{
    let ghost start = draft.model();
    let mut i: usize = 0;
    while i < tags.len()
        invariant
            i <= tags@.len(),
            start == old(draft).model(),
            draft_bytes(start) >= 0,
            draft.model() == with_binary_frames(start, tags@.take(i as int)),
        decreases tags@.len() - i,
    {
        assert(tags@.take(i + 1).drop_last() =~= tags@.take(i as int));
        let bt = &tags[i];
        if let Some(len) = BlobLen::new(bt.len) {
            if let Some(id) = id_of_key(bt.key.as_str()) {
                let ghost h = frame_header(id@, bt.len as int);
                proof {
                    let s = SegView::BinaryTag { payload_id: bt.payload_id, len: bt.len as int };
                    let before = with_binary_frames(start, tags@.take(i as int));
                    binary_frames_grow(start, tags@, i + 1);
                    binary_frames_grow(start, tags@, i as int);
                    draft_bytes_add_up(before, h, s);
                    draft_bytes_add_up(with_bytes(before, h), h, s);
                }
                if bt.len > MAX_SYNCHSAFE {
                    return Err(FormatError::TooLarge);
                }
                let mut header: Vec<u8> = Vec::new();
                match push_frame_header(&mut header, &id, bt.len as usize) {
                    Ok(_) => {},
                    Err(e) => {
                        return Err(e);
                    },
                }
                assert(header@ =~= h);
                draft.bytes(header.as_slice());
                draft.stream(Segment::BinaryTag { payload_id: bt.payload_id, len });
            }
        }
        i = i + 1;
    }
    assert(tags@.take(i as int) =~= tags@);
    Ok(())
}

/// Draft the pictures: `APIC` header and framing (inline) + streamed image.
fn draft_apic_frames(draft: &mut Draft, arts: &[ArtInput]) -> (r: Result<()>)
    requires
        draft_bytes(old(draft).model()) >= 0,
    ensures
        match r {
            Ok(_) => final(draft).model() == with_apic_frames(old(draft).model(), arts@),
            Err(e) => e == FormatError::TooLarge && draft_bytes(
                with_apic_frames(old(draft).model(), arts@),
            ) > MAX_SYNCHSAFE,
        },
{
    let ghost start = draft.model();
    let mut i: usize = 0;
    while i < arts.len()
        invariant
            i <= arts@.len(),
            start == old(draft).model(),
            draft_bytes(start) >= 0,
            draft.model() == with_apic_frames(start, arts@.take(i as int)),
        decreases arts@.len() - i,
    {
        assert(arts@.take(i + 1).drop_last() =~= arts@.take(i as int));
        let art = &arts[i];
        if let Some(len) = BlobLen::new(art.data_len) {
            let framing = apic_framing(art);
            let flen: u64 = framing.len() as u64;
            let ghost h = frame_header(ID_APIC@, framing@.len() + art.data_len) + framing@;
            proof {
                let s = SegView::ArtImage { art_id: art.art_id, len: art.data_len as int };
                let before = with_apic_frames(start, arts@.take(i as int));
                apic_frames_grow(start, arts@, i + 1);
                apic_frames_grow(start, arts@, i as int);
                draft_bytes_add_up(before, h, s);
                draft_bytes_add_up(with_bytes(before, h), h, s);
            }
            if flen > MAX_SYNCHSAFE || art.data_len > MAX_SYNCHSAFE - flen {
                return Err(FormatError::TooLarge);
            }
            let mut header: Vec<u8> = Vec::new();
            match push_frame_header(&mut header, &ID_APIC, (flen + art.data_len) as usize) {
                Ok(_) => {},
                Err(e) => {
                    return Err(e);
                },
            }
            append(&mut header, framing.as_slice());
            assert(header@ =~= h);
            draft.bytes(header.as_slice());
            draft.stream(Segment::ArtImage { art_id: art.art_id, len });
        }
        i = i + 1;
    }
    assert(arts@.take(i as int) =~= arts@);
    Ok(())
}

/// The text, `TXXX`, `COMM`, `USLT` and promoted frames.
pub open spec fn inline_frames(tags: Seq<TagInput>) -> Seq<u8> {
    grouped_frames(groups_of(tags, true)) + promoted_frames(tags)
}

/// The draft of all frames of a tag.
pub open spec fn tag_draft(
    tags: Seq<TagInput>,
    binary_tags: Seq<BinaryTagInput>,
    arts: Seq<ArtInput>,
) -> DraftModel {
    with_apic_frames(
        with_binary_frames(with_bytes(empty_draft(), inline_frames(tags)), binary_tags),
        arts,
    )
}

/// The 10-byte ID3v2.4 header of a tag whose frames come to `n` bytes.
pub open spec fn tag_header(n: int) -> Seq<u8> {
    seq![0x49u8, 0x44u8, 0x33u8, 0x04u8, 0x00u8, 0x00u8] + synchsafe_bytes(n)
}

/// The segments of a tag: its header, then its frames.
pub open spec fn tag_segments(
    tags: Seq<TagInput>,
    binary_tags: Seq<BinaryTagInput>,
    arts: Seq<ArtInput>,
) -> Seq<SegView> {
    let frames = drafted(tag_draft(tags, binary_tags, arts));
    seq![SegView::Inline(tag_header(total_bytes(frames)))] + frames
}

/// The bytes that the frames of a tag come to.
pub open spec fn frames_len(
    tags: Seq<TagInput>,
    binary_tags: Seq<BinaryTagInput>,
    arts: Seq<ArtInput>,
) -> int {
    total_bytes(drafted(tag_draft(tags, binary_tags, arts)))
}

/// Build the ID3v2.4 tag region for `tags`/`arts`: an inline 10-byte header
/// followed by text/`TXXX` frames and `APIC` frames whose image bytes are
/// streamed as `ArtImage` segments. Returns the segments (no backing audio) and
/// the total tag length (`10 + frames_len`). The total is a 28-bit syncsafe field; an
/// oversized tag is a hard error, not a truncated file.
#[verifier::spinoff_prover]
#[verifier::rlimit(60)]
pub fn build_id3v2_segments(
    tags: &[TagInput],
    binary_tags: &[BinaryTagInput],
    arts: &[ArtInput],
) -> (r: Result<(Vec<Segment>, u64)>)
    ensures
        match r {
            Ok((segs, len)) => frames_len(tags@, binary_tags@, arts@) <= MAX_SYNCHSAFE && seg_views(
                segs@,
            ) == tag_segments(tags@, binary_tags@, arts@) && len == 10 + frames_len(
                tags@,
                binary_tags@,
                arts@,
            ),
            Err(e) => e == FormatError::TooLarge && frames_len(tags@, binary_tags@, arts@)
                > MAX_SYNCHSAFE,
        },
{
    let ghost text = inline_frames(tags@);
    let ghost d1 = with_bytes(empty_draft(), text);
    let ghost d2 = with_binary_frames(d1, binary_tags@);
    let ghost d3 = with_apic_frames(d2, arts@);
    proof {
        draft_bytes_add_up(empty_draft(), text, SegView::Inline(text));
        draft_bytes_add_up(d3, text, SegView::Inline(text));
        binary_frames_grow(d1, binary_tags@, binary_tags@.len() as int);
        apic_frames_grow(d2, arts@, arts@.len() as int);
    }
    let groups = group_tags(tags, true);
    let mut buf: Vec<u8> = Vec::new();
    match push_groups(&mut buf, &groups) {
        Ok(_) => {},
        Err(e) => {
            return Err(e);
        },
    }
    // Rebuilt promoted frames (POPM from rating/playcount, UFID from MBID).
    match push_promoted(&mut buf, tags) {
        Ok(_) => {},
        Err(e) => {
            return Err(e);
        },
    }
    assert(buf@ =~= text);
    let mut draft = Draft::new();
    draft.bytes(buf.as_slice());
    match draft_binary_frames(&mut draft, binary_tags) {
        Ok(_) => {},
        Err(e) => {
            return Err(e);
        },
    }
    match draft_apic_frames(&mut draft, arts) {
        Ok(_) => {},
        Err(e) => {
            return Err(e);
        },
    }
    let frames = draft.finish();
    let total: u64 = match crate::layout::total_checked(&frames) {
        Some(n) => n,
        None => {
            return Err(FormatError::TooLarge);
        },
    };
    if total > MAX_SYNCHSAFE {
        return Err(FormatError::TooLarge);
    }
    // The 10-byte header, now that the total frame length is known: version 2.4.0, no
    // unsync / extended header / footer.
    let mut header: Vec<u8> = Vec::new();
    header.push(0x49);
    header.push(0x44);
    header.push(0x33);
    header.push(0x04);
    header.push(0x00);
    header.push(0x00);
    append(&mut header, syncsafe(total as u32).as_slice());
    assert(header@ =~= tag_header(total as int));
    let ghost views = seg_views(frames@);
    let mut segments: Vec<Segment> = Vec::new();
    segments.push(Segment::Inline(header));
    let mut frames = frames;
    segments.append(&mut frames);
    assert(seg_views(segments@) =~= tag_segments(tags@, binary_tags@, arts@));
    Ok((segments, 10 + total))
}

/// The segments of a synthesized MP3: the tag, then the backing audio.
pub open spec fn mp3_segments(
    audio_offset: int,
    audio_length: int,
    tags: Seq<TagInput>,
    binary_tags: Seq<BinaryTagInput>,
    arts: Seq<ArtInput>,
) -> Seq<SegView> {
    tag_segments(tags, binary_tags, arts).push(
        SegView::BackingAudio { offset: audio_offset, len: audio_length },
    )
}

/// Build the synthesized region for an MP3: a fresh ID3v2.4 tag (text frames +
/// APIC frames, with image bytes streamed as `ArtImage` segments) followed by the
/// backing audio.
pub fn synthesize_layout(
    audio_offset: u64,
    audio_length: u64,
    tags: &[TagInput],
    binary_tags: &[BinaryTagInput],
    arts: &[ArtInput],
) -> (r: Result<RegionLayout>)
    ensures
        ({
            let fits = frames_len(tags@, binary_tags@, arts@) <= MAX_SYNCHSAFE;
            let segs = mp3_segments(
                audio_offset as int,
                audio_length as int,
                tags@,
                binary_tags@,
                arts@,
            );
            match r {
                Ok(l) => fits && layout_fault(segs) is None && l.views() == segs,
                Err(FormatError::TooLarge) => !fits,
                Err(FormatError::InvalidLayout(e)) => fits && layout_fault(segs) == Some(e),
                Err(_) => false,
            }
        }),
{
    let (segs, _) = match build_id3v2_segments(tags, binary_tags, arts) {
        Ok(v) => v,
        Err(e) => {
            return Err(e);
        },
    };
    let mut segments = segs;
    push_segment(
        &mut segments,
        Segment::BackingAudio { offset: audio_offset, len: audio_length },
    );
    match RegionLayout::validated(segments) {
        Ok(l) => Ok(l),
        Err(e) => Err(FormatError::InvalidLayout(e)),
    }
}

/// A synthesized MP3 serves the backing audio exactly once, whole, and last.
pub proof fn audio_served_once(
    audio_offset: int,
    audio_length: int,
    tags: Seq<TagInput>,
    binary_tags: Seq<BinaryTagInput>,
    arts: Seq<ArtInput>,
)
    ensures
        crate::layout::audio_once_at_end(
            mp3_segments(audio_offset, audio_length, tags, binary_tags, arts),
            audio_offset,
            audio_length,
        ),
{
    let d1 = with_bytes(empty_draft(), inline_frames(tags));
    binary_frames_are_no_audio(d1, binary_tags);
    apic_frames_are_no_audio(with_binary_frames(d1, binary_tags), arts);
}

proof fn binary_frames_are_no_audio(d: DraftModel, tags: Seq<BinaryTagInput>)
    requires
        crate::layout::no_audio(d.done),
    ensures
        crate::layout::no_audio(with_binary_frames(d, tags).done),
    decreases tags.len(),
{
    if tags.len() > 0 {
        binary_frames_are_no_audio(d, tags.drop_last());
    }
}

proof fn apic_frames_are_no_audio(d: DraftModel, arts: Seq<ArtInput>)
    requires
        crate::layout::no_audio(d.done),
    ensures
        crate::layout::no_audio(with_apic_frames(d, arts).done),
    decreases arts.len(),
{
    if arts.len() > 0 {
        apic_frames_are_no_audio(d, arts.drop_last());
    }
}

} // verus!
