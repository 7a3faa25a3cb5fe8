//! Reading an ID3v2 tag: the guard that decides whether a tag is parsed at all, its text
//! frames and pictures, and its binary frames.

use crate::bytes::be24;
use crate::bytes::be_number;
use crate::bytes::be_value;
use crate::bytes::front_eight;
use crate::bytes::be32;
use crate::bytes::copy_range;
use crate::bytes::find_byte;
use crate::bytes::position_of;
use crate::bytes::read_u32_be;
use crate::bytes::same_bytes;
use crate::flac::binary_views;
use crate::flac::clamped_type;
use crate::flac::picture_views;
use crate::flac::push_binary;
use crate::flac::push_embedded;
use crate::flac::PictureModel;
use crate::id3v2::magic_at;
use crate::id3v2::starts_with_tag;
use crate::id3v2::synchsafe;
use crate::id3v2::synchsafe_decode;
use crate::input::EmbeddedBinaryTag;
use crate::input::EmbeddedPicture;
use crate::input::PictureType;
use crate::mp3::frames::text_frame_id;
use crate::mp3::frames::ENC_UTF8;
use crate::mp3::frames::ID_APIC;
use crate::mp3::frames::ID_COMM;
use crate::mp3::frames::ID_POPM;
use crate::mp3::frames::ID_TXXX;
use crate::mp3::frames::ID_UFID;
use crate::mp3::frames::ID_USLT;
use crate::mp3::frames::MUSICBRAINZ_UFID_OWNER;
use crate::tagmap::first;
use crate::tagmap::id3_text_is;
use crate::tagmap::id3_text_to_key;
use crate::tagmap::id3_txxx_is;
use crate::tagmap::id3_txxx_to_key;
use crate::tagmap::key_at;
use crate::text::decimal;
use crate::text::decimal_text;
use crate::text::utf8;
use crate::text::lossy_text;
use crate::text::utf8_splits_at_ascii;
use crate::text::utf8_text;
use crate::text::utf8_text_lossy;
use crate::vorbiscomment::pair_views;
use crate::vorbiscomment::push_pair;
use vstd::prelude::*;
use vstd::slice::slice_subrange;
use vstd::string::*;
use vstd::utf8::*;

verus! {

/// `CHAP`.
pub const ID_CHAP: [u8; 4] = [0x43, 0x48, 0x41, 0x50];

/// `CTOC`.
pub const ID_CTOC: [u8; 4] = [0x43, 0x54, 0x4f, 0x43];

/// The header declares an extended header.
pub open spec fn has_extended_header(d: Seq<u8>) -> bool {
    (d[5] / 0x40) % 2 == 1
}

/// Where the frames of the tag begin: behind the extended header, if there is one.
pub open spec fn frames_start(d: Seq<u8>) -> int {
    if has_extended_header(d) {
        10 + synchsafe(d, 10)
    } else {
        10
    }
}

/// Where the tag's body ends.
pub open spec fn frames_end(d: Seq<u8>) -> int {
    10 + synchsafe(d, 6)
}

/// Four bytes at `p` with their high bits clear.
pub open spec fn synchsafe_at(d: Seq<u8>, p: int) -> bool {
    d[p] < 0x80 && d[p + 1] < 0x80 && d[p + 2] < 0x80 && d[p + 3] < 0x80
}

/// A well-formed v2.4 extended header inside the tag body: a synchsafe size that covers
/// its own six bytes, and one flag byte.
pub open spec fn extended_header_sound(d: Seq<u8>) -> bool {
    &&& frames_end(d) >= 16
    &&& synchsafe_at(d, 10)
    &&& synchsafe(d, 10) >= 6
    &&& d[14] == 1
    &&& 10 + synchsafe(d, 10) <= frames_end(d)
}

/// The tag header is one whose frames can be walked: a known version, no
/// unsynchronisation, a body that `d` holds whole, and an extended header only where v2.4
/// defines it.
pub open spec fn tag_head_safe(d: Seq<u8>) -> bool {
    &&& d.len() >= 10
    &&& magic_at(d, 0)
    &&& 2 <= d[3] <= 4
    &&& d[5] < 0x80
    &&& synchsafe_at(d, 6)
    &&& frames_end(d) <= d.len()
    &&& has_extended_header(d) ==> d[3] == 4 && extended_header_sound(d)
}

/// The length of a frame header.
pub open spec fn frame_header_len(major: u8) -> int {
    if major == 2 {
        6
    } else {
        10
    }
}

/// The size that the frame header at `p` declares.
pub open spec fn frame_size(d: Seq<u8>, p: int) -> int {
    if d[3] == 2 {
        be24(d, p + 3)
    } else if d[3] == 3 {
        be32(d, p + 4)
    } else {
        synchsafe(d, p + 4)
    }
}

/// Where the frame at `p` ends.
pub open spec fn frame_end(d: Seq<u8>, p: int) -> int {
    p + frame_header_len(d[3]) + frame_size(d, p)
}

/// The frame at `p` stays inside the tag, is not one with frames of its own, and has
/// neither flags nor (in v2.4) a malformed size.
pub open spec fn frame_safe(d: Seq<u8>, p: int) -> bool {
    &&& d[3] != 2 ==> d.subrange(p, p + 4) != ID_CHAP@ && d.subrange(p, p + 4) != ID_CTOC@
    &&& d[3] != 2 ==> d[p + 8] == 0 && d[p + 9] == 0
    &&& d[3] == 4 ==> synchsafe_at(d, p + 4)
    &&& frame_end(d, p) <= frames_end(d)
}

/// Every frame from `p` on is safe, up to padding or the end of the tag.
pub open spec fn frames_safe(d: Seq<u8>, p: int) -> bool
    decreases
            (if p < d.len() {
                d.len() - p
            } else {
                0
            }),
{
    if p + frame_header_len(d[3]) > d.len() || d[p] == 0 {
        true
    } else if !frame_safe(d, p) {
        false
    } else if p < frame_end(d, p) < frames_end(d) {
        frames_safe(d, frame_end(d, p))
    } else {
        true
    }
}

/// The tag at the front of `d` may be handed to the frame parser.
pub open spec fn alloc_safe(d: Seq<u8>) -> bool {
    tag_head_safe(d) && frames_safe(d, frames_start(d))
}

/// Are the tag header and, where it declares one, the extended header sound?
fn check_tag_head(data: &[u8]) -> (r: Option<(usize, usize)>)
    ensures
        match r {
            Some((start, end)) => tag_head_safe(data@) && start == frames_start(data@) && end
                == frames_end(data@),
            None => !tag_head_safe(data@),
        },
{
    // The parser scans forward to locate a tag, so only a buffer with a tag at its very
    // front is handed on. Trade-off: ID3v1-only files yield no tags at scan time.
    if data.len() < 10 || !starts_with_tag(data) {
        return None;
    }
    let major = data[3];
    if major < 2 || major > 4 {
        return None;
    }
    // Unsynchronisation complicates frame bounds; skip rather than risk mis-validating.
    if data[5] >= 0x80 {
        return None;
    }
    // A well-formed synchsafe integer has the high bit clear in every byte.
    if data[6] >= 0x80 || data[7] >= 0x80 || data[8] >= 0x80 || data[9] >= 0x80 {
        return None;
    }
    let size = slice_subrange(data, 6, 10);
    let end: usize = 10 + synchsafe_decode(size) as usize;
    assert(end == frames_end(data@));
    if end > data.len() {
        return None;
    }
    if (data[5] / 0x40) % 2 == 1 {
        if major != 4 || end < 16 {
            return None;
        }
        if data[10] >= 0x80 || data[11] >= 0x80 || data[12] >= 0x80 || data[13] >= 0x80 {
            return None;
        }
        let ext: usize = synchsafe_decode(slice_subrange(data, 10, 14)) as usize;
        assert(ext == synchsafe(data@, 10));
        if ext < 6 || data[14] != 1 || ext > end - 10 {
            return None;
        }
        return Some((10 + ext, end));
    }
    Some((10, end))
}

/// The declared size of the frame at `pos`.
fn declared_size(data: &[u8], pos: usize) -> (r: usize)
    requires
        data@.len() >= 10,
        2 <= data@[3] <= 4,
        pos + frame_header_len(data@[3]) <= data@.len(),
    ensures
        r == frame_size(data@, pos as int),
{
    if data[3] == 2 {
        data[pos + 3] as usize * 0x1_0000 + data[pos + 4] as usize * 0x100 + data[pos + 5] as usize
    } else if data[3] == 3 {
        match read_u32_be(data, pos + 4) {
            Ok(n) => n as usize,
            Err(_) => 0,
        }
    } else {
        let field = slice_subrange(data, pos + 4, pos + 8);
        synchsafe_decode(field) as usize
    }
}

/// Is the frame at `pos` safe to parse?
fn check_frame(data: &[u8], pos: usize, end: usize) -> (r: Option<usize>)
    requires
        tag_head_safe(data@),
        pos + frame_header_len(data@[3]) <= data@.len(),
        end == frames_end(data@),
    ensures
        match r {
            Some(next) => frame_safe(data@, pos as int) && next == frame_end(data@, pos as int),
            None => !frame_safe(data@, pos as int),
        },
{
    let n: usize = data.len();
    let major = data[3];
    let header_len: usize = if major == 2 {
        6
    } else {
        10
    };
    assert(pos + header_len <= n);
    if major != 2 {
        // CHAP and CTOC embed frames of their own, whose sizes are not checked here.
        let id = slice_subrange(data, pos, pos + 4);
        if same_bytes(id, ID_CHAP.as_slice()) || same_bytes(id, ID_CTOC.as_slice()) {
            return None;
        }
        if data[pos + 8] != 0 || data[pos + 9] != 0 {
            return None;
        }
    }
    if major == 4 && (data[pos + 4] >= 0x80 || data[pos + 5] >= 0x80 || data[pos + 6] >= 0x80
        || data[pos + 7] >= 0x80) {
        return None;
    }
    let size = declared_size(data, pos);
    let data_start: usize = pos + header_len;
    if data_start > end || size > end - data_start {
        return None;
    }
    Some(data_start + size)
}

/// Returns false when `data` does not begin with an ID3v2 tag whose declared frame sizes
/// are all covered by its body, so that parsing it cannot be driven into an unbounded
/// allocation. When false, callers skip ID3 parsing (yielding no tags for that file).
/// Conservative: tags using unsynchronisation, an extended header other than a well-formed
/// v2.4 one, frame flags, chapter frames, a malformed synchsafe field, or an unrecognised
/// major version are skipped.
pub fn id3v2_alloc_safe(data: &[u8]) -> (r: bool)
    ensures
        r == alloc_safe(data@),
{
    let (start, end) = match check_tag_head(data) {
        Some(v) => v,
        None => {
            return false;
        },
    };
    let header_len: usize = if data[3] == 2 {
        6
    } else {
        10
    };
    let n: usize = data.len();
    let mut pos: usize = start;
    // Any frame header visible in `data` is validated, also one behind the declared body.
    while n >= header_len && pos <= n - header_len
        invariant
            n == data@.len(),
            tag_head_safe(data@),
            header_len == frame_header_len(data@[3]),
            end == frames_end(data@),
            frames_safe(data@, frames_start(data@)) == frames_safe(data@, pos as int),
        decreases n - pos,
    {
        // A zero first id byte marks the start of the padding region.
        if data[pos] == 0 {
            return true;
        }
        match check_frame(data, pos, end) {
            None => {
                return false;
            },
            Some(next) => {
                // Behind the declared body come audio or trailing tags, not frames.
                if next >= end {
                    return true;
                }
                pos = next;
            },
        }
    }
    true
}

/// One frame of a parsed ID3v2 tag, as far as tags and pictures are made of it.
#[derive(Debug, Clone, PartialEq, Eq)]
pub enum Id3Frame {
    /// A `TXXX` frame.
    ExtendedText { description: String, value: String },
    /// A `COMM` frame.
    Comment { text: String },
    /// A `USLT` frame.
    Lyrics { text: String },
    /// A text frame; several values are separated by NUL.
    Text { id: String, text: String },
    /// An `APIC` frame.
    Picture { mime: String, picture_type: u8, description: String, data: Vec<u8> },
    /// Any other frame.
    Other,
}

/// What a frame holds.
pub ghost enum FrameModel {
    ExtendedText { description: Seq<char>, value: Seq<char> },
    Comment { text: Seq<char> },
    Lyrics { text: Seq<char> },
    Text { id: Seq<char>, text: Seq<char> },
    Picture { mime: Seq<char>, picture_type: u8, description: Seq<char>, data: Seq<u8> },
    Other,
}

/// What a frame holds.
pub open spec fn frame_view(f: Id3Frame) -> FrameModel {
    match f {
        Id3Frame::ExtendedText { description, value } => FrameModel::ExtendedText {
            description: description@,
            value: value@,
        },
        Id3Frame::Comment { text } => FrameModel::Comment { text: text@ },
        Id3Frame::Lyrics { text } => FrameModel::Lyrics { text: text@ },
        Id3Frame::Text { id, text } => FrameModel::Text { id: id@, text: text@ },
        Id3Frame::Picture { mime, picture_type, description, data } => FrameModel::Picture {
            mime: mime@,
            picture_type,
            description: description@,
            data: data@,
        },
        Id3Frame::Other => FrameModel::Other,
    }
}

/// What frames hold.
pub open spec fn frame_views(s: Seq<Id3Frame>) -> Seq<FrameModel> {
    Seq::new(s.len(), |i: int| frame_view(s[i]))
}

/// What `id3::Tag::read_from2` makes of a tag that is not plain; `None` where it fails.
pub uninterp spec fn id3_frames(data: Seq<u8>) -> Option<Seq<FrameModel>>;

/// `TIPL`.
pub const ID_TIPL: [u8; 4] = [0x54, 0x49, 0x50, 0x4c];

/// `TMCL`.
pub const ID_TMCL: [u8; 4] = [0x54, 0x4d, 0x43, 0x4c];

/// `PRIV`.
pub const ID_PRIV: [u8; 4] = [0x50, 0x52, 0x49, 0x56];

/// `GEOB`.
pub const ID_GEOB: [u8; 4] = [0x47, 0x45, 0x4f, 0x42];

/// `SYLT`.
pub const ID_SYLT: [u8; 4] = [0x53, 0x59, 0x4c, 0x54];

/// `IPLS`.
pub const ID_IPLS: [u8; 4] = [0x49, 0x50, 0x4c, 0x53];

/// `GRP1`.
pub const ID_GRP1: [u8; 4] = [0x47, 0x52, 0x50, 0x31];

/// `MLLT`.
pub const ID_MLLT: [u8; 4] = [0x4d, 0x4c, 0x4c, 0x54];

/// `WXXX`.
pub const ID_WXXX: [u8; 4] = [0x57, 0x58, 0x58, 0x58];

/// `WCOM`.
pub const ID_WCOM: [u8; 4] = [0x57, 0x43, 0x4f, 0x4d];

/// `WOAR`.
pub const ID_WOAR: [u8; 4] = [0x57, 0x4f, 0x41, 0x52];

/// Every byte is ASCII.
pub open spec fn all_ascii(b: Seq<u8>) -> bool {
    forall|i: int| 0 <= i < b.len() ==> #[trigger] b[i] < 0x80
}

/// The frame is kept as it is: its id is neither that of a text or a link nor one of those
/// with a form of their own.
pub open spec fn undecoded_id(id: Seq<u8>) -> bool {
    &&& id.len() == 4
    &&& graphic(id)
    &&& id[0] != 0x54
    &&& id[0] != 0x57
    &&& id != ID_APIC@ && id != ID_COMM@ && id != ID_USLT@ && id != ID_POPM@ && id != ID_UFID@
    &&& id != ID_PRIV@ && id != ID_GEOB@ && id != ID_CHAP@ && id != ID_CTOC@
    &&& id != ID_SYLT@ && id != ID_IPLS@ && id != ID_GRP1@ && id != ID_MLLT@
}

/// A text field in a byte encoding: Latin-1, or UTF-8 that is valid.
pub open spec fn field_readable(encoding: u8, b: Seq<u8>) -> bool {
    encoding == 0 || (encoding == ENC_UTF8 && valid_utf8(b))
}

/// What a frame in its plain form holds: text in UTF-8, and every field there. `None` for any
/// other frame or form.
pub open spec fn plain_frame(id: Seq<u8>, b: Seq<u8>) -> Option<FrameModel> {
    let n = b.len() as int;
    let other = Some(FrameModel::Other);
    if undecoded_id(id) {
        other
    } else if id == ID_POPM@ {
        if find_byte(b, 0, 0) + 1 < n {
            other
        } else {
            None
        }
    } else if id == ID_UFID@ || id == ID_PRIV@ {
        if find_byte(b, 0, 0) < n {
            other
        } else {
            None
        }
    } else if n == 0 {
        None
    } else if id == ID_GEOB@ {
        let mime = find_byte(b, 0, 1);
        let name = find_byte(b, 0, mime + 1);
        let desc = find_byte(b, 0, name + 1);
        if mime < n && name < n && desc < n && field_readable(b[0], b.subrange(mime + 1, name))
            && field_readable(b[0], b.subrange(name + 1, desc)) {
            other
        } else {
            None
        }
    } else if id == ID_WXXX@ {
        let nul = find_byte(b, 0, 1);
        let desc = b.subrange(1, nul);
        if nul < n && ((b[0] == 0 && all_ascii(desc)) || (b[0] == ENC_UTF8 && valid_utf8(desc))) {
            other
        } else {
            None
        }
    } else if id.len() == 4 && id[0] == 0x57 && graphic(id) {
        if valid_utf8(b) {
            other
        } else {
            None
        }
    } else if b[0] != ENC_UTF8 {
        None
    } else if id == ID_TXXX@ {
        let nul = find_byte(b, 0, 1);
        if nul < n && valid_utf8(b.subrange(1, nul)) && valid_utf8(b.subrange(nul + 1, n)) {
            Some(
                FrameModel::ExtendedText {
                    description: decode_utf8(b.subrange(1, nul)),
                    value: decode_utf8(b.subrange(nul + 1, n)),
                },
            )
        } else {
            None
        }
    } else if id == ID_COMM@ || id == ID_USLT@ {
        let nul = find_byte(b, 0, 4);
        if n > 4 && nul < n && valid_utf8(b.subrange(4, nul)) && valid_utf8(
            b.subrange(nul + 1, n),
        ) {
            let text = decode_utf8(b.subrange(nul + 1, n));
            if id == ID_COMM@ {
                Some(FrameModel::Comment { text })
            } else {
                Some(FrameModel::Lyrics { text })
            }
        } else {
            None
        }
    } else if id == ID_APIC@ {
        let mime = find_byte(b, 0, 1);
        let desc = find_byte(b, 0, mime + 2);
        if mime + 2 <= n && desc < n && all_ascii(b.subrange(1, mime)) && valid_utf8(
            b.subrange(mime + 2, desc),
        ) {
            Some(
                FrameModel::Picture {
                    mime: id_text(b.subrange(1, mime)),
                    picture_type: b[mime + 1],
                    description: decode_utf8(b.subrange(mime + 2, desc)),
                    data: b.subrange(desc + 1, n),
                },
            )
        } else {
            None
        }
    } else if text_frame_id(id) && id != ID_TIPL@ && id != ID_TMCL@ && (n == 1 || b[n - 1] != 0)
        && valid_utf8(b.skip(1)) {
        Some(FrameModel::Text { id: id_text(id), text: decode_utf8(b.skip(1)) })
    } else {
        None
    }
}

/// What a frame must not share with another, since a later frame displaces one that is alike:
/// its id, and with it what tells frames of that id apart.
pub open spec fn frame_mark(id: Seq<u8>, b: Seq<u8>) -> (Seq<u8>, Seq<u8>) {
    if id == ID_TXXX@ || id == ID_WXXX@ {
        // The description.
        (id, b.subrange(1, find_byte(b, 0, 1)))
    } else if id == ID_APIC@ {
        // The picture type.
        (id, seq![b[find_byte(b, 0, 1) + 1]])
    } else if id == ID_COMM@ || id == ID_USLT@ {
        // Language and description.
        (id, b.subrange(1, find_byte(b, 0, 4)))
    } else if id == ID_POPM@ || id == ID_UFID@ {
        // The owner.
        (id, b.subrange(0, find_byte(b, 0, 0)))
    } else if id == ID_GEOB@ {
        // Encoding and description.
        let name = find_byte(b, 0, find_byte(b, 0, 1) + 1);
        (id, seq![b[0]] + b.subrange(name + 1, find_byte(b, 0, name + 1)))
    } else if id == ID_PRIV@ || id == ID_WCOM@ || id == ID_WOAR@ {
        (id, b)
    } else {
        (id, Seq::empty())
    }
}

/// No two frames share a mark, but for those that are kept as they are.
pub open spec fn marks_differ(s: Seq<(Seq<u8>, Seq<u8>)>) -> bool {
    forall|i: int, j: int|
        0 <= i < j < s.len() ==> undecoded_id((#[trigger] s[i]).0) || frame_mark(s[i].0, s[i].1)
            != frame_mark((#[trigger] s[j]).0, s[j].1)
}

/// Every frame has its plain form.
pub open spec fn all_plain(s: Seq<(Seq<u8>, Seq<u8>)>) -> bool {
    forall|i: int| 0 <= i < s.len() ==> plain_frame((#[trigger] s[i]).0, s[i].1) is Some
}

/// Frames from `p` on fill the tag up to its end.
pub open spec fn frames_fill(d: Seq<u8>, p: int, end: int) -> bool
    decreases end - p,
{
    p == end || (p + 10 <= end && d[p] != 0 && p < frame_end(d, p) <= end && frames_fill(
        d,
        frame_end(d, p),
        end,
    ))
}

/// A v2.4 tag without header flags that is plain frames throughout, no two of them alike.
pub open spec fn plain_tag(d: Seq<u8>) -> bool {
    &&& alloc_safe(d)
    &&& d[3] == 4
    &&& d[5] == 0
    &&& frames_fill(d, 10, frames_end(d))
    &&& all_plain(frames_from(d, 10, frames_end(d)))
    &&& marks_differ(frames_from(d, 10, frames_end(d)))
}

/// What plain frames hold.
pub open spec fn plain_models(s: Seq<(Seq<u8>, Seq<u8>)>) -> Seq<FrameModel> {
    Seq::new(s.len(), |i: int| plain_frame(s[i].0, s[i].1)->0)
}

/// The frames of a tag; `None` where it cannot be read. Those of a plain tag are what stands
/// in it.
pub open spec fn frames_of_tag(d: Seq<u8>) -> Option<Seq<FrameModel>> {
    if plain_tag(d) {
        Some(plain_models(frames_from(d, 10, frames_end(d))))
    } else {
        id3_frames(d)
    }
}

/// Calls `id3::Tag::read_from2` and hands out the frames of the tag in the crate's order,
/// each as the plain values it holds. Believed of it: the frames of a plain tag are read as
/// they stand, in order (a frame is never lost there, as no two are alike); of any other tag, frames and failure depend on the bytes alone, and
/// how they are decoded is not said.
#[verifier::external_body]
fn parse_id3(data: &[u8]) -> (r: Option<Vec<Id3Frame>>)
    requires
        alloc_safe(data@),
    ensures
        plain_tag(data@) ==> r is Some && frame_views(r->0@) == plain_models(
            frames_from(data@, 10, frames_end(data@)),
        ),
        !plain_tag(data@) ==> match r {
            Some(v) => id3_frames(data@) == Some(frame_views(v@)),
            None => id3_frames(data@) is None,
        },
{
    let tag = id3::Tag::read_from2(std::io::Cursor::new(data)).ok()?;
    Some(tag.frames().map(|f| match f.content().clone() {
        id3::Content::ExtendedText(t) => Id3Frame::ExtendedText { description: t.description, value: t.value },
        id3::Content::Comment(c) => Id3Frame::Comment { text: c.text },
        id3::Content::Lyrics(l) => Id3Frame::Lyrics { text: l.text },
        id3::Content::Text(text) => Id3Frame::Text { id: f.id().to_string(), text },
        id3::Content::Picture(p) => Id3Frame::Picture { mime: p.mime_type, picture_type: p.picture_type.into(), description: p.description, data: p.data },
        _ => Id3Frame::Other,
    }).collect())
}

/// The non-empty values between the NULs of a text.
pub open spec fn nul_values(b: Seq<u8>) -> Seq<Seq<char>>
    decreases b.len(),
{
    let n = find_byte(b, 0, 0);
    let head = if n > 0 {
        seq![decode_utf8(b.subrange(0, n))]
    } else {
        Seq::empty()
    };
    if 0 <= n < b.len() {
        head + nul_values(b.subrange(n + 1, b.len() as int))
    } else {
        head
    }
}

/// The same key for each value.
pub open spec fn keyed_values(key: Seq<char>, values: Seq<Seq<char>>) -> Seq<
    (Seq<char>, Seq<char>),
> {
    Seq::new(values.len(), |i: int| (key, values[i]))
}

/// The key of a `TXXX` description: the vocabulary's, else the description itself.
pub open spec fn txxx_key(description: Seq<char>) -> Seq<char> {
    match key_at(first(id3_txxx_is(description))) {
        Some(k) => k,
        None => description,
    }
}

/// The key of a text frame: the vocabulary's, else the frame id itself.
pub open spec fn text_key(id: Seq<char>) -> Seq<char> {
    match key_at(first(id3_text_is(utf8(id)))) {
        Some(k) => k,
        None => id,
    }
}

/// The pairs that one frame yields.
pub open spec fn frame_pairs(f: FrameModel) -> Seq<(Seq<char>, Seq<char>)> {
    match f {
        FrameModel::ExtendedText { description, value } => seq![(txxx_key(description), value)],
        FrameModel::Comment { text } => seq![("comment"@, text)],
        FrameModel::Lyrics { text } => seq![("lyrics"@, text)],
        FrameModel::Text { id, text } => keyed_values(text_key(id), nul_values(utf8(text))),
        _ => Seq::empty(),
    }
}

/// The pairs that frames yield, in order.
pub open spec fn frames_pairs(s: Seq<FrameModel>) -> Seq<(Seq<char>, Seq<char>)>
    decreases s.len(),
{
    if s.len() == 0 {
        Seq::empty()
    } else {
        frames_pairs(s.drop_last()) + frame_pairs(s.last())
    }
}

/// The pictures among frames, in order.
pub open spec fn frames_pictures(s: Seq<FrameModel>) -> Seq<PictureModel>
    decreases s.len(),
{
    if s.len() == 0 {
        Seq::empty()
    } else {
        let before = frames_pictures(s.drop_last());
        match s.last() {
            FrameModel::Picture { mime, picture_type, description, data } => before.push(
                PictureModel {
                    mime,
                    picture_type: clamped_type(picture_type as int),
                    description,
                    width: 0,
                    height: 0,
                    data,
                },
            ),
            _ => before,
        }
    }
}

/// Append a pair for each non-empty value between the NULs of `text`.
fn push_values(out: &mut Vec<(String, String)>, key: &str, text: &str)
    ensures
        pair_views(final(out)@) == pair_views(old(out)@) + keyed_values(
            key@,
            nul_values(utf8(text@)),
        ),
{
    let b = text.as_bytes();
    let n: usize = b.len();
    let ghost all = nul_values(b@);
    let ghost mut seen: Seq<Seq<char>> = Seq::empty();
    let ghost start = pair_views(out@);
    proof {
        encode_utf8_valid_utf8(text@);
        assert(b@.subrange(0, n as int) =~= b@);
        assert(seen + nul_values(b@) =~= all);
        assert(pair_views(out@) =~= start + keyed_values(key@, seen));
    }
    let mut pos: usize = 0;
    let mut more = true;
    while more
        invariant
            n == b@.len(),
            pos <= n,
            more ==> valid_utf8(b@.subrange(pos as int, n as int)),
            more ==> seen + nul_values(b@.subrange(pos as int, n as int)) == all,
            !more ==> seen == all,
            pair_views(out@) == start + keyed_values(key@, seen),
        decreases
                n - pos + (if more {
                    1int
                } else {
                    0
                }),
    {
        let rest = slice_subrange(b, pos, n);
        let at = position_of(rest, 0);
        proof {
            crate::bytes::find_byte_finds(rest@, 0, 0);
        }
        let ghost before = seen;
        let ghost head = if at > 0 {
            seq![decode_utf8(rest@.subrange(0, at as int))]
        } else {
            Seq::empty()
        };
        if at > 0 {
            let value = slice_subrange(rest, 0, at);
            proof {
                if at < rest@.len() {
                    utf8_splits_at_ascii(rest@, at as int);
                } else {
                    assert(rest@.subrange(0, at as int) =~= rest@);
                }
            }
            if let Some(v) = utf8_text(value) {
                push_pair(out, key.to_owned(), v.to_owned());
                proof {
                    seen = seen.push(v@);
                    assert(pair_views(out@) =~= start + keyed_values(key@, seen));
                }
            }
        }
        assert(seen =~= before + head);
        if at < rest.len() {
            proof {
                utf8_splits_at_ascii(rest@, at as int);
                assert(rest@.subrange(at + 1, rest@.len() as int) =~= b@.subrange(
                    pos + at + 1,
                    n as int,
                ));
                assert(before + (head + nul_values(b@.subrange(pos + at + 1, n as int))) =~= seen
                    + nul_values(b@.subrange(pos + at + 1, n as int)));
            }
            pos = pos + at + 1;
        } else {
            more = false;
        }
    }
}

/// The canonical pairs of a parsed tag's frames: text frames map via the vocabulary
/// (NUL-separated multi-value yields one pair per value); unmapped text frames pass through
/// keyed by their frame id; `TXXX` frames key on their description (folded to canonical
/// when known); `COMM`/`USLT` yield `comment`/`lyrics` (text only). Other frames are
/// skipped.
pub fn tags_of_frames(frames: &Vec<Id3Frame>) -> (r: Vec<(String, String)>)
    ensures
        pair_views(r@) == frames_pairs(frame_views(frames@)),
{
    let ghost all = frame_views(frames@);
    let mut out: Vec<(String, String)> = Vec::new();
    let mut i: usize = 0;
    assert(pair_views(out@) =~= frames_pairs(all.take(0)));
    while i < frames.len()
        invariant
            i <= frames@.len(),
            all == frame_views(frames@),
            pair_views(out@) == frames_pairs(all.take(i as int)),
        decreases frames@.len() - i,
    {
        let ghost before = pair_views(out@);
        assert(all.take(i + 1).drop_last() =~= all.take(i as int));
        assert(all.take(i + 1).last() == frame_view(frames@[i as int]));
        match &frames[i] {
            Id3Frame::ExtendedText { description, value } => {
                let key = match id3_txxx_to_key(description.as_str()) {
                    Some(k) => k.to_owned(),
                    None => description.clone(),
                };
                push_pair(&mut out, key, value.clone());
            },
            Id3Frame::Comment { text } => {
                push_pair(&mut out, "comment".to_owned(), text.clone());
            },
            Id3Frame::Lyrics { text } => {
                push_pair(&mut out, "lyrics".to_owned(), text.clone());
            },
            Id3Frame::Text { id, text } => {
                match id3_text_to_key(id.as_str()) {
                    Some(k) => push_values(&mut out, k, text.as_str()),
                    None => push_values(&mut out, id.as_str(), text.as_str()),
                }
            },
            _ => {},
        }
        assert(pair_views(out@) =~= before + frame_pairs(frame_view(frames@[i as int])));
        i = i + 1;
    }
    assert(all.take(i as int) =~= all);
    out
}

/// The pictures of a parsed tag's frames. A picture type over 20 counts as "Other".
pub fn pictures_of_frames(frames: &Vec<Id3Frame>) -> (r: Vec<EmbeddedPicture>)
    ensures
        picture_views(r@) == frames_pictures(frame_views(frames@)),
{
    let ghost all = frame_views(frames@);
    let mut out: Vec<EmbeddedPicture> = Vec::new();
    let mut i: usize = 0;
    assert(picture_views(out@) =~= frames_pictures(all.take(0)));
    while i < frames.len()
        invariant
            i <= frames@.len(),
            all == frame_views(frames@),
            picture_views(out@) == frames_pictures(all.take(i as int)),
        decreases frames@.len() - i,
    {
        assert(all.take(i + 1).drop_last() =~= all.take(i as int));
        assert(all.take(i + 1).last() == frame_view(frames@[i as int]));
        if let Id3Frame::Picture { mime, picture_type, description, data } = &frames[i] {
            let kind = match PictureType::new(*picture_type as u32) {
                Some(k) => k,
                None => PictureType::zero(),
            };
            push_embedded(
                &mut out,
                EmbeddedPicture {
                    mime: mime.clone(),
                    picture_type: kind,
                    description: description.clone(),
                    width: 0,
                    height: 0,
                    data: copy_range(data.as_slice(), 0, data.len()),
                },
            );
            assert(data@.subrange(0, data@.len() as int) =~= data@);
        }
        i = i + 1;
    }
    assert(all.take(i as int) =~= all);
    out
}

/// The pictures of a tag.
pub open spec fn tag_pictures(d: Seq<u8>) -> Seq<PictureModel> {
    match frames_of_tag(d) {
        Some(s) if alloc_safe(d) => frames_pictures(s),
        _ => Seq::empty(),
    }
}

/// The pairs of a tag's text frames.
pub open spec fn tag_pairs(d: Seq<u8>) -> Seq<(Seq<char>, Seq<char>)> {
    match frames_of_tag(d) {
        Some(s) if alloc_safe(d) => frames_pairs(s),
        _ => Seq::empty(),
    }
}

/// Extract all APIC pictures from an MP3's ID3v2 tag as embedded pictures, for
/// scan-time art ingestion. Returns empty if there is no tag or no pictures.
pub fn read_pictures(data: &[u8]) -> (r: Vec<EmbeddedPicture>)
    ensures
        picture_views(r@) == tag_pictures(data@),
{
    if id3v2_alloc_safe(data) {
        if let Some(frames) = parse_id3(data) {
            return pictures_of_frames(&frames);
        }
    }
    let r: Vec<EmbeddedPicture> = Vec::new();
    assert(picture_views(r@) =~= Seq::empty());
    r
}

/// Read an existing ID3v2 tag and fold it into canonical `(key, value)` pairs; see
/// [`tags_of_frames`].
pub fn read_tags(data: &[u8]) -> (r: Vec<(String, String)>)
    ensures
        pair_views(r@) == tag_pairs(data@),
{
    if id3v2_alloc_safe(data) {
        if let Some(frames) = parse_id3(data) {
            return tags_of_frames(&frames);
        }
    }
    let r: Vec<(String, String)> = Vec::new();
    assert(pair_views(r@) =~= Seq::empty());
    r
}

/// The frames of a v2.3 or v2.4 tag from `p` on, as id and body.
pub open spec fn frames_from(d: Seq<u8>, p: int, end: int) -> Seq<(Seq<u8>, Seq<u8>)>
    decreases end - p,
{
    let next = frame_end(d, p);
    if p + 10 > end || d[p] == 0 || next > end || next <= p {
        Seq::empty()
    } else {
        seq![(d.subrange(p, p + 4), d.subrange(p + 10, next))] + frames_from(d, next, end)
    }
}

/// The frame is read elsewhere: text (`T***`), `COMM`, `USLT`, `APIC`.
pub open spec fn read_elsewhere(id: Seq<u8>) -> bool {
    id[0] == 0x54 || id == ID_COMM@ || id == ID_USLT@ || id == ID_APIC@
}

/// A `UFID` body whose owner is MusicBrainz.
pub open spec fn musicbrainz_ufid(body: Seq<u8>) -> bool {
    let nul = find_byte(body, 0, 0);
    nul < body.len() && body.subrange(0, nul) == utf8(MUSICBRAINZ_UFID_OWNER@)
}

/// A frame id as text, byte for byte.
pub open spec fn id_text(id: Seq<u8>) -> Seq<char> {
    Seq::new(id.len(), |i: int| id[i] as char)
}

/// Every byte is a printable ASCII character other than the space.
pub open spec fn graphic(id: Seq<u8>) -> bool {
    forall|i: int| 0 <= i < id.len() ==> 0x21 <= #[trigger] id[i] <= 0x7e
}

/// What a frame leaves to be kept byte-exact.
pub open spec fn opaque_part(id: Seq<u8>, body: Seq<u8>) -> Seq<(Seq<char>, Seq<u8>)> {
    if read_elsewhere(id) || id == ID_POPM@ || (id == ID_UFID@ && musicbrainz_ufid(body))
        || !graphic(id) {
        Seq::empty()
    } else {
        seq![(id_text(id), body)]
    }
}

/// The pairs that a frame is promoted to: `POPM` to a rating and, where it is not zero, a
/// play count; a MusicBrainz `UFID` to its identifier.
pub open spec fn promoted_part(id: Seq<u8>, body: Seq<u8>) -> Seq<(Seq<char>, Seq<char>)> {
    let nul = find_byte(body, 0, 0);
    if read_elsewhere(id) {
        Seq::empty()
    } else if id == ID_POPM@ {
        if nul + 1 < body.len() {
            let count = be_value(front_eight(body.subrange(nul + 2, body.len() as int)));
            let rating = ("rating"@, decimal(body[nul + 1] as int));
            if count > 0 {
                seq![rating, ("playcount"@, decimal(count))]
            } else {
                seq![rating]
            }
        } else {
            Seq::empty()
        }
    } else if id == ID_UFID@ && musicbrainz_ufid(body) {
        seq![("musicbrainz_trackid"@, lossy_text(body.subrange(nul + 1, body.len() as int)))]
    } else {
        Seq::empty()
    }
}

/// What frames leave to be kept byte-exact, in order.
pub open spec fn opaque_frames(s: Seq<(Seq<u8>, Seq<u8>)>) -> Seq<(Seq<char>, Seq<u8>)>
    decreases s.len(),
{
    if s.len() == 0 {
        Seq::empty()
    } else {
        opaque_frames(s.drop_last()) + opaque_part(s.last().0, s.last().1)
    }
}

/// The pairs that frames are promoted to, in order.
pub open spec fn promoted_pairs(s: Seq<(Seq<u8>, Seq<u8>)>) -> Seq<(Seq<char>, Seq<char>)>
    decreases s.len(),
{
    if s.len() == 0 {
        Seq::empty()
    } else {
        promoted_pairs(s.drop_last()) + promoted_part(s.last().0, s.last().1)
    }
}

/// The frames of a tag whose binary frames are read: a v2.3 or v2.4 tag that the guard
/// lets through.
pub open spec fn tag_frames(d: Seq<u8>) -> Seq<(Seq<u8>, Seq<u8>)> {
    if alloc_safe(d) && d[3] >= 3 {
        frames_from(d, frames_start(d), frames_end(d))
    } else {
        Seq::empty()
    }
}

/// Extract an ID3v2.3/2.4 tag's binary frames. Returns `(opaque, promoted)`:
/// - `opaque`: frames preserved **byte-exact**, `(frame-id, raw post-header body)`.
///   `PRIV`/`GEOB`/`SYLT`/`MCDI`/unknown frames and any non-MusicBrainz `UFID`.
/// - `promoted`: `(key, value)` text pairs: `POPM` gives `rating` (raw 0-255) + `playcount`
///   (counter, omitted when 0); MusicBrainz `UFID` gives `musicbrainz_trackid`. Promoted
///   frames are NOT in `opaque`.
///
/// Text (`T***`), `COMM`, `USLT`, `APIC` are handled by `read_tags`/`read_pictures`
/// and skipped. Gated by `id3v2_alloc_safe`, so the tag is well-formed and bodies are
/// sliced verbatim. v2.2 (3-char ids) is not processed.
pub fn read_binary_tags(data: &[u8]) -> (r: (Vec<EmbeddedBinaryTag>, Vec<(String, String)>))
    ensures
        binary_views(r.0@) == opaque_frames(tag_frames(data@)),
        pair_views(r.1@) == promoted_pairs(tag_frames(data@)),
{
    let mut opaque: Vec<EmbeddedBinaryTag> = Vec::new();
    let mut promoted: Vec<(String, String)> = Vec::new();
    assert(binary_views(opaque@) =~= Seq::empty());
    assert(pair_views(promoted@) =~= Seq::empty());
    if !id3v2_alloc_safe(data) || data[3] < 3 {
        return (opaque, promoted);
    }
    let (start, end) = match check_tag_head(data) {
        Some(v) => v,
        None => {
            return (opaque, promoted);
        },
    };
    let ghost all = tag_frames(data@);
    let ghost mut seen: Seq<(Seq<u8>, Seq<u8>)> = Seq::empty();
    assert(seen + frames_from(data@, start as int, end as int) =~= all);
    let mut pos: usize = start;
    while pos <= end - 10
        invariant
            10 <= end <= data@.len(),
            3 <= data@[3] <= 4,
            seen + frames_from(data@, pos as int, end as int) == all,
            binary_views(opaque@) == opaque_frames(seen),
            pair_views(promoted@) == promoted_pairs(seen),
        ensures
            seen == all,
        decreases
                (if pos <= end {
                    end - pos
                } else {
                    0
                }),
    {
        if data[pos] == 0 {
            assert(seen =~= all);
            break;
        }
        let size = declared_size(data, pos);
        let body_start: usize = pos + 10;
        if size > end - body_start {
            assert(seen =~= all);
            break;
        }
        let id = slice_subrange(data, pos, pos + 4);
        let body = slice_subrange(data, body_start, body_start + size);
        classify_binary_frame(id, body, &mut opaque, &mut promoted);
        proof {
            let f = (id@, body@);
            let next = frame_end(data@, pos as int);
            assert(seen.push(f).drop_last() =~= seen);
            assert(seen + (seq![f] + frames_from(data@, next, end as int)) =~= seen.push(f)
                + frames_from(data@, next, end as int));
            seen = seen.push(f);
        }
        pos = body_start + size;
    }
    (opaque, promoted)
}

/// Are all bytes printable ASCII characters other than the space?
fn is_graphic(id: &[u8]) -> (r: bool)
    ensures
        r == graphic(id@),
{
    let mut i: usize = 0;
    while i < id.len()
        invariant
            i <= id@.len(),
            forall|j: int| 0 <= j < i ==> 0x21 <= #[trigger] id@[j] <= 0x7e,
        decreases id@.len() - i,
    {
        if id[i] < 0x21 || id[i] > 0x7e {
            return false;
        }
        i = i + 1;
    }
    true
}

/// The text of a frame id of printable ASCII characters.
fn text_of_id(id: &[u8]) -> (r: String)
    requires
        graphic(id@),
    ensures
        r@ == id_text(id@),
{
    let s = utf8_text_lossy(id);
    proof {
        let t = id_text(id@);
        assert(is_ascii_chars(t)) by {
            assert forall|i: int| 0 <= i < t.len() implies (#[trigger] t[i] as u32) < 0x80 by {
                assert(0x21 <= id@[i] <= 0x7e);
            }
        }
        crate::text::ascii_bytes(t);
        assert(utf8(t) =~= id@);
        encode_utf8_valid_utf8(t);
        encode_utf8_decode_utf8(t);
    }
    s
}

/// Classify one ID3v2 frame body into opaque-passthrough or promoted-text.
pub fn classify_binary_frame(
    id: &[u8],
    body: &[u8],
    opaque: &mut Vec<EmbeddedBinaryTag>,
    promoted: &mut Vec<(String, String)>,
)
    requires
        id@.len() == 4,
    ensures
        binary_views(final(opaque)@) == binary_views(old(opaque)@) + opaque_part(id@, body@),
        pair_views(final(promoted)@) == pair_views(old(promoted)@) + promoted_part(id@, body@),
{
    let ghost o = binary_views(opaque@);
    let ghost p = pair_views(promoted@);
    if id[0] == 0x54 || same_bytes(id, ID_COMM.as_slice()) || same_bytes(id, ID_USLT.as_slice())
        || same_bytes(id, ID_APIC.as_slice()) {
        assert(o + opaque_part(id@, body@) =~= o);
        assert(p + promoted_part(id@, body@) =~= p);
        return ;
    }
    let nul = position_of(body, 0);
    let n: usize = body.len();
    proof {
        crate::bytes::find_byte_finds(body@, 0, 0);
    }
    if same_bytes(id, ID_POPM.as_slice()) {
        // <owner>\0<rating:u8>[<counter: big-endian>]
        if nul < n && nul + 1 < n {
            push_pair(promoted, "rating".to_owned(), decimal_text(body[nul + 1] as u64));
            let c = be_number(slice_subrange(body, nul + 2, n));
            if c > 0 {
                push_pair(promoted, "playcount".to_owned(), decimal_text(c));
            }
        }
        assert(o + opaque_part(id@, body@) =~= o);
        assert(p + promoted_part(id@, body@) =~= pair_views(promoted@));
        return ;
    }
    if same_bytes(id, ID_UFID.as_slice()) {
        // <owner>\0<identifier>. MusicBrainz owner promotes; others opaque.
        if nul < n && same_bytes(slice_subrange(body, 0, nul), MUSICBRAINZ_UFID_OWNER.as_bytes()) {
            let text = utf8_text_lossy(slice_subrange(body, nul + 1, n));
            push_pair(promoted, "musicbrainz_trackid".to_owned(), text);
            assert(o + opaque_part(id@, body@) =~= o);
            assert(p + promoted_part(id@, body@) =~= pair_views(promoted@));
            return ;
        }
    }
    // Opaque verbatim: PRIV, GEOB, SYLT, MCDI, W***, unknown, ... (4-byte ids).
    if is_graphic(id) {
        push_binary(opaque, text_of_id(id), copy_range(body, 0, n));
        assert(body@.subrange(0, n as int) =~= body@);
    }
    assert(o + opaque_part(id@, body@) =~= binary_views(opaque@));
    assert(p + promoted_part(id@, body@) =~= p);
}

} // verus!
