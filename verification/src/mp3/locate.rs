//! Where an MP3's audio begins and ends.

use crate::error::FormatError;
use crate::error::Result;
use crate::id3v2::header_at;
use crate::id3v2::starts_with_tag;
use crate::id3v2::synchsafe;
use crate::id3v2::synchsafe_decode;
use crate::probe::Extent;
use std::ops::Range;
use vstd::prelude::*;

verus! {

/// Where the MP3 audio frames begin and end (excluding any ID3v2 prefix and
/// ID3v1 trailer). Unlike FLAC there is no preserved structural metadata: the
/// ID3v2 tag is regenerated from the DB, and the Xing/LAME info frame lives
/// inside the first audio frame, carried by the backing-audio segment.
#[derive(Debug, Clone, PartialEq, Eq)]
pub struct Mp3Bounds {
    pub audio_offset: u64,
    pub audio_length: u64,
    /// The extents of the ID3v2 tags, in file order.
    pub id3v2_tags: Vec<Range<u64>>,
}

/// The length of the leading ID3v2 tag, footer counted; 0 where there is none.
pub open spec fn leading_len(d: Seq<u8>) -> int {
    if header_at(d, 0) {
        10 + synchsafe(d, 6) + if (d[5] / 0x10) % 2 == 1 {
            10int
        } else {
            0
        }
    } else {
        0
    }
}

/// An MPEG audio frame sync, 11 set bits, stands at `p`.
pub open spec fn sync_at(d: Seq<u8>, p: int) -> bool {
    p + 1 < d.len() && d[p] == 0xff && d[p + 1] >= 0xe0
}

/// `TAG` stands at `p`.
pub open spec fn id3v1_at(d: Seq<u8>, p: int) -> bool {
    d[p] == 0x54 && d[p + 1] == 0x41 && d[p + 2] == 0x47
}

/// Where the audio that starts at `start` ends: before a 128-byte ID3v1 trailer, if there
/// is one.
pub open spec fn audio_end(d: Seq<u8>, start: int) -> int {
    if d.len() >= start + 128 && id3v1_at(d, d.len() - 128) {
        d.len() - 128
    } else {
        d.len() as int
    }
}

/// Start and end of the audio of the file `d`, or why there is none.
pub open spec fn located(d: Seq<u8>) -> std::result::Result<(int, int), FormatError> {
    let start = leading_len(d);
    if start > d.len() {
        Err(FormatError::Malformed)
    } else if !sync_at(d, start) {
        Err(FormatError::NotMp3)
    } else {
        Ok((start, audio_end(d, start)))
    }
}

/// `b` gives the audio bounds and the leading tag's extent.
pub open spec fn bounds_are(b: Mp3Bounds, start: int, end: int) -> bool {
    &&& b.audio_offset == start
    &&& b.audio_length == end - start
    &&& start == 0 ==> b.id3v2_tags@.len() == 0
    &&& start > 0 ==> b.id3v2_tags@.len() == 1 && b.id3v2_tags@[0].start == 0
        && b.id3v2_tags@[0].end == start
}

/// The length of the leading ID3v2 tag.
fn leading_tag(data: &[u8]) -> (r: usize)
    ensures
        r == leading_len(data@),
        r <= 0x1000_0013,
{
    if data.len() < 10 || !starts_with_tag(data) {
        return 0;
    }
    let body: usize = synchsafe_decode(vstd::slice::slice_subrange(data, 6, 10)) as usize;
    if (data[5] / 0x10) % 2 == 1 {
        10 + body + 10
    } else {
        10 + body
    }
}

/// The bounds of audio between `start` and `end`.
fn make_bounds(start: u64, end: u64) -> (r: Mp3Bounds)
    requires
        start <= end,
    ensures
        bounds_are(r, start as int, end as int),
{
    let mut tags: Vec<Range<u64>> = Vec::new();
    if start > 0 {
        tags.push(Range { start: 0, end: start });
    }
    Mp3Bounds { audio_offset: start, audio_length: end - start, id3v2_tags: tags }
}

/// Locate the audio region: skip a leading ID3v2 tag (if present) and a trailing
/// 128-byte ID3v1 tag (if present), then require an MPEG frame sync at the audio
/// offset. The synthesized file re-prepends a fresh ID3v2 tag, so the original
/// one is intentionally *not* preserved.
pub fn locate_audio(data: &[u8]) -> (r: Result<Mp3Bounds>)
    ensures
        match r {
            Ok(b) => located(data@) is Ok && bounds_are(
                b,
                located(data@)->Ok_0.0,
                located(data@)->Ok_0.1,
            ),
            Err(e) => located(data@) == Err::<(int, int), FormatError>(e),
        },
{
    let len: usize = data.len();
    let start: usize = leading_tag(data);
    if start > len {
        return Err(FormatError::Malformed);
    }
    if len - start < 2 || data[start] != 0xff || data[start + 1] < 0xe0 {
        return Err(FormatError::NotMp3);
    }
    let mut end: usize = len;
    if len - start >= 128 && data[len - 128] == 0x54 && data[len - 127] == 0x41 && data[len - 126]
        == 0x47 {
        end = len - 128;
    }
    Ok(make_bounds(start as u64, end as u64))
}

/// What a bounded look at a file comes to.
pub enum BoundedModel {
    /// Start and end of the audio.
    Found(int, int),
    /// The prefix has to reach this offset.
    Needs(int),
    /// There is no audio to find.
    Fails(FormatError),
}

/// What a look at the front `prefix` of a file of `file_len` bytes, and at its last 128
/// bytes `tail`, comes to.
pub open spec fn located_bounded(
    prefix: Seq<u8>,
    file_len: int,
    tail: Option<Seq<u8>>,
) -> BoundedModel {
    let start = leading_len(prefix);
    if start > file_len {
        BoundedModel::Fails(FormatError::Malformed)
    } else if prefix.len() < 10 && file_len >= 10 {
        BoundedModel::Needs(10)
    } else if start + 2 > file_len {
        BoundedModel::Fails(FormatError::NotMp3)
    } else if start + 2 > prefix.len() {
        BoundedModel::Needs(start + 2)
    } else if !sync_at(prefix, start) {
        BoundedModel::Fails(FormatError::NotMp3)
    } else if tail is Some && file_len >= start + 128 && id3v1_at(tail->0, 0) {
        BoundedModel::Found(start, file_len - 128)
    } else {
        BoundedModel::Found(start, file_len)
    }
}

/// A tail as a mathematical value.
pub open spec fn tail_view(t: Option<&[u8; 128]>) -> Option<Seq<u8>> {
    match t {
        Some(a) => Some(a@),
        None => None,
    }
}

/// Bounded twin of [`locate_audio`]. `prefix` is a front window; `file_len` is the
/// true size; `tail` is the file's last 128 bytes (or `None` if the file is
/// shorter than 128 bytes). The audio start is the end of any leading ID3v2 tag
/// (declared in its 10-byte header); if that end is past the prefix, returns
/// `NeedMore`. The audio end is `file_len` minus a 128-byte ID3v1 trailer when the
/// `tail` begins with `TAG`.
pub fn locate_audio_bounded(
    prefix: &[u8],
    file_len: u64,
    tail: Option<&[u8; 128]>,
) -> (r: Result<Extent<Mp3Bounds>>)
    ensures
        match (located_bounded(prefix@, file_len as int, tail_view(tail)), r) {
            (BoundedModel::Found(s, e), Ok(Extent::Complete(b))) => bounds_are(b, s, e),
            (BoundedModel::Needs(n), Ok(Extent::NeedMore { up_to })) => up_to == n,
            (BoundedModel::Fails(e), Err(f)) => e == f,
            _ => false,
        },
{
    let start: usize = leading_tag(prefix);
    if start as u64 > file_len {
        return Err(FormatError::Malformed);
    }
    if prefix.len() < 10 && file_len >= 10 {
        // Not enough bytes even to read the ID3v2 header.
        return Ok(Extent::NeedMore { up_to: 10 });
    }
    // The audio start (plus its 2-byte frame sync) must fit in the file: a tag that claims
    // audio begins at/after EOF fails fast rather than asking for more than there is.
    if start as u64 + 2 > file_len {
        return Err(FormatError::NotMp3);
    }
    if start + 2 > prefix.len() {
        return Ok(Extent::NeedMore { up_to: start as u64 + 2 });
    }
    if prefix[start] != 0xff || prefix[start + 1] < 0xe0 {
        return Err(FormatError::NotMp3);
    }
    let mut end: u64 = file_len;
    if let Some(t) = tail {
        if file_len >= start as u64 + 128 && t[0] == 0x54 && t[1] == 0x41 && t[2] == 0x47 {
            end = file_len - 128;
        }
    }
    Ok(Extent::Complete(make_bounds(start as u64, end)))
}

/// A bounded look at the front of a file, with its last 128 bytes at hand, agrees with a
/// look at the whole file: what it finds is what is there, it fails as the whole fails,
/// and what it asks for is more than it had and lies within the file.
pub proof fn bounded_agrees_with_whole(d: Seq<u8>, n: int)
    requires
        0 <= n <= d.len(),
    ensures
        ({
            let tail = if d.len() >= 128 {
                Some(d.skip(d.len() - 128))
            } else {
                None
            };
            match located_bounded(d.take(n), d.len() as int, tail) {
                BoundedModel::Found(s, e) => located(d) == Ok::<(int, int), FormatError>((s, e)),
                BoundedModel::Fails(e) => located(d) == Err::<(int, int), FormatError>(e),
                BoundedModel::Needs(m) => n < m <= d.len(),
            }
        }),
{
    let p = d.take(n);
    if n >= 10 {
        assert(leading_len(p) == leading_len(d));
    } else if d.len() < 10 {
        assert(leading_len(p) == 0 && leading_len(d) == 0);
    }
}

} // verus!
