//! Where an MP3's audio ends: the tags that trail it.
//!
//! ID3v2.4 lets a tag follow the audio, and it is "REQUIRED to add a footer to
//! an appended tag", a footer that exists "to speed up the process of locating
//! an ID3v2 tag when searching from the end of a file". A reader is to "look for a
//! tag footer, scanning from the back of the file", and an appended tag stands "before
//! tags from other tagging systems", such as ID3v1's 128-byte trailer. This module is that backwards scan.

use crate::error::FormatError;
use crate::error::Result;
use crate::id3v2::appended_start;
use crate::id3v2::appended_tag_start;
use crate::id3v2::MAX_APPENDED_TAGS;
use crate::mp3::locate::id3v1_at;
use crate::probe::Extent;
use vstd::prelude::*;

verus! {

/// Bytes in an ID3v1 trailer.
pub const ID3V1_LEN: u64 = 128;

/// One tag trailing an MP3's audio: its extent in the file, and whether it is an
/// ID3v2 tag, whose contents are ingested, or an ID3v1 trailer, which is not.
#[derive(Debug, Clone, Copy, PartialEq, Eq)]
pub struct Trailing {
    pub start: u64,
    pub end: u64,
    pub id3v2: bool,
}

/// The tags at the end of an MP3, as [`locate_trailer`] found them.
#[derive(Debug, Clone, PartialEq, Eq)]
pub struct Mp3Trailer {
    /// Nearest the end of the file first.
    pub tags: Vec<Trailing>,
}

/// What a walk over trailing tags comes to.
pub enum TrailerModel {
    /// The tags, nearest the end first.
    Tags(Seq<Trailing>),
    /// How many bytes from the end of the file the next step needs.
    Needs(int),
    /// Too many appended tags.
    Malformed,
}

/// Tags put in front of what the rest of a walk comes to.
pub open spec fn preceded_by(t: Trailing, rest: TrailerModel) -> TrailerModel {
    match rest {
        TrailerModel::Tags(s) => TrailerModel::Tags(seq![t] + s),
        other => other,
    }
}

/// What the walk backwards from file offset `end` comes to: appended ID3v2.4 tags, each
/// found by its footer, and at most one ID3v1 trailer. `appended` counts the tags found
/// before, `id3v1_seen` says whether the trailer was.
pub open spec fn walk_back(
    tail: Seq<u8>,
    tail_start: int,
    end: int,
    appended: int,
    id3v1_seen: bool,
) -> TrailerModel
    decreases end,
{
    match appended_start(tail, tail_start, end) {
        Err(n) => TrailerModel::Needs(n),
        Ok(Some(start)) => if appended == MAX_APPENDED_TAGS {
            TrailerModel::Malformed
        } else if start < 0 || start >= end {
            TrailerModel::Malformed
        } else {
            preceded_by(
                Trailing { start: start as u64, end: end as u64, id3v2: true },
                walk_back(tail, tail_start, start, appended + 1, id3v1_seen),
            )
        },
        Ok(None) => if id3v1_seen || end < 128 {
            TrailerModel::Tags(Seq::empty())
        } else if end - 128 < tail_start {
            TrailerModel::Needs(tail_start + tail.len() - (end - 128))
        } else if !id3v1_at(tail, end - 128 - tail_start) {
            TrailerModel::Tags(Seq::empty())
        } else {
            preceded_by(
                Trailing { start: (end - 128) as u64, end: end as u64, id3v2: false },
                walk_back(tail, tail_start, end - 128, appended, true),
            )
        },
    }
}

/// Walk the tags trailing an MP3's audio, backwards from the end of the file:
/// appended ID3v2.4 tags, each found by a footer that agrees with its header
/// (see [`appended_tag_start`]), and at most one ID3v1 trailer, either
/// after them, where ID3v2.4 places it, or before them, where a writer appending at
/// end of file leaves it.
///
/// `tail` is the file's last `tail.len()` bytes, and `file_len` its size. The
/// walk does not know where the audio begins, so it reports every tag it can
/// see. `NeedMore { up_to }` counts back from the end of the file: retry with the
/// file's last `up_to` bytes, which is always more than `tail` holds and never more than the
/// file. More than
/// [`MAX_APPENDED_TAGS`] appended tags, or a `tail` longer than the file,
/// is `Malformed`.
pub fn locate_trailer(tail: &[u8], file_len: u64) -> (r: Result<Extent<Mp3Trailer>>)
    ensures
        ({
            let verdict = walk_back(
                tail@,
                file_len - tail@.len(),
                file_len as int,
                0,
                false,
            );
            match r {
                Ok(Extent::Complete(t)) => tail@.len() <= file_len && verdict
                    == TrailerModel::Tags(t.tags@),
                Ok(Extent::NeedMore { up_to }) => tail@.len() <= file_len && verdict
                    == TrailerModel::Needs(up_to as int) && tail@.len() < up_to <= file_len,
                Err(e) => e == FormatError::Malformed && (tail@.len() > file_len || verdict
                    is Malformed),
            }
        }),
{
    if tail.len() as u64 > file_len {
        return Err(FormatError::Malformed);
    }
    let tail_start: u64 = file_len - tail.len() as u64;
    let ghost goal = walk_back(tail@, tail_start as int, file_len as int, 0, false);
    let mut tags: Vec<Trailing> = Vec::new();
    let mut end: u64 = file_len;
    let mut appended: usize = 0;
    let mut id3v1_seen: bool = false;
    proof {
        if let TrailerModel::Tags(s) = goal {
            assert(tags@ + s =~= s);
        }
    }
    loop
        invariant
            tail_start + tail@.len() == file_len,
            end <= file_len,
            appended <= MAX_APPENDED_TAGS,
            goal == walk_back(tail@, tail_start as int, file_len as int, 0, false),
            match walk_back(tail@, tail_start as int, end as int, appended as int, id3v1_seen) {
                TrailerModel::Tags(rest) => goal == TrailerModel::Tags(tags@ + rest),
                other => goal == other,
            },
        decreases end,
    {
        let ghost before = tags@;
        match appended_tag_start(tail, tail_start, end) {
            Extent::NeedMore { up_to } => {
                return Ok(Extent::NeedMore { up_to });
            },
            Extent::Complete(Some(start)) => {
                if appended == MAX_APPENDED_TAGS {
                    return Err(FormatError::Malformed);
                }
                let t = Trailing { start, end, id3v2: true };
                tags.push(t);
                proof {
                    if let TrailerModel::Tags(rest) = walk_back(
                        tail@,
                        tail_start as int,
                        start as int,
                        appended + 1,
                        id3v1_seen,
                    ) {
                        assert(before + (seq![t] + rest) =~= tags@ + rest);
                    }
                }
                appended = appended + 1;
                end = start;
            },
            Extent::Complete(None) => {
                // No footer ends here. One ID3v1 trailer may, with more appended tags in
                // front of it.
                if id3v1_seen || end < ID3V1_LEN {
                    assert(tags@ + Seq::<Trailing>::empty() =~= tags@);
                    return Ok(Extent::Complete(Mp3Trailer { tags }));
                }
                let start: u64 = end - ID3V1_LEN;
                if start < tail_start {
                    return Ok(Extent::NeedMore { up_to: file_len - start });
                }
                let offset: usize = (start - tail_start) as usize;
                if tail[offset] != 0x54 || tail[offset + 1] != 0x41 || tail[offset + 2] != 0x47 {
                    assert(tags@ + Seq::<Trailing>::empty() =~= tags@);
                    return Ok(Extent::Complete(Mp3Trailer { tags }));
                }
                let t = Trailing { start, end, id3v2: false };
                tags.push(t);
                proof {
                    if let TrailerModel::Tags(rest) = walk_back(
                        tail@,
                        tail_start as int,
                        start as int,
                        appended as int,
                        true,
                    ) {
                        assert(before + (seq![t] + rest) =~= tags@ + rest);
                    }
                }
                id3v1_seen = true;
                end = start;
            },
        }
    }
}

/// What stands in a tail stands in a longer tail of the same file.
proof fn longer_tail_start(front: Seq<u8>, tail: Seq<u8>, tail_start: int, end: int)
    requires
        front.len() <= tail_start,
        end <= tail_start + tail.len(),
        appended_start(tail, tail_start, end) is Ok,
    ensures
        appended_start(front + tail, tail_start - front.len(), end) == appended_start(
            tail,
            tail_start,
            end,
        ),
{
    let d = front + tail;
    let n = front.len() as int;
    let f = end - 10 - tail_start;
    if end >= 20 {
        assert forall|k: int| 0 <= k < tail.len() implies d[n + k] == tail[k] by {}
        assert(d[n + f] == tail[f] && d[n + f + 1] == tail[f + 1] && d[n + f + 2] == tail[f + 2]
            && d[n + f + 3] == tail[f + 3] && d[n + f + 4] == tail[f + 4] && d[n + f + 5] == tail[f
            + 5] && d[n + f + 6] == tail[f + 6] && d[n + f + 7] == tail[f + 7] && d[n + f + 8]
            == tail[f + 8] && d[n + f + 9] == tail[f + 9]);
        let start = end - 20 - crate::id3v2::synchsafe(tail, f + 6);
        let h = start - tail_start;
        if h >= 0 {
            assert(d[n + h] == tail[h] && d[n + h + 1] == tail[h + 1] && d[n + h + 2] == tail[h + 2]
                && d[n + h + 3] == tail[h + 3] && d[n + h + 4] == tail[h + 4] && d[n + h + 5]
                == tail[h + 5] && d[n + h + 6] == tail[h + 6] && d[n + h + 7] == tail[h + 7] && d[n
                + h + 8] == tail[h + 8] && d[n + h + 9] == tail[h + 9]);
            assert(d.subrange(n + h + 3, n + h + 10) =~= tail.subrange(h + 3, h + 10));
            assert(d.subrange(n + f + 3, n + f + 10) =~= tail.subrange(f + 3, f + 10));
        }
    }
}

/// A walk that a tail completes comes to the same over every longer tail of the same file;
/// and so does one that finds too many tags.
pub proof fn longer_tail_decides_alike(
    front: Seq<u8>,
    tail: Seq<u8>,
    tail_start: int,
    end: int,
    appended: int,
    id3v1_seen: bool,
)
    requires
        front.len() <= tail_start,
        0 <= end <= tail_start + tail.len(),
        !(walk_back(tail, tail_start, end, appended, id3v1_seen) is Needs),
    ensures
        walk_back(front + tail, tail_start - front.len(), end, appended, id3v1_seen) == walk_back(
            tail,
            tail_start,
            end,
            appended,
            id3v1_seen,
        ),
    decreases end,
{
    longer_tail_start(front, tail, tail_start, end);
    match appended_start(tail, tail_start, end) {
        Ok(Some(start)) => {
            if appended != MAX_APPENDED_TAGS && 0 <= start < end {
                longer_tail_decides_alike(
                    front,
                    tail,
                    tail_start,
                    start,
                    appended + 1,
                    id3v1_seen,
                );
            }
        },
        Ok(None) => {
            if !id3v1_seen && end >= 128 {
                let d = front + tail;
                let p = end - 128 - tail_start;
                let n = front.len() as int;
                assert(d[n + p] == tail[p] && d[n + p + 1] == tail[p + 1] && d[n + p + 2] == tail[p
                    + 2]);
                if id3v1_at(tail, p) {
                    longer_tail_decides_alike(
                        front,
                        tail,
                        tail_start,
                        end - 128,
                        appended,
                        true,
                    );
                }
            }
        },
        Err(_) => {},
    }
}

} // verus!
