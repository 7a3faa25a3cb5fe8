//! Shared ID3v2 tag-boundary arithmetic.
//!
//! MP3 carries a leading ID3v2 tag by design. FLAC does not, but files that
//! prepend one (or several) before the `fLaC` marker exist in the wild,
//! so both formats need the same question answered: where does the tag end?
//!
//! Nothing here parses frames; see `mp3::read_tags` / `mp3::read_pictures` for
//! the contents, which are gated separately by `mp3::id3v2_alloc_safe`.

use crate::error::FormatError;
use crate::error::Result;
use crate::probe::Extent;
use vstd::prelude::*;

verus! {

/// Bytes in an ID3v2 header: `"ID3"`, 2 version bytes, flags, and a 4-byte size.
pub const HEADER_LEN: usize = 10;

/// Bytes in the optional ID3v2.4 footer, present when header flag bit 4 is set.
pub const FOOTER_LEN: usize = 10;

/// Ceiling on how many stacked leading tags the walk will step over. Real files
/// carry one, occasionally a handful; a longer run is a malformed file.
pub const MAX_LEADING_TAGS: usize = 64;

/// Ceiling on how many appended tags a walk from the end will step over.
pub const MAX_APPENDED_TAGS: usize = 64;

/// The synchsafe value at `p`: seven bits of each of four bytes.
pub open spec fn synchsafe(b: Seq<u8>, p: int) -> int {
    (b[p] % 0x80) * 0x20_0000 + (b[p + 1] % 0x80) * 0x4000 + (b[p + 2] % 0x80) * 0x80 + b[p + 3]
        % 0x80
}

/// A 28-bit value as four synchsafe bytes.
pub open spec fn synchsafe_bytes(n: int) -> Seq<u8> {
    seq![
        ((n / 0x20_0000) % 0x80) as u8,
        ((n / 0x4000) % 0x80) as u8,
        ((n / 0x80) % 0x80) as u8,
        (n % 0x80) as u8,
    ]
}

/// Decoding gives back the 28-bit value that was encoded, and every encoded byte has its
/// high bit clear.
pub proof fn synchsafe_round_trip(n: int)
    requires
        0 <= n <= 0x0fff_ffff,
    ensures
        synchsafe(synchsafe_bytes(n), 0) == n,
        forall|i: int| 0 <= i < 4 ==> #[trigger] synchsafe_bytes(n)[i] < 0x80,
{
    let a = n % 0x80;
    let b = (n / 0x80) % 0x80;
    let c = (n / 0x4000) % 0x80;
    let d = (n / 0x20_0000) % 0x80;
    assert(n == a + 0x80 * b + 0x4000 * c + 0x20_0000 * d);
}

/// Decode a 4-byte synchsafe integer (28 bits, high bit clear in every byte), the
/// encoding ID3v2 uses for its tag size and for v2.4 frame sizes.
pub fn synchsafe_decode(b: &[u8]) -> (r: u32)
    requires
        b@.len() >= 4,
    ensures
        r == synchsafe(b@, 0),
        r <= 0x0fff_ffff,
{
    (b[0] % 0x80) as u32 * 0x20_0000 + (b[1] % 0x80) as u32 * 0x4000 + (b[2] % 0x80) as u32 * 0x80
        + (b[3] % 0x80) as u32
}

/// The `ID3` magic stands at `p`.
pub open spec fn magic_at(d: Seq<u8>, p: int) -> bool {
    p + 3 <= d.len() && d[p] == 0x49 && d[p + 1] == 0x44 && d[p + 2] == 0x33
}

/// Does `data` begin with the `ID3` magic? A cheap pre-check for callers that
/// want to skip work (an extra read, a fallback parse) on the common case of no
/// tag at all; it does not validate the header.
pub fn starts_with_tag(data: &[u8]) -> (r: bool)
    ensures
        r == magic_at(data@, 0),
{
    data.len() >= 3 && data[0] == 0x49 && data[1] == 0x44 && data[2] == 0x33
}

/// A whole header, recognised by its magic, stands at `p`.
pub open spec fn header_at(d: Seq<u8>, p: int) -> bool {
    p + 10 <= d.len() && magic_at(d, p)
}

/// The header at `p` fits the detection pattern `$49 44 33 yy yy xx zz zz zz zz`: neither
/// version byte is $FF and every size byte is below $80.
pub open spec fn header_sane(d: Seq<u8>, p: int) -> bool {
    &&& d[p + 3] != 0xff
    &&& d[p + 4] != 0xff
    &&& d[p + 6] < 0x80
    &&& d[p + 7] < 0x80
    &&& d[p + 8] < 0x80
    &&& d[p + 9] < 0x80
}

/// The length of the tag at `p`: header, body, and the footer that only ID3v2.4 defines.
pub open spec fn tag_len_at(d: Seq<u8>, p: int) -> int {
    10 + synchsafe(d, p + 6) + if d[p + 3] == 4 && (d[p + 5] / 0x10) % 2 == 1 {
        10int
    } else {
        0
    }
}

/// End of the ID3v2 tag *body* at the front of `data`: `HEADER_LEN` plus the
/// declared size, excluding any v2.4 footer. `None` when `data` does not start
/// with a tag header (or is too short to hold one).
///
/// This is the bound for walking the tag's frames. Use [`total_len`] to find
/// where the next thing in the file begins. There is deliberately no check that the
/// version is one we can parse: the header is laid out the same way in every version, so
/// its size is enough to step *over* the tag.
pub fn body_end(data: &[u8]) -> (r: Result<Option<usize>>)
    ensures
        match r {
            Ok(Some(n)) => header_at(data@, 0) && header_sane(data@, 0) && n == 10 + synchsafe(
                data@,
                6,
            ),
            Ok(None) => !header_at(data@, 0),
            Err(e) => e == FormatError::Malformed && header_at(data@, 0) && !header_sane(
                data@,
                0,
            ),
        },
{
    if data.len() < HEADER_LEN || !starts_with_tag(data) {
        return Ok(None);
    }
    if data[3] == 0xff || data[4] == 0xff {
        return Err(FormatError::Malformed);
    }
    // A well-formed synchsafe size has the high bit clear in every byte.
    if data[6] >= 0x80 || data[7] >= 0x80 || data[8] >= 0x80 || data[9] >= 0x80 {
        return Err(FormatError::Malformed);
    }
    let size = vstd::slice::slice_subrange(data, 6, 10);
    Ok(Some(HEADER_LEN + synchsafe_decode(size) as usize))
}

/// Is this tag's major version one whose frame layout the crate knows? Callers
/// that parse frame contents must gate on this; callers that only need to know
/// where the tag ends must not, or they reject a tag the spec says to skip.
///
/// The ID3v2 rule for a version you do not understand is to ignore the tag,
/// which means stepping over it by its declared size, not refusing the file.
pub fn frames_are_parseable(data: &[u8]) -> (r: bool)
    ensures
        r == (data@.len() >= 10 && 2 <= data@[3] <= 4),
{
    data.len() >= HEADER_LEN && data[3] >= 2 && data[3] <= 4
}

/// Total on-disk length of the ID3v2 tag at the front of `data`: header, body,
/// and the v2.4 footer when the header flags declare one. `None` when `data`
/// does not start with a tag header.
pub fn total_len(data: &[u8]) -> (r: Result<Option<usize>>)
    ensures
        match r {
            Ok(Some(n)) => header_at(data@, 0) && header_sane(data@, 0) && n == tag_len_at(
                data@,
                0,
            ) && 10 <= n <= 0x1000_0014,
            Ok(None) => !header_at(data@, 0),
            Err(e) => e == FormatError::Malformed && header_at(data@, 0) && !header_sane(
                data@,
                0,
            ),
        },
{
    match body_end(data) {
        Ok(Some(end)) => {
            // Only ID3v2.4 defines a footer, so only there does that flag bit mean one
            // is present. In an unknown version the flags are not ours to interpret.
            let has_footer: bool = data[3] == 4 && (data[5] / 0x10) % 2 == 1;
            Ok(
                Some(
                    if has_footer {
                        end + FOOTER_LEN
                    } else {
                        end
                    },
                ),
            )
        },
        Ok(None) => Ok(None),
        Err(e) => Err(e),
    }
}

/// What walking a run of leading tags comes to.
pub enum RunModel {
    /// The run ends at this offset.
    Ends(int),
    /// The bytes stop short of this offset, which the next step needs.
    Needs(int),
    /// A header does not fit the detection pattern, or there are too many tags.
    Malformed,
}

/// Where the run of tags from `off` on ends, stepping over at most `left` of them.
pub open spec fn run_from(d: Seq<u8>, off: int, left: nat) -> RunModel
    decreases left,
{
    if !magic_at(d, off) {
        RunModel::Ends(off)
    } else if left == 0 {
        RunModel::Malformed
    } else if off + 10 > d.len() {
        RunModel::Needs(off + 10)
    } else if !header_sane(d, off) {
        RunModel::Malformed
    } else if off + tag_len_at(d, off) > d.len() {
        RunModel::Needs(off + tag_len_at(d, off))
    } else {
        run_from(d, off + tag_len_at(d, off), (left - 1) as nat)
    }
}

/// Combined length of the run of consecutive ID3v2 tags at the front of `data`,
/// i.e. the offset at which the real stream begins. `0` when there is no tag.
///
/// `NeedMore { up_to }` when a tag's declared length runs past `data`: the
/// bytes needed to step over it are not present, so a bounded caller must widen
/// its window to `up_to` and retry. A run longer than [`MAX_LEADING_TAGS`] is
/// `Malformed`.
pub fn leading_tags_len(data: &[u8]) -> (r: Result<Extent<usize>>)
    requires
        data@.len() <= isize::MAX,
    ensures
        match r {
            Ok(Extent::Complete(n)) => run_from(data@, 0, MAX_LEADING_TAGS as nat)
                == RunModel::Ends(n as int) && n <= data@.len(),
            Ok(Extent::NeedMore { up_to }) => run_from(data@, 0, MAX_LEADING_TAGS as nat)
                == RunModel::Needs(up_to as int) && up_to > data@.len(),
            Err(e) => e == FormatError::Malformed && run_from(data@, 0, MAX_LEADING_TAGS as nat)
                is Malformed,
        },
{
    let mut off: usize = 0;
    let mut left: usize = MAX_LEADING_TAGS;
    loop
        invariant
            data@.len() <= isize::MAX,
            off <= data@.len(),
            left <= MAX_LEADING_TAGS,
            run_from(data@, 0, MAX_LEADING_TAGS as nat) == run_from(
                data@,
                off as int,
                left as nat,
            ),
        decreases left,
    {
        let rest = vstd::slice::slice_subrange(data, off, data.len());
        if !starts_with_tag(rest) {
            return Ok(Extent::Complete(off));
        }
        if left == 0 {
            return Err(FormatError::Malformed);
        }
        if rest.len() < HEADER_LEN {
            // The magic is there but the header is cut short by the window.
            return Ok(Extent::NeedMore { up_to: off as u64 + HEADER_LEN as u64 });
        }
        let len: usize = match total_len(rest) {
            Ok(Some(n)) => n,
            Ok(None) => {
                return Ok(Extent::Complete(off));
            },
            Err(e) => {
                return Err(e);
            },
        };
        if len > data.len() - off {
            return Ok(Extent::NeedMore { up_to: off as u64 + len as u64 });
        }
        off = off + len;
        left = left - 1;
    }
}

/// The tag says that it updates the tags before it: ID3v2.4, with an extended header of
/// one flag byte whose update flag is set.
pub open spec fn is_update_tag(t: Seq<u8>) -> bool {
    &&& t.len() >= 16
    &&& t[3] == 4
    &&& (t[5] / 0x40) % 2 == 1
    &&& t[14] == 1
    &&& (t[15] / 0x40) % 2 == 1
}

/// Does `tag` carry the update flag of an ID3v2.4 extended header? Only there is the flag
/// defined.
pub fn is_update(tag: &[u8]) -> (r: bool)
    ensures
        r == is_update_tag(tag@),
{
    tag.len() >= 16 && tag[3] == 4 && (tag[5] / 0x40) % 2 == 1 && tag[14] == 1 && (tag[15] / 0x40)
        % 2 == 1
}

/// A footer of ID3v2.4 shape stands at `p`: `3DI`, the fields of a sane header, and the
/// flag that says a footer is there.
pub open spec fn footer_at(d: Seq<u8>, p: int) -> bool {
    &&& p + 10 <= d.len()
    &&& d[p] == 0x33
    &&& d[p + 1] == 0x44
    &&& d[p + 2] == 0x49
    &&& d[p + 3] == 4
    &&& (d[p + 5] / 0x10) % 2 == 1
    &&& header_sane(d, p)
}

/// The header at `h` and the footer at `f` agree: the same version, flags and size.
pub open spec fn footer_agrees(d: Seq<u8>, h: int, f: int) -> bool {
    magic_at(d, h) && d.subrange(h + 3, h + 10) == d.subrange(f + 3, f + 10)
}

/// What looking for an appended tag that ends at file offset `end` comes to, where `tail`
/// holds the file from `tail_start` on: the tag's start, no tag, or how many bytes from the
/// end of the file are needed to tell.
pub open spec fn appended_start(tail: Seq<u8>, tail_start: int, end: int) -> std::result::Result<
    Option<int>,
    int,
> {
    let file_len = tail_start + tail.len();
    let f = end - 10 - tail_start;
    let size = synchsafe(tail, f + 6);
    let start = end - 20 - size;
    if end < 20 {
        Ok(None)
    } else if f < 0 {
        Err(file_len - (end - 10))
    } else if !footer_at(tail, f) || start < 0 {
        Ok(None)
    } else if start < tail_start {
        Err(file_len - start)
    } else if footer_agrees(tail, start - tail_start, f) {
        Ok(Some(start))
    } else {
        Ok(None)
    }
}

/// The start of the ID3v2.4 tag appended so that it ends at file offset `end`, found by
/// its footer: a footer that repeats the version, flags and size of a header standing
/// where that size says. `tail` holds the file from `tail_start` to its end.
///
/// `NeedMore { up_to }` counts back from the end of the file: the footer, or the header
/// that it points at, lies before `tail`.
pub fn appended_tag_start(tail: &[u8], tail_start: u64, end: u64) -> (r: Extent<Option<u64>>)
    requires
        end <= tail_start + tail@.len() <= u64::MAX,
    ensures
        match r {
            Extent::Complete(Some(s)) => appended_start(tail@, tail_start as int, end as int)
                == Ok::<Option<int>, int>(Some(s as int)) && tail_start <= s && s + 20 <= end,
            Extent::Complete(None) => appended_start(tail@, tail_start as int, end as int)
                == Ok::<Option<int>, int>(None),
            Extent::NeedMore { up_to } => appended_start(tail@, tail_start as int, end as int)
                == Err::<Option<int>, int>(up_to as int) && tail@.len() < up_to <= tail_start
                + tail@.len(),
        },
{
    if end < 20 {
        return Extent::Complete(None);
    }
    let file_len: u64 = tail_start + tail.len() as u64;
    let foot: u64 = end - 10;
    if foot < tail_start {
        return Extent::NeedMore { up_to: file_len - foot };
    }
    let f: usize = (foot - tail_start) as usize;
    if tail[f] != 0x33 || tail[f + 1] != 0x44 || tail[f + 2] != 0x49 || tail[f + 3] != 4 || (tail[f
        + 5] / 0x10) % 2 != 1 {
        return Extent::Complete(None);
    }
    if tail[f + 4] == 0xff || tail[f + 6] >= 0x80 || tail[f + 7] >= 0x80 || tail[f + 8] >= 0x80
        || tail[f + 9] >= 0x80 {
        return Extent::Complete(None);
    }
    let size: u64 = synchsafe_decode(vstd::slice::slice_subrange(tail, f + 6, f + 10)) as u64;
    if size > end - 20 {
        return Extent::Complete(None);
    }
    let start: u64 = end - 20 - size;
    if start < tail_start {
        return Extent::NeedMore { up_to: file_len - start };
    }
    let h: usize = (start - tail_start) as usize;
    let head = vstd::slice::slice_subrange(tail, h, h + 10);
    if starts_with_tag(head) && crate::bytes::same_bytes(
        vstd::slice::slice_subrange(tail, h + 3, h + 10),
        vstd::slice::slice_subrange(tail, f + 3, f + 10),
    ) {
        Extent::Complete(Some(start))
    } else {
        Extent::Complete(None)
    }
}

} // verus!
