//! What one more tag does to the metadata merged so far, stated by what each holds.

use crate::flac::binary_views;
use crate::flac::picture_views;
use crate::flac::PictureModel;
use crate::input::EmbeddedBinaryTag;
use crate::input::EmbeddedPicture;
use crate::mp3::locate::Mp3Bounds;
use crate::mp3::merge::first_field_of;
use crate::mp3::merge::kept_frames;
use crate::mp3::merge::kept_pictures;
use crate::mp3::merge::kept_tags;
use crate::mp3::merge::merged;
use crate::mp3::merge::names_key;
use crate::mp3::merge::overridden_frame;
use crate::mp3::merge::overrides_frame;
use crate::mp3::merge::overrides_key;
use crate::mp3::merge::overrides_picture;
use crate::mp3::merge::read_metadata;
use crate::mp3::merge::same_unique_frame;
use crate::mp3::merge::tag_bytes;
use crate::mp3::merge::tail_start_of;
use crate::mp3::merge::Mp3Metadata;
use crate::mp3::read::id3v2_alloc_safe;
use crate::mp3::read::read_binary_tags;
use crate::mp3::read::read_pictures;
use crate::mp3::read::read_tags;
use crate::text::lower;
use crate::vorbiscomment::pair_views;
use std::ops::Range;
use vstd::prelude::*;

verus! {

/// A text tag stays where no later tag has its key, in whatever case. A play count also goes
/// where the later tag has a rating.
pub open spec fn tag_stays(
    pair: (Seq<char>, Seq<char>),
    later: Seq<(Seq<char>, Seq<char>)>,
) -> bool {
    &&& forall|j: int| 0 <= j < later.len() ==> lower((#[trigger] later[j]).0) != lower(pair.0)
    &&& lower(pair.0) == "playcount"@ ==> forall|j: int|
        0 <= j < later.len() ==> lower((#[trigger] later[j]).0) != "rating"@
}

/// A picture stays where no later one has its description.
pub open spec fn picture_stays(p: PictureModel, later: Seq<PictureModel>) -> bool {
    forall|j: int| 0 <= j < later.len() ==> (#[trigger] later[j]).description != p.description
}

/// The bytes up to the first zero byte are the same in both.
pub open spec fn same_first_field(a: Seq<u8>, b: Seq<u8>) -> bool {
    exists|n: int|
        {
            &&& #[trigger] field_ends(a, n)
            &&& field_ends(b, n)
            &&& a.take(n) == b.take(n)
        }
}

/// The first field of `a` ends at `n`: at its first zero byte, or where it has none at its end.
pub open spec fn field_ends(a: Seq<u8>, n: int) -> bool {
    &&& 0 <= n <= a.len()
    &&& forall|i: int| 0 <= i < n ==> #[trigger] a[i] != 0
    &&& n < a.len() ==> a[n] == 0
}

/// The ids of frames that a tag has once.
pub open spec fn single_ids() -> Seq<Seq<char>> {
    seq![
        "MCDI"@,
        "ETCO"@,
        "MLLT"@,
        "SYTC"@,
        "RVRB"@,
        "PCNT"@,
        "RBUF"@,
        "POSS"@,
        "OWNE"@,
        "SEEK"@,
        "ASPI"@,
        "IPLS"@,
        "RVAD"@,
        "EQUA"@,
    ]
}

/// The binary frame `b` of an update tag of major version `version` takes the place of `a`: it
/// has the same id, and the id allows one frame in a tag, or one with the same first field, or
/// one with the same contents. Of the link frames only `WXXX`, `WCOM` and `WOAR` may repeat,
/// and `USER` may since v2.4.
pub open spec fn takes_the_place(
    a: (Seq<char>, Seq<u8>),
    b: (Seq<char>, Seq<u8>),
    version: u8,
) -> bool {
    &&& a.0 == b.0
    &&& {
        ||| a.1 == b.1
        ||| exists|i: int| 0 <= i < 14 && #[trigger] single_ids()[i] == a.0
        ||| a.0 == "USER"@ && version == 3
        ||| (a.0 == "UFID"@ || a.0 == "AENC"@ || a.0 == "RVA2"@ || a.0 == "EQU2"@)
            && same_first_field(a.1, b.1)
        ||| a.0.len() > 0 && a.0[0] == 'W' && a.0 != "WXXX"@ && a.0 != "WCOM"@ && a.0 != "WOAR"@
    }
}

/// A binary frame stays where none of the later tag takes its place.
pub open spec fn frame_stays(
    b: (Seq<char>, Seq<u8>),
    later: Seq<(Seq<char>, Seq<u8>)>,
    version: u8,
) -> bool {
    forall|j: int| 0 <= j < later.len() ==> !takes_the_place(b, #[trigger] later[j], version)
}

proof fn first_fields(a: Seq<u8>, b: Seq<u8>)
    ensures
        same_first_field(a, b) == (first_field_of(a) == first_field_of(b)),
{
    crate::bytes::find_byte_finds(a, 0, 0);
    crate::bytes::find_byte_finds(b, 0, 0);
    let n = crate::bytes::find_byte(a, 0, 0);
    let m = crate::bytes::find_byte(b, 0, 0);
    assert(field_ends(a, n) && field_ends(b, m));
    assert(a.take(n) =~= a.subrange(0, n));
    assert(b.take(m) =~= b.subrange(0, m));
    if first_field_of(a) == first_field_of(b) {
        assert(a.subrange(0, n).len() == n && b.subrange(0, m).len() == m);
        assert(field_ends(b, n));
    }
    if same_first_field(a, b) {
        let k = choose|k: int|
            {
                &&& #[trigger] field_ends(a, k)
                &&& field_ends(b, k)
                &&& a.take(k) == b.take(k)
            };
        ends_once(a, n, k);
        ends_once(b, m, k);
    }
}

proof fn ends_once(a: Seq<u8>, n: int, m: int)
    requires
        field_ends(a, n),
        field_ends(a, m),
    ensures
        n == m,
{
    if n < m {
        assert(a[n] != 0);
    }
    if m < n {
        assert(a[m] != 0);
    }
}

/// The rule of uniqueness, as it is stated and as it is applied.
proof fn rule_applied(a: (Seq<char>, Seq<u8>), b: (Seq<char>, Seq<u8>), version: u8)
    ensures
        overrides_frame(a, b, version) == takes_the_place(a, b, version),
{
    first_fields(a.1, b.1);
    let s = single_ids();
    assert(s[0] == "MCDI"@ && s[1] == "ETCO"@ && s[2] == "MLLT"@ && s[3] == "SYTC"@ && s[4]
        == "RVRB"@ && s[5] == "PCNT"@ && s[6] == "RBUF"@ && s[7] == "POSS"@ && s[8] == "OWNE"@
        && s[9] == "SEEK"@ && s[10] == "ASPI"@ && s[11] == "IPLS"@ && s[12] == "RVAD"@ && s[13]
        == "EQUA"@);
    reveal_strlit("UFID");
    reveal_strlit("AENC");
    reveal_strlit("RVA2");
    reveal_strlit("EQU2");
    reveal_strlit("WXXX");
    reveal_strlit("WCOM");
    reveal_strlit("WOAR");
    assert("UFID"@[0] == 'U' && "AENC"@[0] == 'A' && "RVA2"@[0] == 'R' && "EQU2"@[0] == 'E');
    if a.1 == b.1 && first_field_of(a.1) != first_field_of(b.1) {
    }
}

/// Whether a frame takes the place of another is decided by the rule of its id.
pub proof fn unique_frames_are_told(
    earlier: &EmbeddedBinaryTag,
    later: &EmbeddedBinaryTag,
    version: u8,
    r: bool,
)
    requires
        call_ensures(same_unique_frame, (earlier, later, version), r),
    ensures
        r == takes_the_place(
            (earlier.key@, earlier.payload@),
            (later.key@, later.payload@),
            version,
        ),
{
    rule_applied((earlier.key@, earlier.payload@), (later.key@, later.payload@), version);
}

proof fn tags_filtered(s: Seq<(Seq<char>, Seq<char>)>, later: Seq<(Seq<char>, Seq<char>)>)
    ensures
        kept_tags(s, later) == s.filter(|p: (Seq<char>, Seq<char>)| tag_stays(p, later)),
    decreases s.len(),
{
    let f = |p: (Seq<char>, Seq<char>)| tag_stays(p, later);
    reveal(Seq::filter);
    if s.len() > 0 {
        tags_filtered(s.drop_last(), later);
        let k = s.last().0;
        assert(overrides_key(later, k) == !tag_stays(s.last(), later)) by {
            if names_key(later, lower(k)) {
                let i = choose|i: int|
                    0 <= i < later.len() && lower((#[trigger] later[i]).0) == lower(k);
                assert(lower(later[i].0) == lower(k));
            }
            if names_key(later, "rating"@) {
                let i = choose|i: int|
                    0 <= i < later.len() && lower((#[trigger] later[i]).0) == "rating"@;
                assert(lower(later[i].0) == "rating"@);
            }
            if !tag_stays(s.last(), later) {
                if exists|j: int|
                    0 <= j < later.len() && lower((#[trigger] later[j]).0) == lower(k) {
                    let j = choose|j: int|
                        0 <= j < later.len() && lower((#[trigger] later[j]).0) == lower(k);
                    assert(names_key(later, lower(k)));
                } else {
                    let j = choose|j: int|
                        0 <= j < later.len() && lower((#[trigger] later[j]).0) == "rating"@;
                    assert(names_key(later, "rating"@));
                }
            }
        }
    } else {
        assert(kept_tags(s, later) =~= s.filter(f));
    }
}

proof fn pictures_filtered(s: Seq<PictureModel>, later: Seq<PictureModel>)
    ensures
        kept_pictures(s, later) == s.filter(|p: PictureModel| picture_stays(p, later)),
    decreases s.len(),
{
    let f = |p: PictureModel| picture_stays(p, later);
    reveal(Seq::filter);
    if s.len() > 0 {
        pictures_filtered(s.drop_last(), later);
        assert(overrides_picture(later, s.last().description) == !picture_stays(s.last(), later));
    } else {
        assert(kept_pictures(s, later) =~= s.filter(f));
    }
}

proof fn frames_filtered(
    s: Seq<(Seq<char>, Seq<u8>)>,
    later: Seq<(Seq<char>, Seq<u8>)>,
    version: u8,
)
    ensures
        kept_frames(s, later, version) == s.filter(
            |b: (Seq<char>, Seq<u8>)| frame_stays(b, later, version),
        ),
    decreases s.len(),
{
    let f = |b: (Seq<char>, Seq<u8>)| frame_stays(b, later, version);
    reveal(Seq::filter);
    if s.len() > 0 {
        frames_filtered(s.drop_last(), later, version);
        let b = s.last();
        assert forall|j: int| 0 <= j < later.len() implies overrides_frame(b, #[trigger] later[j], version) == takes_the_place(
            b,
            later[j],
            version,
        ) by {
            rule_applied(b, later[j], version);
        }
        assert(overridden_frame(later, b, version) == !frame_stays(b, later, version));
    } else {
        assert(kept_frames(s, later, version) =~= s.filter(f));
    }
}

/// One tag's contents are what reading it gives: the text tags and then the promoted ones, the
/// pictures, the binary frames. A tag that the guard refuses has none.
pub proof fn contents_are_what_is_read(
    tag: &[u8],
    r: Option<Mp3Metadata>,
    safe: bool,
    tags: Vec<(String, String)>,
    pictures: Vec<EmbeddedPicture>,
    binary: (Vec<EmbeddedBinaryTag>, Vec<(String, String)>),
)
    requires
        call_ensures(Mp3Metadata::read, (tag,), r),
        call_ensures(id3v2_alloc_safe, (tag,), safe),
        call_ensures(read_tags, (tag,), tags),
        call_ensures(read_pictures, (tag,), pictures),
        call_ensures(read_binary_tags, (tag,), binary),
    ensures
        r is Some == safe,
        match r {
            Some(m) => {
                &&& pair_views(m.tags@) == pair_views(tags@) + pair_views(binary.1@)
                &&& picture_views(m.pictures@) == picture_views(pictures@)
                &&& binary_views(m.binary_tags@) == binary_views(binary.0@)
            },
            None => true,
        },
{
}

/// The bytes of a tag at its extent: out of the front of the file where that reaches, else out
/// of its tail.
pub open spec fn bytes_at(
    front: Seq<u8>,
    tail: Seq<u8>,
    file_len: int,
    extent: Range<u64>,
) -> Option<Seq<u8>> {
    if extent.start <= extent.end <= front.len() {
        Some(front.subrange(extent.start as int, extent.end as int))
    } else {
        let cut = if file_len >= tail.len() {
            file_len - tail.len()
        } else {
            0
        };
        if cut <= extent.start <= extent.end <= cut + tail.len() {
            Some(tail.subrange(extent.start - cut, extent.end - cut))
        } else {
            None
        }
    }
}

/// One more tag in the file.
pub open spec fn one_more(before: Mp3Bounds, after: Mp3Bounds, extent: Range<u64>) -> bool {
    after.id3v2_tags@ == before.id3v2_tags@.push(extent)
}

/// Merging one more tag. A v2.2 or v2.3 tag, and a v2.4 tag with the update flag, updates: all
/// it holds comes last, and before it stays, in order, what was merged and is not taken the
/// place of. A v2.4 tag without the flag replaces everything. A tag that the guard refuses, or
/// that neither buffer holds whole, changes nothing.
pub proof fn one_more_tag_is_merged(
    front: &[u8],
    tail: &[u8],
    file_len: u64,
    before: &Mp3Bounds,
    after: &Mp3Bounds,
    extent: Range<u64>,
    tag: &[u8],
    m: Mp3Metadata,
    r: Mp3Metadata,
    c: Option<Mp3Metadata>,
    update: bool,
)
    requires
        one_more(*before, *after, extent),
        call_ensures(read_metadata, (front, tail, file_len, before), m),
        call_ensures(read_metadata, (front, tail, file_len, after), r),
        call_ensures(Mp3Metadata::read, (tag,), c),
        call_ensures(crate::id3v2::is_update, (tag,), update),
        bytes_at(front@, tail@, file_len as int, extent) == Some(tag@),
    ensures
        match c {
            None => pair_views(r.tags@) == pair_views(m.tags@) && picture_views(r.pictures@)
                == picture_views(m.pictures@) && binary_views(r.binary_tags@) == binary_views(
                m.binary_tags@,
            ),
            Some(later) => {
                let tags = pair_views(later.tags@);
                let pictures = picture_views(later.pictures@);
                let frames = binary_views(later.binary_tags@);
                if tag@[3] == 2 || tag@[3] == 3 || update {
                    &&& pair_views(r.tags@) == pair_views(m.tags@).filter(
                        |p: (Seq<char>, Seq<char>)| tag_stays(p, tags),
                    ) + tags
                    &&& picture_views(r.pictures@) == picture_views(m.pictures@).filter(
                        |p: PictureModel| picture_stays(p, pictures),
                    ) + pictures
                    &&& binary_views(r.binary_tags@) == binary_views(m.binary_tags@).filter(
                        |b: (Seq<char>, Seq<u8>)| frame_stays(b, frames, tag@[3]),
                    ) + frames
                } else {
                    &&& pair_views(r.tags@) == tags
                    &&& picture_views(r.pictures@) == pictures
                    &&& binary_views(r.binary_tags@) == frames
                }
            },
        },
{
    let start = tail_start_of(file_len as int, tail@.len() as int);
    let e = after.id3v2_tags@;
    assert(e.drop_last() =~= before.id3v2_tags@);
    assert(e.last() == extent);
    assert(tag_bytes(front@, tail@, start, extent) == Some(tag@));
    assert(m@ == merged(front@, tail@, start, before.id3v2_tags@));
    assert(r@ == merged(front@, tail@, start, e));
    if let Some(later) = c {
        tags_filtered(pair_views(m.tags@), pair_views(later.tags@));
        pictures_filtered(picture_views(m.pictures@), picture_views(later.pictures@));
        frames_filtered(
            binary_views(m.binary_tags@),
            binary_views(later.binary_tags@),
            tag@[3],
        );
    }
}

/// A tag that neither buffer holds whole changes nothing, and a file without tags has no
/// metadata.
pub proof fn missing_tags_change_nothing(
    front: &[u8],
    tail: &[u8],
    file_len: u64,
    before: &Mp3Bounds,
    after: &Mp3Bounds,
    extent: Range<u64>,
    m: Mp3Metadata,
    r: Mp3Metadata,
)
    requires
        one_more(*before, *after, extent),
        call_ensures(read_metadata, (front, tail, file_len, before), m),
        call_ensures(read_metadata, (front, tail, file_len, after), r),
    ensures
        bytes_at(front@, tail@, file_len as int, extent) is None ==> pair_views(r.tags@)
            == pair_views(m.tags@) && picture_views(r.pictures@) == picture_views(m.pictures@)
            && binary_views(r.binary_tags@) == binary_views(m.binary_tags@),
        before.id3v2_tags@.len() == 0 ==> m.tags@.len() == 0 && m.pictures@.len() == 0
            && m.binary_tags@.len() == 0,
{
    let start = tail_start_of(file_len as int, tail@.len() as int);
    let e = after.id3v2_tags@;
    assert(e.drop_last() =~= before.id3v2_tags@);
    assert(e.last() == extent);
    assert(m@ == merged(front@, tail@, start, before.id3v2_tags@));
    if before.id3v2_tags@.len() == 0 {
        assert(pair_views(m.tags@).len() == m.tags@.len());
        assert(picture_views(m.pictures@).len() == m.pictures@.len());
        assert(binary_views(m.binary_tags@).len() == m.binary_tags@.len());
    }
}

} // verus!
