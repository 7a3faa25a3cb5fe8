//! Which of an MP3's ID3v2 tags wins when it carries more than one.
//!
//! The tags are merged in file order. Each tag after the first either updates
//! the merge or replaces it, as that tag's own version has it:
//!
//! - ID3v2.3: "Every tag that is picked up after the initial/first tag is
//!   to be considered as an update of the previous one." v2.3 has no update flag. The
//!   ID3v2.2 says nothing about several tags, so a v2.2 tag follows the rule of
//!   v2.3, its successor.
//! - ID3v2.4: "For every new tag that is found, the old tag should be
//!   discarded unless the update flag in the extended header (section 3.2) is set." If the
//!   flag is set and "frames defined as unique are found in the present tag, they are to
//!   override any corresponding ones found in the earlier tag."
//!
//! "Earlier" is file order.

use crate::bytes::find_byte;
use crate::bytes::position_of;
use crate::bytes::same_bytes;
use crate::flac::binary_views;
use crate::flac::picture_view;
use crate::flac::picture_views;
use crate::flac::push_embedded;
use crate::flac::PictureModel;
use crate::id3v2::is_update;
use crate::id3v2::is_update_tag;
use crate::input::EmbeddedBinaryTag;
use crate::input::EmbeddedPicture;
use crate::mp3::locate::Mp3Bounds;
use crate::mp3::read::alloc_safe;
use crate::mp3::read::id3v2_alloc_safe;
use crate::mp3::read::opaque_frames;
use crate::mp3::read::promoted_pairs;
use crate::mp3::read::read_binary_tags;
use crate::mp3::read::read_pictures;
use crate::mp3::read::read_tags;
use crate::mp3::read::tag_frames;
use crate::mp3::read::tag_pairs;
use crate::mp3::read::tag_pictures;
use crate::text::ascii_lowercase;
use crate::text::lower;
use crate::text::same_text;
use crate::vorbiscomment::pair_view;
use crate::vorbiscomment::pair_views;
use std::ops::Range;
use vstd::prelude::*;
use vstd::slice::slice_subrange;
use vstd::string::*;

verus! {

/// What the scan ingests from an MP3's ID3v2 tags, merged across all of them.
#[derive(Debug, Clone, PartialEq, Eq)]
pub struct Mp3Metadata {
    /// Text tags, including the `POPM` and MusicBrainz `UFID` promotions.
    pub tags: Vec<(String, String)>,
    pub pictures: Vec<EmbeddedPicture>,
    pub binary_tags: Vec<EmbeddedBinaryTag>,
}

/// Metadata as mathematical values.
#[verifier::ext_equal]
pub ghost struct MetadataModel {
    pub tags: Seq<(Seq<char>, Seq<char>)>,
    pub pictures: Seq<PictureModel>,
    pub binary_tags: Seq<(Seq<char>, Seq<u8>)>,
}

impl View for Mp3Metadata {
    type V = MetadataModel;

    open spec fn view(&self) -> MetadataModel {
        MetadataModel {
            tags: pair_views(self.tags@),
            pictures: picture_views(self.pictures@),
            binary_tags: binary_views(self.binary_tags@),
        }
    }
}

/// No metadata at all.
pub open spec fn no_metadata() -> MetadataModel {
    MetadataModel { tags: Seq::empty(), pictures: Seq::empty(), binary_tags: Seq::empty() }
}

/// One tag's contents; `None` where the guard refuses the tag.
pub open spec fn contents_of(tag: Seq<u8>) -> Option<MetadataModel> {
    if alloc_safe(tag) {
        Some(
            MetadataModel {
                tags: tag_pairs(tag) + promoted_pairs(tag_frames(tag)),
                pictures: tag_pictures(tag),
                binary_tags: opaque_frames(tag_frames(tag)),
            },
        )
    } else {
        None
    }
}

/// A pair of `later` has the key `k`, but for case.
pub open spec fn names_key(later: Seq<(Seq<char>, Seq<char>)>, k: Seq<char>) -> bool {
    exists|i: int| 0 <= i < later.len() && lower((#[trigger] later[i]).0) == k
}

/// The pairs `later` override a pair with the key `k`. A rating overrides a play count too.
pub open spec fn overrides_key(later: Seq<(Seq<char>, Seq<char>)>, k: Seq<char>) -> bool {
    names_key(later, lower(k)) || (lower(k) == "playcount"@ && names_key(later, "rating"@))
}

/// The pairs that `later` does not override.
pub open spec fn kept_tags(
    s: Seq<(Seq<char>, Seq<char>)>,
    later: Seq<(Seq<char>, Seq<char>)>,
) -> Seq<(Seq<char>, Seq<char>)>
    decreases s.len(),
{
    if s.len() == 0 {
        Seq::empty()
    } else if overrides_key(later, s.last().0) {
        kept_tags(s.drop_last(), later)
    } else {
        kept_tags(s.drop_last(), later).push(s.last())
    }
}

/// A picture of `later` has the description `d`.
pub open spec fn overrides_picture(later: Seq<PictureModel>, d: Seq<char>) -> bool {
    exists|i: int| 0 <= i < later.len() && (#[trigger] later[i]).description == d
}

/// The pictures that `later` does not override.
pub open spec fn kept_pictures(s: Seq<PictureModel>, later: Seq<PictureModel>) -> Seq<PictureModel>
    decreases s.len(),
{
    if s.len() == 0 {
        Seq::empty()
    } else if overrides_picture(later, s.last().description) {
        kept_pictures(s.drop_last(), later)
    } else {
        kept_pictures(s.drop_last(), later).push(s.last())
    }
}

/// Frames of which there may be one in each tag.
pub open spec fn once_per_tag(id: Seq<char>) -> bool {
    ||| id == "MCDI"@
    ||| id == "ETCO"@
    ||| id == "MLLT"@
    ||| id == "SYTC"@
    ||| id == "RVRB"@
    ||| id == "PCNT"@
    ||| id == "RBUF"@
    ||| id == "POSS"@
    ||| id == "OWNE"@
    ||| id == "SEEK"@
    ||| id == "ASPI"@
    ||| id == "IPLS"@
    ||| id == "RVAD"@
    ||| id == "EQUA"@
}

/// Frames of which there may be one with the same first field.
pub open spec fn once_per_first_field(id: Seq<char>) -> bool {
    id == "UFID"@ || id == "AENC"@ || id == "RVA2"@ || id == "EQU2"@
}

/// URL link frames of which there may be several with different contents.
pub open spec fn repeatable_link(id: Seq<char>) -> bool {
    id == "WXXX"@ || id == "WCOM"@ || id == "WOAR"@
}

/// A frame body's first field, up to its NUL terminator.
pub open spec fn first_field_of(body: Seq<u8>) -> Seq<u8> {
    body.subrange(0, find_byte(body, 0, 0))
}

/// Does the binary frame `later`, from an update tag of major version `version`, override
/// `earlier`?
pub open spec fn overrides_frame(
    earlier: (Seq<char>, Seq<u8>),
    later: (Seq<char>, Seq<u8>),
    version: u8,
) -> bool {
    let id = earlier.0;
    id == later.0 && if once_per_tag(id) || (id == "USER"@ && version == 3) {
        true
    } else if once_per_first_field(id) {
        first_field_of(earlier.1) == first_field_of(later.1)
    } else if repeatable_link(id) {
        earlier.1 == later.1
    } else if id.len() > 0 && id[0] == 'W' {
        true
    } else {
        earlier.1 == later.1
    }
}

/// A frame of `later` overrides `b`.
pub open spec fn overridden_frame(
    later: Seq<(Seq<char>, Seq<u8>)>,
    b: (Seq<char>, Seq<u8>),
    version: u8,
) -> bool {
    exists|i: int| 0 <= i < later.len() && overrides_frame(b, #[trigger] later[i], version)
}

/// The binary frames that `later` does not override.
pub open spec fn kept_frames(
    s: Seq<(Seq<char>, Seq<u8>)>,
    later: Seq<(Seq<char>, Seq<u8>)>,
    version: u8,
) -> Seq<(Seq<char>, Seq<u8>)>
    decreases s.len(),
{
    if s.len() == 0 {
        Seq::empty()
    } else if overridden_frame(later, s.last(), version) {
        kept_frames(s.drop_last(), later, version)
    } else {
        kept_frames(s.drop_last(), later, version).push(s.last())
    }
}

/// `m` updated by the contents `later` of a tag of major version `version`: what `later`
/// does not override, then all of `later`.
pub open spec fn updated(m: MetadataModel, later: MetadataModel, version: u8) -> MetadataModel {
    MetadataModel {
        tags: kept_tags(m.tags, later.tags) + later.tags,
        pictures: kept_pictures(m.pictures, later.pictures) + later.pictures,
        binary_tags: kept_frames(m.binary_tags, later.binary_tags, version) + later.binary_tags,
    }
}

/// The tag updates the tags before it, rather than discard them.
pub open spec fn updates(tag: Seq<u8>) -> bool {
    tag[3] == 2 || tag[3] == 3 || is_update_tag(tag)
}

/// `m` merged with a later tag.
pub open spec fn merged_with(m: MetadataModel, tag: Seq<u8>) -> MetadataModel {
    match contents_of(tag) {
        Some(c) => if updates(tag) {
            updated(m, c, tag[3])
        } else {
            c
        },
        None => m,
    }
}

/// The file's bytes from `from` to `to`, where the buffer that holds the file from `start`
/// has them all.
pub open spec fn held(buf: Seq<u8>, start: int, from: int, to: int) -> Option<Seq<u8>> {
    if start <= from <= to <= start + buf.len() {
        Some(buf.subrange(from - start, to - start))
    } else {
        None
    }
}

/// A tag's bytes, out of whichever buffer holds it whole.
pub open spec fn tag_bytes(
    front: Seq<u8>,
    tail: Seq<u8>,
    tail_start: int,
    extent: Range<u64>,
) -> Option<Seq<u8>> {
    match held(front, 0, extent.start as int, extent.end as int) {
        Some(t) => Some(t),
        None => held(tail, tail_start, extent.start as int, extent.end as int),
    }
}

/// The tags merged in order.
pub open spec fn merged(
    front: Seq<u8>,
    tail: Seq<u8>,
    tail_start: int,
    extents: Seq<Range<u64>>,
) -> MetadataModel
    decreases extents.len(),
{
    if extents.len() == 0 {
        no_metadata()
    } else {
        let before = merged(front, tail, tail_start, extents.drop_last());
        match tag_bytes(front, tail, tail_start, extents.last()) {
            Some(t) => merged_with(before, t),
            None => before,
        }
    }
}

/// Where a tail of `n` bytes begins in a file of `file_len` bytes.
pub open spec fn tail_start_of(file_len: int, n: int) -> int {
    if file_len < n {
        0
    } else {
        file_len - n
    }
}

/// Read every ID3v2 tag `bounds` located, and merge them in file order.
///
/// `front` holds the file from offset 0, and `tail` the last `tail.len()` bytes
/// of a file `file_len` long; one buffer may serve as both. Each tag is read out
/// of whichever holds it whole, sliced to exactly its own extent so the parser
/// cannot reach past its end. A tag neither holds whole is skipped.
///
/// - A v2.2 or v2.3 tag, or a v2.4 tag with the update flag, overrides only its
///   unique frames (see `Mp3Metadata::update_with`).
/// - A v2.4 tag without the update flag replaces everything merged before it.
/// - A tag the allocation guard will not parse contributes nothing and replaces
///   nothing: discarding tags that could be read for one that cannot would lose
///   metadata the file does carry.
///
/// Only the later tag's own version decides between the first two, so a v2.3 tag
/// updates a v2.4 tag before it, and an unflagged v2.4 tag replaces a v2.3 one.
/// The first tag readable starts the merge either way.
pub fn read_metadata(front: &[u8], tail: &[u8], file_len: u64, bounds: &Mp3Bounds) -> (r:
    Mp3Metadata)
    ensures
        r@ == merged(
            front@,
            tail@,
            tail_start_of(file_len as int, tail@.len() as int),
            bounds.id3v2_tags@,
        ),
{
    let tail_len: u64 = tail.len() as u64;
    let tail_start: u64 = if file_len < tail_len {
        0
    } else {
        file_len - tail_len
    };
    let ghost extents = bounds.id3v2_tags@;
    let mut all = Mp3Metadata::default();
    let mut i: usize = 0;
    assert(all@ =~= no_metadata());
    while i < bounds.id3v2_tags.len()
        invariant
            extents == bounds.id3v2_tags@,
            i <= extents.len(),
            all@ == merged(front@, tail@, tail_start as int, extents.take(i as int)),
        decreases extents.len() - i,
    {
        assert(extents.take(i + 1).drop_last() =~= extents.take(i as int));
        let extent = &bounds.id3v2_tags[i];
        let tag = match within(front, 0, extent) {
            Some(t) => Some(t),
            None => within(tail, tail_start, extent),
        };
        if let Some(tag) = tag {
            if let Some(contents) = Mp3Metadata::read(tag) {
                if updates_earlier(tag) {
                    all.update_with(contents, tag[3]);
                } else {
                    all = contents;
                }
            }
        }
        i = i + 1;
    }
    assert(extents.take(i as int) =~= extents);
    all
}

/// Does `tag` update the tags found before it, rather than discard them? A v2.2
/// or v2.3 tag always does; a v2.4 tag only with the update flag.
fn updates_earlier(tag: &[u8]) -> (r: bool)
    requires
        alloc_safe(tag@),
    ensures
        r == updates(tag@),
{
    tag[3] == 2 || tag[3] == 3 || is_update(tag)
}

/// The file's bytes in `extent`, out of a buffer holding the file from `start`.
fn within<'a>(buf: &'a [u8], start: u64, extent: &Range<u64>) -> (r: Option<&'a [u8]>)
    ensures
        match r {
            Some(s) => held(buf@, start as int, extent.start as int, extent.end as int) == Some(
                s@,
            ),
            None => held(buf@, start as int, extent.start as int, extent.end as int) is None,
        },
{
    let n: u64 = buf.len() as u64;
    if extent.start < start || extent.end < extent.start || extent.end - start > n {
        return None;
    }
    Some(slice_subrange(buf, (extent.start - start) as usize, (extent.end - start) as usize))
}

/// The same items from last to first.
fn reversed<T>(v: Vec<T>) -> (r: Vec<T>)
    ensures
        r@ == v@.reverse(),
{
    let ghost all = v@;
    let mut v = v;
    let mut out: Vec<T> = Vec::new();
    while v.len() > 0
        invariant
            v@.len() + out@.len() == all.len(),
            v@ == all.take(v@.len() as int),
            out@ == all.skip(v@.len() as int).reverse(),
        decreases v@.len(),
    {
        let ghost n = v@.len();
        if let Some(x) = v.pop() {
            out.push(x);
        }
        assert(v@ =~= all.take(n - 1));
        assert(out@ =~= all.skip(n - 1).reverse());
    }
    assert(all.skip(0) =~= all);
    out
}

/// Does a pair of `later` have the lower-case key `k`, but for case?
fn has_key(later: &Vec<(String, String)>, k: &str) -> (r: bool)
    ensures
        r == names_key(pair_views(later@), k@),
{
    let ghost views = pair_views(later@);
    let mut i: usize = 0;
    while i < later.len()
        invariant
            i <= later@.len(),
            views == pair_views(later@),
            forall|j: int| 0 <= j < i ==> lower((#[trigger] views[j]).0) != k@,
        decreases later@.len() - i,
    {
        let l = ascii_lowercase(later[i].0.as_str());
        assert(views[i as int].0 == later@[i as int].0@);
        if same_text(l.as_str(), k) {
            return true;
        }
        i = i + 1;
    }
    false
}

/// The pairs that `later` does not override.
fn keep_tags(tags: Vec<(String, String)>, later: &Vec<(String, String)>) -> (r: Vec<
    (String, String),
>)
    ensures
        pair_views(r@) == kept_tags(pair_views(tags@), pair_views(later@)),
{
    let ghost all = tags@;
    let ghost views = pair_views(all);
    let rated = has_key(later, "rating");
    let mut rest = reversed(tags);
    let mut out: Vec<(String, String)> = Vec::new();
    assert(all.skip(0) =~= all);
    assert(pair_views(out@) =~= kept_tags(views.take(0), pair_views(later@)));
    while rest.len() > 0
        invariant
            rest@.len() <= all.len(),
            views == pair_views(all),
            rated == names_key(pair_views(later@), "rating"@),
            rest@ == all.skip(all.len() - rest@.len()).reverse(),
            pair_views(out@) == kept_tags(
                views.take(all.len() - rest@.len()),
                pair_views(later@),
            ),
        decreases rest@.len(),
    {
        let ghost i = all.len() - rest@.len();
        let ghost before = pair_views(out@);
        if let Some(t) = rest.pop() {
            assert(t == all[i]);
            assert(rest@ =~= all.skip(i + 1).reverse());
            assert(views.take(i + 1).drop_last() =~= views.take(i));
            assert(views.take(i + 1).last() == pair_view(t));
            let k = ascii_lowercase(t.0.as_str());
            let gone = has_key(later, k.as_str()) || (same_text(k.as_str(), "playcount") && rated);
            if !gone {
                out.push(t);
                assert(pair_views(out@) =~= before.push(pair_view(t)));
            }
        }
    }
    assert(views.take(all.len() as int) =~= views);
    out
}

/// Does a picture of `later` have the description `d`?
fn has_description(later: &Vec<EmbeddedPicture>, d: &str) -> (r: bool)
    ensures
        r == overrides_picture(picture_views(later@), d@),
{
    let ghost views = picture_views(later@);
    let mut i: usize = 0;
    while i < later.len()
        invariant
            i <= later@.len(),
            views == picture_views(later@),
            forall|j: int| 0 <= j < i ==> (#[trigger] views[j]).description != d@,
        decreases later@.len() - i,
    {
        assert(views[i as int].description == later@[i as int].description@);
        if same_text(later[i].description.as_str(), d) {
            return true;
        }
        i = i + 1;
    }
    false
}

/// The pictures that `later` does not override.
fn keep_pictures(pictures: Vec<EmbeddedPicture>, later: &Vec<EmbeddedPicture>) -> (r: Vec<
    EmbeddedPicture,
>)
    ensures
        picture_views(r@) == kept_pictures(picture_views(pictures@), picture_views(later@)),
{
    let ghost all = pictures@;
    let ghost views = picture_views(all);
    let mut rest = reversed(pictures);
    let mut out: Vec<EmbeddedPicture> = Vec::new();
    assert(all.skip(0) =~= all);
    assert(picture_views(out@) =~= kept_pictures(views.take(0), picture_views(later@)));
    while rest.len() > 0
        invariant
            rest@.len() <= all.len(),
            views == picture_views(all),
            rest@ == all.skip(all.len() - rest@.len()).reverse(),
            picture_views(out@) == kept_pictures(
                views.take(all.len() - rest@.len()),
                picture_views(later@),
            ),
        decreases rest@.len(),
    {
        let ghost i = all.len() - rest@.len();
        if let Some(p) = rest.pop() {
            assert(p == all[i]);
            assert(rest@ =~= all.skip(i + 1).reverse());
            assert(views.take(i + 1).drop_last() =~= views.take(i));
            assert(views.take(i + 1).last() == picture_view(p));
            if !has_description(later, p.description.as_str()) {
                push_embedded(&mut out, p);
            }
        }
    }
    assert(views.take(all.len() as int) =~= views);
    out
}

/// Is `id` one of the frames of which there may be one in each tag? IPLS, RVAD and EQUA are
/// v2.3's alone.
fn is_once_per_tag(id: &str) -> (r: bool)
    ensures
        r == once_per_tag(id@),
{
    same_text(id, "MCDI") || same_text(id, "ETCO") || same_text(id, "MLLT") || same_text(id, "SYTC")
        || same_text(id, "RVRB") || same_text(id, "PCNT") || same_text(id, "RBUF") || same_text(
        id,
        "POSS",
    ) || same_text(id, "OWNE") || same_text(id, "SEEK") || same_text(id, "ASPI") || same_text(
        id,
        "IPLS",
    ) || same_text(id, "RVAD") || same_text(id, "EQUA")
}

/// Does the text begin with `W`?
fn starts_with_w(s: &str) -> (r: bool)
    ensures
        r == (s@.len() > 0 && s@[0] == 'W'),
{
    let b = s.as_bytes();
    proof {
        first_byte_is_w(s@);
    }
    b.len() > 0 && b[0] == 0x57
}

/// Text begins with `W` exactly when its UTF-8 bytes do.
proof fn first_byte_is_w(s: Seq<char>)
    ensures
        (s.len() > 0 && s[0] == 'W') == (crate::text::utf8(s).len() > 0 && crate::text::utf8(s)[0]
            == 0x57),
{
    let b = crate::text::utf8(s);
    let one = seq!['W'];
    crate::text::ascii_bytes(one);
    assert(one.drop_first() =~= Seq::empty());
    assert(crate::text::utf8(one)[0] == 0x57);
    assert(crate::text::utf8(one) =~= vstd::utf8::encode_scalar('W' as u32));
    vstd::utf8::encode_utf8_valid_utf8(s);
    vstd::utf8::encode_utf8_decode_utf8(s);
    if b.len() > 0 && b[0] == 0x57 {
        assert(vstd::utf8::is_leading_byte_width_1(b[0]));
        vstd::utf8::encode_utf8_valid_utf8(one);
        vstd::utf8::encode_utf8_decode_utf8(one);
        assert(vstd::utf8::decode_first_scalar(b) == vstd::utf8::decode_first_scalar(
            crate::text::utf8(one),
        ));
        assert(vstd::utf8::decode_utf8(crate::text::utf8(one))[0] == 'W');
    }
}

/// Does `later`, from an update tag of major version `version`, override
/// `earlier`? Both are binary frames, kept byte-exact.
pub fn same_unique_frame(
    earlier: &EmbeddedBinaryTag,
    later: &EmbeddedBinaryTag,
    version: u8,
) -> (r: bool)
    ensures
        r == overrides_frame(
            (earlier.key@, earlier.payload@),
            (later.key@, later.payload@),
            version,
        ),
{
    let id = earlier.key.as_str();
    if !same_text(id, later.key.as_str()) {
        return false;
    }
    // "There may only be one ... frame in each tag."
    if is_once_per_tag(id) {
        return true;
    }
    // v2.3: "There may only be one "USER" frame in a tag." v2.4 allows one
    // "with the same 'Language'", a descriptor left to the last case below.
    if version == 3 && same_text(id, "USER") {
        return true;
    }
    // "Only one with the same 'Owner identifier'" (UFID, AENC), "only one
    // with the same identification string" (RVA2, EQU2).
    if same_text(id, "UFID") || same_text(id, "AENC") || same_text(id, "RVA2") || same_text(
        id,
        "EQU2",
    ) {
        return same_bytes(
            first_field(earlier.payload.as_slice()),
            first_field(later.payload.as_slice()),
        );
    }
    // "There may only be one URL link frame of its kind in an tag, except
    // when stated otherwise": WXXX is one per description, and WCOM and WOAR
    // may repeat, "but not with the same content".
    if same_text(id, "WXXX") || same_text(id, "WCOM") || same_text(id, "WOAR") {
        return same_bytes(earlier.payload.as_slice(), later.payload.as_slice());
    }
    if starts_with_w(id) {
        return true;
    }
    // Unique by their whole contents (PRIV, LINK, COMR, SIGN), or by a
    // descriptor that is not decoded (GEOB, SYLT, USER, ENCR, GRID): an
    // identical frame is the one duplicate recognised.
    same_bytes(earlier.payload.as_slice(), later.payload.as_slice())
}

/// A frame body's first field, up to its NUL terminator.
fn first_field(body: &[u8]) -> (r: &[u8])
    ensures
        r@ == first_field_of(body@),
{
    let n = position_of(body, 0);
    slice_subrange(body, 0, n)
}

/// Does a frame of `later` override `b`?
fn has_unique_frame(later: &Vec<EmbeddedBinaryTag>, b: &EmbeddedBinaryTag, version: u8) -> (r: bool)
    ensures
        r == overridden_frame(binary_views(later@), (b.key@, b.payload@), version),
{
    let ghost views = binary_views(later@);
    let mut i: usize = 0;
    while i < later.len()
        invariant
            i <= later@.len(),
            views == binary_views(later@),
            forall|j: int|
                0 <= j < i ==> !overrides_frame((b.key@, b.payload@), #[trigger] views[j], version),
        decreases later@.len() - i,
    {
        assert(views[i as int] == (later@[i as int].key@, later@[i as int].payload@));
        if same_unique_frame(b, &later[i], version) {
            return true;
        }
        i = i + 1;
    }
    false
}

/// The binary frames that `later` does not override.
fn keep_frames(
    frames: Vec<EmbeddedBinaryTag>,
    later: &Vec<EmbeddedBinaryTag>,
    version: u8,
) -> (r: Vec<EmbeddedBinaryTag>)
    ensures
        binary_views(r@) == kept_frames(binary_views(frames@), binary_views(later@), version),
{
    let ghost all = frames@;
    let ghost views = binary_views(all);
    let mut rest = reversed(frames);
    let mut out: Vec<EmbeddedBinaryTag> = Vec::new();
    assert(all.skip(0) =~= all);
    assert(binary_views(out@) =~= kept_frames(views.take(0), binary_views(later@), version));
    while rest.len() > 0
        invariant
            rest@.len() <= all.len(),
            views == binary_views(all),
            rest@ == all.skip(all.len() - rest@.len()).reverse(),
            binary_views(out@) == kept_frames(
                views.take(all.len() - rest@.len()),
                binary_views(later@),
                version,
            ),
        decreases rest@.len(),
    {
        let ghost i = all.len() - rest@.len();
        let ghost before = binary_views(out@);
        if let Some(b) = rest.pop() {
            assert(b == all[i]);
            assert(rest@ =~= all.skip(i + 1).reverse());
            assert(views.take(i + 1).drop_last() =~= views.take(i));
            assert(views.take(i + 1).last() == (b.key@, b.payload@));
            if !has_unique_frame(later, &b, version) {
                out.push(b);
                assert(binary_views(out@) =~= before.push((b.key@, b.payload@)));
            }
        }
    }
    assert(views.take(all.len() as int) =~= views);
    out
}

impl Default for Mp3Metadata {
    /// No metadata at all.
    fn default() -> (r: Mp3Metadata)
        ensures
            r@ == no_metadata(),
    {
        let r = Mp3Metadata { tags: Vec::new(), pictures: Vec::new(), binary_tags: Vec::new() };
        assert(r@ =~= no_metadata());
        r
    }
}

impl Mp3Metadata {
    /// One tag's contents, or `None` when the allocation guard refuses to let
    /// it be parsed.
    pub fn read(tag: &[u8]) -> (r: Option<Mp3Metadata>)
        ensures
            match r {
                Some(m) => contents_of(tag@) == Some(m@),
                None => contents_of(tag@) is None,
            },
    {
        if !id3v2_alloc_safe(tag) {
            return None;
        }
        let (binary_tags, promoted) = read_binary_tags(tag);
        let mut promoted = promoted;
        let mut tags = read_tags(tag);
        let ghost a = tags@;
        let ghost b = promoted@;
        tags.append(&mut promoted);
        assert(pair_views(tags@) =~= pair_views(a) + pair_views(b));
        Some(Mp3Metadata { tags, pictures: read_pictures(tag), binary_tags })
    }

    /// Fold in `later`, the contents of a tag of major version `version` that
    /// updates the tags before it. Each of its frames overrides the corresponding
    /// frames merged so far, where "corresponding" follows ID3v2's rules of uniqueness,
    /// at the grain the store keeps:
    ///
    /// - text, `TXXX`, `COMM` and `USLT` frames by store key, compared
    ///   case-insensitively as the store compares keys;
    /// - a `POPM` by both keys it promotes to, `rating` and `playcount`;
    /// - an `APIC` by description, "only one with the same content descriptor";
    /// - binary frames as [`same_unique_frame`] decides.
    ///
    /// Everything `later` does not override stays.
    pub fn update_with(&mut self, later: Mp3Metadata, version: u8)
        ensures
            final(self)@ == updated(old(self)@, later@, version),
    {
        let mut later = later;
        let ghost before = self@;
        let ghost l = later@;

        let mut tags: Vec<(String, String)> = Vec::new();
        tags.append(&mut self.tags);
        assert(pair_views(tags@) =~= before.tags);
        let mut tags = keep_tags(tags, &later.tags);
        let ghost kept = pair_views(tags@);
        tags.append(&mut later.tags);
        assert(pair_views(tags@) =~= kept + l.tags);
        self.tags = tags;

        let mut pictures: Vec<EmbeddedPicture> = Vec::new();
        pictures.append(&mut self.pictures);
        assert(picture_views(pictures@) =~= before.pictures);
        let mut pictures = keep_pictures(pictures, &later.pictures);
        let ghost kept = picture_views(pictures@);
        pictures.append(&mut later.pictures);
        assert(picture_views(pictures@) =~= kept + l.pictures);
        self.pictures = pictures;

        let mut frames: Vec<EmbeddedBinaryTag> = Vec::new();
        frames.append(&mut self.binary_tags);
        assert(binary_views(frames@) =~= before.binary_tags);
        let mut frames = keep_frames(frames, &later.binary_tags, version);
        let ghost kept = binary_views(frames@);
        frames.append(&mut later.binary_tags);
        assert(binary_views(frames@) =~= kept + l.binary_tags);
        self.binary_tags = frames;
    }
}

/// A readable v2.4 tag without the update flag replaces everything merged before it.
pub proof fn unflagged_tag_replaces(
    front: Seq<u8>,
    tail: Seq<u8>,
    tail_start: int,
    extents: Seq<Range<u64>>,
    tag: Seq<u8>,
)
    requires
        extents.len() > 0,
        tag_bytes(front, tail, tail_start, extents.last()) == Some(tag),
        alloc_safe(tag),
        tag[3] == 4,
        !is_update_tag(tag),
    ensures
        Some(merged(front, tail, tail_start, extents)) == contents_of(tag),
{
}

/// A tag that the guard will not parse, or that neither buffer holds whole, changes nothing.
pub proof fn unreadable_tag_changes_nothing(
    front: Seq<u8>,
    tail: Seq<u8>,
    tail_start: int,
    extents: Seq<Range<u64>>,
)
    requires
        extents.len() > 0,
        match tag_bytes(front, tail, tail_start, extents.last()) {
            Some(t) => !alloc_safe(t),
            None => true,
        },
    ensures
        merged(front, tail, tail_start, extents) == merged(
            front,
            tail,
            tail_start,
            extents.drop_last(),
        ),
{
}

/// An update keeps exactly what it does not override, and holds all of the later tag: a
/// pair, a picture or a binary frame is there after it exactly when it is the later tag's,
/// or was there before and the later tag does not override it.
pub proof fn update_keeps_the_rest(
    m: MetadataModel,
    later: MetadataModel,
    version: u8,
    pair: (Seq<char>, Seq<char>),
    picture: PictureModel,
    frame: (Seq<char>, Seq<u8>),
)
    ensures
        updated(m, later, version).tags.contains(pair) == (later.tags.contains(pair) || (
        m.tags.contains(pair) && !overrides_key(later.tags, pair.0))),
        updated(m, later, version).pictures.contains(picture) == (later.pictures.contains(picture)
            || (m.pictures.contains(picture) && !overrides_picture(
            later.pictures,
            picture.description,
        ))),
        updated(m, later, version).binary_tags.contains(frame) == (later.binary_tags.contains(frame)
            || (m.binary_tags.contains(frame) && !overridden_frame(
            later.binary_tags,
            frame,
            version,
        ))),
{
    kept_tags_are(m.tags, later.tags, pair);
    joined_contains(kept_tags(m.tags, later.tags), later.tags, pair);
    kept_pictures_are(m.pictures, later.pictures, picture);
    joined_contains(kept_pictures(m.pictures, later.pictures), later.pictures, picture);
    kept_frames_are(m.binary_tags, later.binary_tags, version, frame);
    joined_contains(
        kept_frames(m.binary_tags, later.binary_tags, version),
        later.binary_tags,
        frame,
    );
}

/// What a joined list holds, one of its parts holds.
proof fn joined_contains<T>(a: Seq<T>, b: Seq<T>, x: T)
    ensures
        (a + b).contains(x) == (a.contains(x) || b.contains(x)),
{
    let all = a + b;
    if all.contains(x) {
        let i = choose|i: int| 0 <= i < all.len() && all[i] == x;
        if i < a.len() {
            assert(a[i] == x);
        } else {
            assert(b[i - a.len()] == x);
        }
    }
    if a.contains(x) {
        let i = choose|i: int| 0 <= i < a.len() && a[i] == x;
        assert(all[i] == x);
    }
    if b.contains(x) {
        let i = choose|i: int| 0 <= i < b.len() && b[i] == x;
        assert(all[a.len() + i] == x);
    }
}

/// A list holds its last item and what the items before it hold.
proof fn last_contains<T>(s: Seq<T>, x: T)
    requires
        s.len() > 0,
    ensures
        s.contains(x) == (s.drop_last().contains(x) || s.last() == x),
{
    assert(s =~= s.drop_last() + seq![s.last()]);
    joined_contains(s.drop_last(), seq![s.last()], x);
    assert(seq![s.last()][0] == s.last());
}

/// A list with one more item.
proof fn pushed_contains<T>(s: Seq<T>, y: T, x: T)
    ensures
        s.push(y).contains(x) == (s.contains(x) || y == x),
{
    last_contains(s.push(y), x);
    assert(s.push(y).drop_last() =~= s);
}

proof fn kept_tags_are(
    s: Seq<(Seq<char>, Seq<char>)>,
    later: Seq<(Seq<char>, Seq<char>)>,
    pair: (Seq<char>, Seq<char>),
)
    ensures
        kept_tags(s, later).contains(pair) == (s.contains(pair) && !overrides_key(later, pair.0)),
    decreases s.len(),
{
    if s.len() > 0 {
        kept_tags_are(s.drop_last(), later, pair);
        last_contains(s, pair);
        pushed_contains(kept_tags(s.drop_last(), later), s.last(), pair);
    }
}

proof fn kept_pictures_are(s: Seq<PictureModel>, later: Seq<PictureModel>, picture: PictureModel)
    ensures
        kept_pictures(s, later).contains(picture) == (s.contains(picture) && !overrides_picture(
            later,
            picture.description,
        )),
    decreases s.len(),
{
    if s.len() > 0 {
        kept_pictures_are(s.drop_last(), later, picture);
        last_contains(s, picture);
        pushed_contains(kept_pictures(s.drop_last(), later), s.last(), picture);
    }
}

proof fn kept_frames_are(
    s: Seq<(Seq<char>, Seq<u8>)>,
    later: Seq<(Seq<char>, Seq<u8>)>,
    version: u8,
    frame: (Seq<char>, Seq<u8>),
)
    ensures
        kept_frames(s, later, version).contains(frame) == (s.contains(frame) && !overridden_frame(
            later,
            frame,
            version,
        )),
    decreases s.len(),
{
    if s.len() > 0 {
        kept_frames_are(s.drop_last(), later, version, frame);
        last_contains(s, frame);
        pushed_contains(kept_frames(s.drop_last(), later, version), s.last(), frame);
    }
}

} // verus!
