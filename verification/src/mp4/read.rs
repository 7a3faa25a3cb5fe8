//! Reading metadata: the iTunes `ilst`, and keyed metadata where the `ilst` says nothing.
//!
//! Lenient: a malformed atom is skipped and nothing errors. This only seeds metadata from
//! existing files, so a missing or garbled tag is simply absent.

use crate::bytes::be32;
use crate::bytes::be_number;
use crate::bytes::be_value;
use crate::bytes::copy_range;
use crate::bytes::front_eight;
use crate::bytes::read_u32_be;
use crate::flac::binary_views;
use crate::flac::picture_view;
use crate::flac::picture_views;
use crate::flac::push_binary;
use crate::flac::push_embedded;
use crate::flac::PictureModel;
use crate::input::EmbeddedBinaryTag;
use crate::input::EmbeddedPicture;
use crate::input::PictureType;
use crate::mp4::boxes::all_inside;
use crate::mp4::boxes::box_view;
use crate::mp4::boxes::box_views;
use crate::mp4::boxes::boxes;
use crate::mp4::boxes::child_boxes_lenient;
use crate::mp4::boxes::child_payloads;
use crate::mp4::boxes::find_payload;
use crate::mp4::boxes::first_payload;
use crate::mp4::boxes::payloads;
use crate::mp4::boxes::same_kind;
use crate::mp4::boxes::slice_views;
use crate::mp4::boxes::BoxModel;
use crate::mp4::boxes::COVR;
use crate::mp4::boxes::DISK;
use crate::mp4::boxes::FREEFORM;
use crate::mp4::boxes::ILST;
use crate::mp4::boxes::MEAN;
use crate::mp4::boxes::META;
use crate::mp4::boxes::MOOV;
use crate::mp4::boxes::NAME;
use crate::mp4::boxes::TRKN;
use crate::mp4::boxes::UDTA;
use crate::mp4::keyed::all_items;
use crate::mp4::keyed::children_of_meta;
use crate::mp4::keyed::datas_of;
use crate::mp4::keyed::file_keyed_metas;
use crate::mp4::keyed::is_keyed;
use crate::mp4::keyed::is_keyed_meta;
use crate::mp4::keyed::item_image;
use crate::mp4::keyed::item_text;
use crate::mp4::keyed::item_view;
use crate::mp4::keyed::item_views;
use crate::mp4::keyed::keyed_items;
use crate::mp4::keyed::meta_children;
use crate::mp4::keyed::pick_image;
use crate::mp4::keyed::pick_text;
use crate::mp4::keyed::read_datas;
use crate::mp4::keyed::ItemModel;
use crate::mp4::keyed::KeyedItem;
use crate::mp4::values::image_mime;
use crate::mp4::values::image_type;
use crate::mp4::values::number_text;
use crate::mp4::values::number_total;
use crate::mp4::values::value_view;
use crate::mp4::values::TagValue;
use crate::mp4::values::ValueModel;
use crate::tagmap::first;
use crate::tagmap::integer_atom_key;
use crate::tagmap::key_at;
use crate::tagmap::keyed_key;
use crate::tagmap::mp4_atom_to_key;
use crate::tagmap::mp4_freeform_is;
use crate::tagmap::mp4_freeform_to_key;
use crate::tagmap::mp4_integer_atom_to_key;
use crate::tagmap::mp4_keyed_to_key;
use crate::tagmap::mp4_text_is;
use crate::tagmap::MP4_KEYED_ARTWORK;
use crate::text::decimal;
use crate::text::decimal_text;
use crate::text::equal_ignoring_case;
use crate::text::same_ignoring_case;
use crate::text::utf8_text;
use crate::vorbiscomment::pair_views;
use crate::vorbiscomment::push_pair;
use vstd::prelude::*;
use vstd::slice::slice_subrange;
use vstd::string::*;
use vstd::utf8::*;

verus! {

/// The `mean` of a freeform atom that does not say one.
pub const ITUNES_MEAN: &'static str = "com.apple.iTunes";

/// The first payload that is not keyed metadata.
pub open spec fn first_plain(ps: Seq<Seq<u8>>) -> Option<Seq<u8>>
    decreases ps.len(),
{
    if ps.len() == 0 {
        None
    } else if !is_keyed(ps[0]) {
        Some(ps[0])
    } else {
        first_plain(ps.drop_first())
    }
}

/// The payload of the iTunes `moov/udta/meta/ilst`. The iTunes `meta` is the first one in
/// `udta` that is not keyed metadata.
pub open spec fn ilst_of(d: Seq<u8>) -> Option<Seq<u8>> {
    match first_payload(d, MOOV@) {
        Some(moov) => match first_payload(moov, UDTA@) {
            Some(udta) => match first_plain(payloads(udta, META@)) {
                Some(meta) => first_payload(children_of_meta(meta), ILST@),
                None => None,
            },
            None => None,
        },
        None => None,
    }
}

/// Locate the iTunes `moov/udta/meta/ilst` and return its payload. The walk is
/// lenient at every level: a single malformed sibling box
/// anywhere on the path must not suppress an otherwise well-formed `ilst`.
/// Strictness is reserved for the audio/structure path.
///
/// The iTunes `meta` is the first one in `udta` that is not keyed metadata:
/// ffmpeg's `-movflags use_metadata_tags` puts an `mdta` `meta` in `udta` too,
/// and its index-typed `ilst` is read by `keyed_items` instead.
pub fn itunes_ilst<'a>(buf: &'a [u8]) -> (r: Option<&'a [u8]>)
    ensures
        match r {
            Some(p) => ilst_of(buf@) == Some(p@),
            None => ilst_of(buf@) is None,
        },
{
    let moov = match find_payload(buf, &MOOV) {
        Some(p) => p,
        None => {
            return None;
        },
    };
    let udta = match find_payload(moov, &UDTA) {
        Some(p) => p,
        None => {
            return None;
        },
    };
    let metas = child_payloads(udta, &META);
    let ghost all = payloads(udta@, META@);
    let mut i: usize = 0;
    assert(all.skip(0) =~= all);
    while i < metas.len()
        invariant
            i <= metas@.len(),
            all == slice_views(metas@),
            first_payload(buf@, MOOV@) == Some(moov@),
            first_payload(moov@, UDTA@) == Some(udta@),
            all == payloads(udta@, META@),
            first_plain(all.skip(i as int)) == first_plain(all),
        decreases metas@.len() - i,
    {
        assert(all.skip(i as int).drop_first() =~= all.skip(i + 1));
        assert(all.skip(i as int)[0] == metas@[i as int]@);
        if !is_keyed_meta(metas[i]) {
            return find_payload(meta_children(metas[i]), &ILST);
        }
        i = i + 1;
    }
    None
}

/// The text behind the 4-byte FullBox prefix of a `name` or `mean` payload.
pub open spec fn full_box_text(p: Option<Seq<u8>>) -> Option<Seq<char>> {
    match p {
        Some(b) => if b.len() >= 4 && valid_utf8(b.skip(4)) {
            Some(decode_utf8(b.skip(4)))
        } else {
            None
        },
        None => None,
    }
}

/// The name of a freeform atom.
pub open spec fn freeform_name(inner: Seq<u8>) -> Option<Seq<char>> {
    full_box_text(first_payload(inner, NAME@))
}

/// The mean of a freeform atom.
pub open spec fn freeform_mean(inner: Seq<u8>) -> Seq<char> {
    match full_box_text(first_payload(inner, MEAN@)) {
        Some(m) => m,
        None => ITUNES_MEAN@,
    }
}

/// The text behind the 4-byte FullBox prefix of the first child of type `kind`.
fn read_full_box_text<'a>(inner: &'a [u8], kind: &[u8; 4]) -> (r: Option<&'a str>)
    ensures
        match r {
            Some(s) => full_box_text(first_payload(inner@, kind@)) == Some(s@),
            None => full_box_text(first_payload(inner@, kind@)) is None,
        },
{
    match find_payload(inner, kind) {
        Some(p) => {
            if p.len() < 4 {
                return None;
            }
            let t = slice_subrange(p, 4, p.len());
            assert(t@ =~= p@.skip(4));
            utf8_text(t)
        },
        None => None,
    }
}

/// The mean of a freeform atom.
fn read_mean<'a>(inner: &'a [u8]) -> (r: &'a str)
    ensures
        r@ == freeform_mean(inner@),
{
    match read_full_box_text(inner, &MEAN) {
        Some(m) => m,
        None => ITUNES_MEAN,
    }
}

/// The key of a freeform atom: the vocabulary's, else its name.
pub open spec fn freeform_key(mean: Seq<char>, name: Seq<char>) -> Seq<char> {
    match key_at(first(mp4_freeform_is(mean, name))) {
        Some(k) => k,
        None => name,
    }
}

/// The text of a `data` payload of type 1 (UTF-8).
pub open spec fn text_data(d: Seq<u8>) -> Option<Seq<char>> {
    if be32(d, 0) == 1 && valid_utf8(d.skip(8)) {
        Some(decode_utf8(d.skip(8)))
    } else {
        None
    }
}

/// One pair with `key` for each text among `data` payloads.
pub open spec fn text_pairs(key: Seq<char>, datas: Seq<Seq<u8>>) -> Seq<(Seq<char>, Seq<char>)>
    decreases datas.len(),
{
    if datas.len() == 0 {
        Seq::empty()
    } else {
        let before = text_pairs(key, datas.drop_last());
        match text_data(datas.last()) {
            Some(t) => before.push((key, t)),
            None => before,
        }
    }
}

/// The pairs of a freeform atom.
pub open spec fn freeform_pairs(inner: Seq<u8>) -> Seq<(Seq<char>, Seq<char>)> {
    match freeform_name(inner) {
        Some(name) => text_pairs(freeform_key(freeform_mean(inner), name), datas_of(inner)),
        None => Seq::empty(),
    }
}

/// Parse a `----` freeform atom payload into `(key, value)` pairs. Folds
/// (mean, name) to a canonical key via the vocabulary, else keys on the verbatim
/// `name`. One pair per UTF-8 (`type 1`) `data` sub-box, the iTunes multi-value
/// convention; binary-typed `data` boxes are left to [`read_binary_tags_reporting`]. Empty
/// if malformed.
pub fn read_freeform(inner: &[u8]) -> (r: Vec<(String, String)>)
    ensures
        pair_views(r@) == freeform_pairs(inner@),
{
    let mut out: Vec<(String, String)> = Vec::new();
    assert(pair_views(out@) =~= Seq::empty());
    let name = match read_full_box_text(inner, &NAME) {
        Some(n) => n,
        None => {
            return out;
        },
    };
    let mean = read_mean(inner);
    let key: &str = match mp4_freeform_to_key(mean, name) {
        Some(k) => k,
        None => name,
    };
    let datas = read_datas(inner);
    let ghost all = datas_of(inner@);
    let mut i: usize = 0;
    assert(pair_views(out@) =~= text_pairs(key@, all.take(0)));
    while i < datas.len()
        invariant
            i <= datas@.len(),
            all == slice_views(datas@),
            forall|j: int| 0 <= j < datas@.len() ==> (#[trigger] datas@[j])@.len() >= 8,
            pair_views(out@) == text_pairs(key@, all.take(i as int)),
        decreases datas@.len() - i,
    {
        assert(all.take(i + 1).drop_last() =~= all.take(i as int));
        let d = datas[i];
        assert(all.take(i + 1).last() == d@);
        assert(d@.len() >= 8);
        // The `data` box is `[type: u32][locale: u32][value]`; type 1 == UTF-8 text.
        if let Ok(1) = read_u32_be(d, 0) {
            let value = slice_subrange(d, 8, d.len());
            assert(value@ =~= d@.skip(8));
            if let Some(t) = utf8_text(value) {
                push_pair(&mut out, key.to_owned(), t.to_owned());
            }
        }
        i = i + 1;
    }
    assert(all.take(i as int) =~= all);
    out
}

/// The pair that one `data` payload of an atom other than `----` yields.
pub open spec fn data_pair(kind: Seq<u8>, d: Seq<u8>) -> Option<(Seq<char>, Seq<char>)> {
    let v = d.skip(8);
    match key_at(first(mp4_text_is(kind))) {
        Some(k) => if valid_utf8(v) {
            Some((k, decode_utf8(v)))
        } else {
            None
        },
        None => if kind == TRKN@ && v.len() >= 4 {
            Some(("tracknumber"@, number_text(v)))
        } else if kind == DISK@ && v.len() >= 4 {
            Some(("discnumber"@, number_text(v)))
        } else {
            match integer_atom_key(kind) {
                Some(k) => Some((k, decimal(be_value(front_eight(v))))),
                None => None,
            }
        },
    }
}

/// The pairs that the `data` payloads of an atom other than `----` yield.
pub open spec fn data_pairs(kind: Seq<u8>, datas: Seq<Seq<u8>>) -> Seq<(Seq<char>, Seq<char>)>
    decreases datas.len(),
{
    if datas.len() == 0 {
        Seq::empty()
    } else {
        let before = data_pairs(kind, datas.drop_last());
        match data_pair(kind, datas.last()) {
            Some(p) => before.push(p),
            None => before,
        }
    }
}

/// The pairs of one atom of an `ilst`.
pub open spec fn atom_pairs(kind: Seq<u8>, inner: Seq<u8>) -> Seq<(Seq<char>, Seq<char>)> {
    if kind == FREEFORM@ {
        freeform_pairs(inner)
    } else {
        data_pairs(kind, datas_of(inner))
    }
}

/// The pairs of atoms of an `ilst`.
pub open spec fn atoms_pairs(s: Seq<BoxModel>, ilst: Seq<u8>) -> Seq<(Seq<char>, Seq<char>)>
    decreases s.len(),
{
    if s.len() == 0 {
        Seq::empty()
    } else {
        atoms_pairs(s.drop_last(), ilst) + atom_pairs(s.last().kind, s.last().payload(ilst))
    }
}

/// Append the pairs that the `data` payloads of an atom other than `----` yield.
fn push_data_pairs(out: &mut Vec<(String, String)>, kind: &[u8; 4], inner: &[u8])
    ensures
        pair_views(final(out)@) == pair_views(old(out)@) + data_pairs(kind@, datas_of(inner@)),
{
    let ghost start = pair_views(out@);
    let datas = read_datas(inner);
    let ghost all = datas_of(inner@);
    let text_key = mp4_atom_to_key(kind);
    let mut i: usize = 0;
    assert(start + data_pairs(kind@, all.take(0)) =~= start);
    while i < datas.len()
        invariant
            i <= datas@.len(),
            all == slice_views(datas@),
            forall|j: int| 0 <= j < datas@.len() ==> (#[trigger] datas@[j])@.len() >= 8,
            crate::tagmap::gives(text_key, key_at(first(mp4_text_is(kind@)))),
            pair_views(out@) == start + data_pairs(kind@, all.take(i as int)),
        decreases datas@.len() - i,
    {
        assert(all.take(i + 1).drop_last() =~= all.take(i as int));
        let d = datas[i];
        assert(all.take(i + 1).last() == d@);
        assert(d@.len() >= 8);
        let value = slice_subrange(d, 8, d.len());  // skip [type 4][locale 4]
        assert(value@ =~= d@.skip(8));
        match text_key {
            Some(key) => {
                if let Some(s) = utf8_text(value) {
                    push_pair(out, key.to_owned(), s.to_owned());
                }
            },
            None => {
                if same_kind(kind, &TRKN) && value.len() >= 4 {
                    push_pair(out, "tracknumber".to_owned(), number_total(value));
                } else if same_kind(kind, &DISK) && value.len() >= 4 {
                    push_pair(out, "discnumber".to_owned(), number_total(value));
                } else if let Some(key) = mp4_integer_atom_to_key(kind) {
                    // tmpo/cpil/pgap: a big-endian unsigned integer in the value bytes.
                    push_pair(out, key.to_owned(), decimal_text(be_number(value)));
                }
            },
        }
        assert(pair_views(out@) =~= start + data_pairs(kind@, all.take(i + 1)));
        i = i + 1;
    }
    assert(all.take(i as int) =~= all);
}

/// The text tags of an iTunes `ilst` payload (see [`read_tags`]).
pub fn read_ilst_tags(ilst: &[u8]) -> (r: Vec<(String, String)>)
    ensures
        pair_views(r@) == atoms_pairs(boxes(ilst@), ilst@),
{
    let list = child_boxes_lenient(ilst);
    let ghost all = boxes(ilst@);
    let mut out: Vec<(String, String)> = Vec::new();
    let mut i: usize = 0;
    assert(pair_views(out@) =~= atoms_pairs(all.take(0), ilst@));
    while i < list.len()
        invariant
            i <= list@.len(),
            all == box_views(list@),
            all_inside(all, ilst@),
            pair_views(out@) == atoms_pairs(all.take(i as int), ilst@),
        decreases list@.len() - i,
    {
        let ghost before = pair_views(out@);
        assert(all.take(i + 1).drop_last() =~= all.take(i as int));
        assert(all[i as int] == box_view(list@[i as int]));
        assert(all[i as int].inside(ilst@));
        let inner = list[i].payload(ilst);
        if same_kind(&list[i].kind, &FREEFORM) {
            let mut more = read_freeform(inner);
            let ghost m = pair_views(more@);
            let ghost o = out@;
            out.append(&mut more);
            assert(pair_views(out@) =~= pair_views(o) + m);
        } else {
            push_data_pairs(&mut out, &list[i].kind, inner);
        }
        i = i + 1;
    }
    assert(all.take(i as int) =~= all);
    out
}

/// Tag values as mathematical values.
pub open spec fn tag_views(s: Seq<(String, TagValue)>) -> Seq<(Seq<char>, ValueModel)> {
    Seq::new(s.len(), |i: int| (s[i].0@, value_view(s[i].1)))
}

/// Text pairs as tag values.
pub open spec fn text_values(s: Seq<(Seq<char>, Seq<char>)>) -> Seq<(Seq<char>, ValueModel)> {
    Seq::new(s.len(), |i: int| (s[i].0, ValueModel::Text(s[i].1)))
}

/// A tag has the key `k`, but for case.
pub open spec fn has_tag(s: Seq<(Seq<char>, ValueModel)>, k: Seq<char>) -> bool {
    exists|i: int| 0 <= i < s.len() && same_ignoring_case((#[trigger] s[i]).0, k)
}

/// The key of a keyed item: the vocabulary's, else its name.
pub open spec fn keyed_tag_key(name: Seq<char>) -> Seq<char> {
    match keyed_key(name) {
        Some(k) => k,
        None => name,
    }
}

/// Tags filled in with keyed items: each item in turn adds its value where its key is not
/// there yet. The artwork key is art, not text.
pub open spec fn filled(s: Seq<(Seq<char>, ValueModel)>, items: Seq<ItemModel>) -> Seq<
    (Seq<char>, ValueModel),
>
    decreases items.len(),
{
    if items.len() == 0 {
        s
    } else {
        let before = filled(s, items.drop_last());
        let item = items.last();
        let key = keyed_tag_key(item.name);
        if same_ignoring_case(item.name, MP4_KEYED_ARTWORK@) || has_tag(before, key) {
            before
        } else {
            match item_text(item.datas) {
                Some(v) => before.push((key, v)),
                None => before,
            }
        }
    }
}

/// The text pairs of the iTunes `ilst`.
pub open spec fn ilst_pairs(d: Seq<u8>) -> Seq<(Seq<char>, Seq<char>)> {
    match ilst_of(d) {
        Some(ilst) => atoms_pairs(boxes(ilst), ilst),
        None => Seq::empty(),
    }
}

/// The text tags of a file.
pub open spec fn file_tags(d: Seq<u8>) -> Seq<(Seq<char>, ValueModel)> {
    filled(text_values(ilst_pairs(d)), all_items(file_keyed_metas(d)))
}

/// Does a tag have the key `k`, but for case?
fn tag_present(tags: &Vec<(String, TagValue)>, k: &str) -> (r: bool)
    ensures
        r == has_tag(tag_views(tags@), k@),
{
    let ghost views = tag_views(tags@);
    let mut i: usize = 0;
    while i < tags.len()
        invariant
            i <= tags@.len(),
            views == tag_views(tags@),
            forall|j: int| 0 <= j < i ==> !same_ignoring_case((#[trigger] views[j]).0, k@),
        decreases tags@.len() - i,
    {
        assert(views[i as int].0 == tags@[i as int].0@);
        if equal_ignoring_case(tags[i].0.as_str(), k) {
            return true;
        }
        i = i + 1;
    }
    false
}

/// Text pairs as tag values.
fn as_values(pairs: &Vec<(String, String)>) -> (r: Vec<(String, TagValue)>)
    ensures
        tag_views(r@) == text_values(pair_views(pairs@)),
{
    let ghost all = text_values(pair_views(pairs@));
    let mut out: Vec<(String, TagValue)> = Vec::new();
    let mut i: usize = 0;
    assert(tag_views(out@) =~= all.take(0));
    while i < pairs.len()
        invariant
            i <= pairs@.len(),
            all == text_values(pair_views(pairs@)),
            tag_views(out@) == all.take(i as int),
        decreases pairs@.len() - i,
    {
        let ghost before = tag_views(out@);
        let tag = (pairs[i].0.clone(), TagValue::Text(pairs[i].1.clone()));
        let ghost v = (tag.0@, value_view(tag.1));
        out.push(tag);
        assert(tag_views(out@) =~= before.push(v));
        assert(tag_views(out@) =~= all.take(i + 1));
        i = i + 1;
    }
    assert(all.take(i as int) =~= all);
    out
}

/// The tags of a file, out of its structural metadata.
///
/// The iTunes `ilst` is read first: text atoms map via the vocabulary;
/// `trkn`/`disk` yield track/disc numbers as `"N"`/`"N/M"`; `----` freeform atoms
/// key on their name (folded when known). Every `data` sub-box of an atom is
/// read, so multi-value atoms recover all their values. Other atoms are skipped.
///
/// QuickTime keyed metadata then fills in keys the `ilst`
/// does not define. A key name folds onto the vocabulary when it has a mapping
/// (`com.apple.quicktime.artist` to `artist`), and is otherwise kept verbatim, as
/// an unknown `----` name is. Precedence is all-or-nothing per key, compared
/// case-insensitively: a key the `ilst` carries takes nothing from keyed
/// metadata, and among keyed items the first (in `keyed_items` order) that
/// yields a value supplies the key. Each item yields at most one value
/// (`pick_text`); the artwork key is art, not text.
pub fn read_tags(buf: &[u8]) -> (r: Vec<(String, TagValue)>)
    ensures
        tag_views(r@) == file_tags(buf@),
{
    let pairs = match itunes_ilst(buf) {
        Some(ilst) => read_ilst_tags(ilst),
        None => {
            let none: Vec<(String, String)> = Vec::new();
            assert(pair_views(none@) =~= Seq::empty());
            none
        },
    };
    let mut out = as_values(&pairs);
    let ghost start = tag_views(out@);
    let items = keyed_items(buf);
    let ghost all = all_items(file_keyed_metas(buf@));
    let mut i: usize = 0;
    assert(all.take(0) =~= Seq::empty());
    while i < items.len()
        invariant
            i <= items@.len(),
            all == item_views(items@),
            tag_views(out@) == filled(start, all.take(i as int)),
        decreases items@.len() - i,
    {
        let ghost before = tag_views(out@);
        assert(all.take(i + 1).drop_last() =~= all.take(i as int));
        assert(all.take(i + 1).last() == item_view(items@[i as int]));
        if !equal_ignoring_case(items[i].name, MP4_KEYED_ARTWORK) {
            let key: &str = match mp4_keyed_to_key(items[i].name) {
                Some(k) => k,
                None => items[i].name,
            };
            if !tag_present(&out, key) {
                if let Some(v) = pick_text(&items[i].datas) {
                    let tag = (key.to_owned(), v);
                    let ghost t = (tag.0@, value_view(tag.1));
                    out.push(tag);
                    assert(tag_views(out@) =~= before.push(t));
                }
            }
        }
        i = i + 1;
    }
    assert(all.take(i as int) =~= all);
    out
}

/// An embedded `covr` image or binary `----` payload that a reader skipped
/// because it exceeded the caller's size cap. Carries only a descriptor and the
/// payload's byte size, never the bytes themselves, so the caller can log the
/// lossy drop without materializing the
/// oversized item out of a potentially large `moov`.
#[derive(Debug, Clone, PartialEq, Eq)]
pub struct OversizeDrop {
    /// Cover-art MIME type, or the binary tag's `----:<mean>:<name>` key.
    pub descriptor: String,
    /// Size of the dropped payload body in bytes (after the 8-byte `data` header).
    pub bytes: usize,
}

/// Drops as mathematical values: descriptor and size.
pub open spec fn drop_views(s: Seq<OversizeDrop>) -> Seq<(Seq<char>, int)> {
    Seq::new(s.len(), |i: int| (s[i].descriptor@, s[i].bytes as int))
}

/// Append a drop.
fn push_drop(out: &mut Vec<OversizeDrop>, descriptor: String, bytes: usize)
    ensures
        drop_views(final(out)@) == drop_views(old(out)@).push((descriptor@, bytes as int)),
{
    let ghost v = (descriptor@, bytes as int);
    out.push(OversizeDrop { descriptor, bytes });
    assert(drop_views(out@) =~= drop_views(old(out)@).push(v));
}

/// An embedded image as a front-cover picture. Neither `covr` nor keyed artwork declares
/// geometry.
pub open spec fn cover(image: (Seq<char>, Seq<u8>)) -> PictureModel {
    PictureModel {
        mime: image.0,
        picture_type: 3,
        description: Seq::empty(),
        width: 0,
        height: 0,
        data: image.1,
    }
}

/// The pictures among images: those within the cap.
pub open spec fn covers(images: Seq<(Seq<char>, Seq<u8>)>, cap: int) -> Seq<PictureModel>
    decreases images.len(),
{
    if images.len() == 0 {
        Seq::empty()
    } else if images.last().1.len() <= cap {
        covers(images.drop_last(), cap).push(cover(images.last()))
    } else {
        covers(images.drop_last(), cap)
    }
}

/// The items over the cap, as descriptor and size.
pub open spec fn oversize(items: Seq<(Seq<char>, Seq<u8>)>, cap: int) -> Seq<(Seq<char>, int)>
    decreases items.len(),
{
    if items.len() == 0 {
        Seq::empty()
    } else if items.last().1.len() <= cap {
        oversize(items.drop_last(), cap)
    } else {
        oversize(items.drop_last(), cap).push((items.last().0, items.last().1.len() as int))
    }
}

/// The images among `data` payloads: MIME type and bytes.
pub open spec fn images_of(datas: Seq<Seq<u8>>) -> Seq<(Seq<char>, Seq<u8>)>
    decreases datas.len(),
{
    if datas.len() == 0 {
        Seq::empty()
    } else {
        let before = images_of(datas.drop_last());
        match image_type(be32(datas.last(), 0)) {
            Some(m) => before.push((m, datas.last().skip(8))),
            None => before,
        }
    }
}

/// The images of `covr` atoms.
pub open spec fn covr_images(covrs: Seq<Seq<u8>>) -> Seq<(Seq<char>, Seq<u8>)>
    decreases covrs.len(),
{
    if covrs.len() == 0 {
        Seq::empty()
    } else {
        covr_images(covrs.drop_last()) + images_of(datas_of(covrs.last()))
    }
}

/// The first image among keyed artwork items.
pub open spec fn keyed_artwork(items: Seq<ItemModel>) -> Option<(Seq<char>, Seq<u8>)>
    decreases items.len(),
{
    if items.len() == 0 {
        None
    } else {
        let rest = keyed_artwork(items.drop_first());
        if same_ignoring_case(items[0].name, MP4_KEYED_ARTWORK@) {
            match item_image(items[0].datas) {
                Some(i) => Some(i),
                None => rest,
            }
        } else {
            rest
        }
    }
}

/// The images of a file: those of its `covr` atoms, and only where there are none, the first
/// keyed artwork.
pub open spec fn file_images(d: Seq<u8>) -> Seq<(Seq<char>, Seq<u8>)> {
    let art = match ilst_of(d) {
        Some(ilst) => covr_images(payloads(ilst, COVR@)),
        None => Seq::empty(),
    };
    if art.len() > 0 {
        art
    } else {
        match keyed_artwork(all_items(file_keyed_metas(d))) {
            Some(i) => seq![i],
            None => Seq::empty(),
        }
    }
}

/// Each image is a picture or a drop.
proof fn images_split(images: Seq<(Seq<char>, Seq<u8>)>, cap: int)
    ensures
        covers(images, cap).len() + oversize(images, cap).len() == images.len(),
    decreases images.len(),
{
    if images.len() > 0 {
        images_split(images.drop_last(), cap);
    }
}

/// Record one embedded image: a front-cover picture, or an [`OversizeDrop`] when
/// `image` exceeds `max_art_bytes` (checked before the copy).
fn push_picture(
    mime: &str,
    image: &[u8],
    max_art_bytes: usize,
    out: &mut Vec<EmbeddedPicture>,
    dropped: &mut Vec<OversizeDrop>,
    images: Ghost<Seq<(Seq<char>, Seq<u8>)>>,
)
    requires
        picture_views(old(out)@) == covers(images@, max_art_bytes as int),
        drop_views(old(dropped)@) == oversize(images@, max_art_bytes as int),
    ensures
        picture_views(final(out)@) == covers(images@.push((mime@, image@)), max_art_bytes as int),
        drop_views(final(dropped)@) == oversize(
            images@.push((mime@, image@)),
            max_art_bytes as int,
        ),
{
    assert(images@.push((mime@, image@)).drop_last() =~= images@);
    if image.len() > max_art_bytes {
        push_drop(dropped, mime.to_owned(), image.len());
        return ;
    }
    let kind = match PictureType::new(3) {
        Some(k) => k,
        None => PictureType::zero(),
    };
    let p = EmbeddedPicture {
        mime: mime.to_owned(),
        picture_type: kind,
        description: String::new(),
        width: 0,
        height: 0,
        data: copy_range(image, 0, image.len()),
    };
    proof {
        assert(image@.subrange(0, image@.len() as int) =~= image@);
        assert(p.description@ =~= Seq::empty());
        assert(picture_view(p) == cover((mime@, image@)));
    }
    push_embedded(out, p);
}

/// Like [`read_pictures`], but also returns the oversized images skipped over
/// `max_art_bytes`, so the caller can log each lossy drop. The size check still
/// happens before any copy: an oversized image is described, never
/// materialized. See [`OversizeDrop`].
pub fn read_pictures_reporting(buf: &[u8], max_art_bytes: usize) -> (r: (
    Vec<EmbeddedPicture>,
    Vec<OversizeDrop>,
))
    ensures
        picture_views(r.0@) == covers(file_images(buf@), max_art_bytes as int),
        drop_views(r.1@) == oversize(file_images(buf@), max_art_bytes as int),
{
    let mut out: Vec<EmbeddedPicture> = Vec::new();
    let mut dropped: Vec<OversizeDrop> = Vec::new();
    let covrs = match itunes_ilst(buf) {
        Some(ilst) => child_payloads(ilst, &COVR),
        None => {
            let none: Vec<&[u8]> = Vec::new();
            assert(slice_views(none@) =~= Seq::empty());
            none
        },
    };
    let ghost all = slice_views(covrs@);
    let ghost mut images: Seq<(Seq<char>, Seq<u8>)> = Seq::empty();
    assert(picture_views(out@) =~= covers(images, max_art_bytes as int));
    assert(drop_views(dropped@) =~= oversize(images, max_art_bytes as int));
    assert(images =~= covr_images(all.take(0)));
    let mut i: usize = 0;
    while i < covrs.len()
        invariant
            i <= covrs@.len(),
            all == slice_views(covrs@),
            images == covr_images(all.take(i as int)),
            picture_views(out@) == covers(images, max_art_bytes as int),
            drop_views(dropped@) == oversize(images, max_art_bytes as int),
        decreases covrs@.len() - i,
    {
        assert(all.take(i + 1).drop_last() =~= all.take(i as int));
        assert(all.take(i + 1).last() == covrs@[i as int]@);
        let datas = read_datas(covrs[i]);
        let ghost ds = datas_of(covrs@[i as int]@);
        let ghost before = images;
        let mut j: usize = 0;
        assert(before + images_of(ds.take(0)) =~= before);
        while j < datas.len()
            invariant
                j <= datas@.len(),
                ds == slice_views(datas@),
                forall|k: int| 0 <= k < datas@.len() ==> (#[trigger] datas@[k])@.len() >= 8,
                images == before + images_of(ds.take(j as int)),
                picture_views(out@) == covers(images, max_art_bytes as int),
                drop_views(dropped@) == oversize(images, max_art_bytes as int),
            decreases datas@.len() - j,
        {
            assert(ds.take(j + 1).drop_last() =~= ds.take(j as int));
            let d = datas[j];
            assert(ds.take(j + 1).last() == d@);
            assert(d@.len() >= 8);
            if let Ok(t) = read_u32_be(d, 0) {
                if let Some(mime) = image_mime(t) {
                    let image = slice_subrange(d, 8, d.len());
                    assert(image@ =~= d@.skip(8));
                    push_picture(mime, image, max_art_bytes, &mut out, &mut dropped, Ghost(images));
                    proof {
                        images = images.push((mime@, image@));
                        assert(images =~= before + images_of(ds.take(j + 1)));
                    }
                }
            }
            j = j + 1;
        }
        assert(ds.take(j as int) =~= ds);
        i = i + 1;
    }
    assert(all.take(i as int) =~= all);
    proof {
        images_split(images, max_art_bytes as int);
        assert(out@.len() == picture_views(out@).len());
        assert(dropped@.len() == drop_views(dropped@).len());
    }
    // The `covr` art wins outright, as the `ilst` does for text; an oversize
    // `covr` still claims the slot, since it fails the file rather than
    // quietly giving way to a different image.
    if out.len() == 0 && dropped.len() == 0 {
        let items = keyed_items(buf);
        if let Some((mime, image)) = first_artwork(&items) {
            push_picture(mime, image, max_art_bytes, &mut out, &mut dropped, Ghost(images));
            assert(images.push((mime@, image@)) =~= seq![(mime@, image@)]);
        }
    }
    (out, dropped)
}

/// The first image among keyed artwork items.
fn first_artwork<'a>(items: &Vec<KeyedItem<'a>>) -> (r: Option<(&'static str, &'a [u8])>)
    ensures
        match r {
            Some((m, v)) => keyed_artwork(item_views(items@)) == Some((m@, v@)),
            None => keyed_artwork(item_views(items@)) is None,
        },
{
    let ghost all = item_views(items@);
    let mut i: usize = 0;
    assert(all.skip(0) =~= all);
    while i < items.len()
        invariant
            i <= items@.len(),
            all == item_views(items@),
            keyed_artwork(all.skip(i as int)) == keyed_artwork(all),
        decreases items@.len() - i,
    {
        assert(all.skip(i as int).drop_first() =~= all.skip(i + 1));
        assert(all.skip(i as int)[0] == item_view(items@[i as int]));
        if equal_ignoring_case(items[i].name, MP4_KEYED_ARTWORK) {
            if let Some(found) = pick_image(&items[i].datas) {
                return Some(found);
            }
        }
        i = i + 1;
    }
    None
}

/// The pictures of a file.
///
/// Every `data` child of every `covr` atom yields one picture (the iTunes
/// multiple-artwork convention); non-`data` children are skipped. Only when the
/// `covr` atoms yield nothing (not even an oversize drop) is QuickTime keyed
/// metadata's `com.apple.quicktime.artwork` consulted: the first artwork item, in
/// `keyed_items` order, holding a JPEG/PNG value gives one picture.
///
/// `max_art_bytes` caps each image body: a `data` payload whose image bytes
/// (after the 8-byte `[type][locale]` header) exceed it is skipped before any
/// copy, so an oversized `covr` in a large `moov` is never materialized. Use
/// [`read_pictures_reporting`] to also recover the oversized drops for logging.
pub fn read_pictures(buf: &[u8], max_art_bytes: usize) -> (r: Vec<EmbeddedPicture>)
    ensures
        picture_views(r@) == covers(file_images(buf@), max_art_bytes as int),
{
    read_pictures_reporting(buf, max_art_bytes).0
}

/// The key of a binary freeform value.
pub open spec fn binary_key(mean: Seq<char>, name: Seq<char>) -> Seq<char> {
    "----:"@ + mean + ":"@ + name
}

/// The values of `data` payloads that are not text, each under `key`.
pub open spec fn binary_datas(key: Seq<char>, datas: Seq<Seq<u8>>) -> Seq<(Seq<char>, Seq<u8>)>
    decreases datas.len(),
{
    if datas.len() == 0 {
        Seq::empty()
    } else if be32(datas.last(), 0) == 1 {
        binary_datas(key, datas.drop_last())
    } else {
        binary_datas(key, datas.drop_last()).push((key, datas.last().skip(8)))
    }
}

/// No freeform value is read both as text and as a binary tag; and one that is read as
/// neither is of type text but not UTF-8.
pub proof fn freeform_value_is_read_once(text_key: Seq<char>, binary_key: Seq<char>, d: Seq<u8>)
    ensures
        ({
            let texts = text_pairs(text_key, seq![d]);
            let binaries = binary_datas(binary_key, seq![d]);
            &&& texts.len() + binaries.len() <= 1
            &&& texts.len() + binaries.len() == 0 <==> be32(d, 0) == 1 && !valid_utf8(d.skip(8))
        }),
{
    let one = seq![d];
    assert(one.drop_last() =~= Seq::<Seq<u8>>::empty());
    assert(one.last() == d);
    assert(text_pairs(text_key, one.drop_last()) =~= Seq::empty());
    assert(binary_datas(binary_key, one.drop_last()) =~= Seq::empty());
}

/// The binary values of one atom of an `ilst`.
pub open spec fn atom_binaries(kind: Seq<u8>, inner: Seq<u8>) -> Seq<(Seq<char>, Seq<u8>)> {
    match freeform_name(inner) {
        Some(name) if kind == FREEFORM@ => binary_datas(
            binary_key(freeform_mean(inner), name),
            datas_of(inner),
        ),
        _ => Seq::empty(),
    }
}

/// The binary values of atoms of an `ilst`.
pub open spec fn atoms_binaries(s: Seq<BoxModel>, ilst: Seq<u8>) -> Seq<(Seq<char>, Seq<u8>)>
    decreases s.len(),
{
    if s.len() == 0 {
        Seq::empty()
    } else {
        atoms_binaries(s.drop_last(), ilst) + atom_binaries(s.last().kind, s.last().payload(ilst))
    }
}

/// The binary freeform values of a file, under their keys. Keyed metadata has no binary
/// passthrough.
pub open spec fn file_binaries(d: Seq<u8>) -> Seq<(Seq<char>, Seq<u8>)> {
    match ilst_of(d) {
        Some(ilst) => atoms_binaries(boxes(ilst), ilst),
        None => Seq::empty(),
    }
}

/// The items within the cap.
pub open spec fn within_cap(items: Seq<(Seq<char>, Seq<u8>)>, cap: int) -> Seq<
    (Seq<char>, Seq<u8>),
>
    decreases items.len(),
{
    if items.len() == 0 {
        Seq::empty()
    } else if items.last().1.len() <= cap {
        within_cap(items.drop_last(), cap).push(items.last())
    } else {
        within_cap(items.drop_last(), cap)
    }
}

/// The key of a binary freeform value.
fn binary_key_text(mean: &str, name: &str) -> (r: String)
    ensures
        r@ == binary_key(mean@, name@),
{
    let mut key: String = "----:".to_owned();
    key.append(mean);
    key.append(":");
    key.append(name);
    assert(key@ =~= binary_key(mean@, name@));
    key
}

/// Record the binary values of one freeform atom.
fn push_binaries(
    inner: &[u8],
    cap: usize,
    out: &mut Vec<EmbeddedBinaryTag>,
    dropped: &mut Vec<OversizeDrop>,
    items: Ghost<Seq<(Seq<char>, Seq<u8>)>>,
)
    requires
        binary_views(old(out)@) == within_cap(items@, cap as int),
        drop_views(old(dropped)@) == oversize(items@, cap as int),
    ensures
        binary_views(final(out)@) == within_cap(
            items@ + atom_binaries(FREEFORM@, inner@),
            cap as int,
        ),
        drop_views(final(dropped)@) == oversize(
            items@ + atom_binaries(FREEFORM@, inner@),
            cap as int,
        ),
{
    let name = match read_full_box_text(inner, &NAME) {
        Some(n) => n,
        None => {
            assert(items@ + Seq::<(Seq<char>, Seq<u8>)>::empty() =~= items@);
            return ;
        },
    };
    let key = binary_key_text(read_mean(inner), name);
    let datas = read_datas(inner);
    let ghost ds = datas_of(inner@);
    let ghost mut seen = items@;
    let mut j: usize = 0;
    assert(items@ + binary_datas(key@, ds.take(0)) =~= items@);
    // Every `data` sub-box is inspected, mirroring the text path: a `----` atom can
    // carry a type-1 text value and a separate binary value.
    while j < datas.len()
        invariant
            j <= datas@.len(),
            ds == slice_views(datas@),
            forall|k: int| 0 <= k < datas@.len() ==> (#[trigger] datas@[k])@.len() >= 8,
            seen == items@ + binary_datas(key@, ds.take(j as int)),
            binary_views(out@) == within_cap(seen, cap as int),
            drop_views(dropped@) == oversize(seen, cap as int),
        decreases datas@.len() - j,
    {
        assert(ds.take(j + 1).drop_last() =~= ds.take(j as int));
        let d = datas[j];
        assert(ds.take(j + 1).last() == d@);
        assert(d@.len() >= 8);
        if let Ok(t) = read_u32_be(d, 0) {
            if t != 1 {
                let n: usize = d.len();
                let ghost value = d@.skip(8);
                proof {
                    assert(seen.push((key@, value)).drop_last() =~= seen);
                    assert(seen.push((key@, value)) =~= items@ + binary_datas(key@, ds.take(j + 1)));
                    assert(d@.subrange(8, n as int) =~= value);
                }
                if n - 8 > cap {
                    push_drop(dropped, key.clone(), n - 8);
                } else {
                    push_binary(out, key.clone(), copy_range(d, 8, n));
                }
                proof {
                    seen = seen.push((key@, value));
                }
            }
        }
        j = j + 1;
    }
    assert(ds.take(j as int) =~= ds);
}

/// Every binary-typed `----` atom's value, as [`read_binary_tags`] describes, and
/// also the oversized `----` values
/// skipped over `max_binary_tag_bytes`, so the caller can log each lossy drop.
/// The size check still happens before any copy: an oversized value is
/// described, never materialized. See [`OversizeDrop`].
pub fn read_binary_tags_reporting(buf: &[u8], max_binary_tag_bytes: usize) -> (r: (
    Vec<EmbeddedBinaryTag>,
    Vec<OversizeDrop>,
))
    ensures
        binary_views(r.0@) == within_cap(file_binaries(buf@), max_binary_tag_bytes as int),
        drop_views(r.1@) == oversize(file_binaries(buf@), max_binary_tag_bytes as int),
{
    let mut out: Vec<EmbeddedBinaryTag> = Vec::new();
    let mut dropped: Vec<OversizeDrop> = Vec::new();
    assert(binary_views(out@) =~= Seq::empty());
    assert(drop_views(dropped@) =~= Seq::empty());
    let ilst = match itunes_ilst(buf) {
        Some(p) => p,
        None => {
            return (out, dropped);
        },
    };
    let list = child_boxes_lenient(ilst);
    let ghost all = boxes(ilst@);
    let ghost mut items: Seq<(Seq<char>, Seq<u8>)> = Seq::empty();
    let mut i: usize = 0;
    assert(items =~= atoms_binaries(all.take(0), ilst@));
    while i < list.len()
        invariant
            i <= list@.len(),
            all == box_views(list@),
            all_inside(all, ilst@),
            items == atoms_binaries(all.take(i as int), ilst@),
            binary_views(out@) == within_cap(items, max_binary_tag_bytes as int),
            drop_views(dropped@) == oversize(items, max_binary_tag_bytes as int),
        decreases list@.len() - i,
    {
        assert(all.take(i + 1).drop_last() =~= all.take(i as int));
        assert(all[i as int] == box_view(list@[i as int]));
        assert(all[i as int].inside(ilst@));
        if same_kind(&list[i].kind, &FREEFORM) {
            let inner = list[i].payload(ilst);
            push_binaries(inner, max_binary_tag_bytes, &mut out, &mut dropped, Ghost(items));
            proof {
                items = items + atom_binaries(FREEFORM@, inner@);
            }
        } else {
            assert(items + Seq::<(Seq<char>, Seq<u8>)>::empty() =~= items);
        }
        i = i + 1;
    }
    assert(all.take(i as int) =~= all);
    (out, dropped)
}

/// Extract opaque (non-text) MP4 `----` freeform atoms for binary-tag passthrough.
/// One `EmbeddedBinaryTag` per binary-typed (type code != 1) `data` sub-box of
/// each `----` atom: key `----:<mean>:<name>`, payload the `data` value bytes
/// (after the 8-byte `[type][locale]` header). Text freeform atoms (type 1) are
/// handled by `read_tags`, so the two paths never double-store. Lenient:
/// malformed atoms are skipped. Every `data` sub-box is inspected, so a mixed
/// atom carrying both a text and a binary value recovers the binary one.
///
/// `max_binary_tag_bytes` caps each value: a `data` payload whose value bytes
/// (after the 8-byte `[type][locale]` header) exceed it is skipped before any
/// copy. Use [`read_binary_tags_reporting`] to also recover the oversized drops for
/// logging.
pub fn read_binary_tags(buf: &[u8], max_binary_tag_bytes: usize) -> (r: Vec<EmbeddedBinaryTag>)
    ensures
        binary_views(r@) == within_cap(file_binaries(buf@), max_binary_tag_bytes as int),
{
    read_binary_tags_reporting(buf, max_binary_tag_bytes).0
}

} // verus!
