//! QuickTime keyed metadata: a `keys` table plus an `ilst` whose item atom types are 1-based
//! indexes into it, instead of FourCCs.

use crate::bytes::be32;
use crate::bytes::read_u32_be;
use crate::bytes::same_bytes;
use crate::mp4::boxes::all_inside;
use crate::mp4::boxes::box_view;
use crate::mp4::boxes::box_views;
use crate::mp4::boxes::boxes;
use crate::mp4::boxes::child_boxes_lenient;
use crate::mp4::boxes::child_payloads;
use crate::mp4::boxes::find_payload;
use crate::mp4::boxes::first_payload;
use crate::mp4::boxes::payloads;
use crate::mp4::boxes::slice_views;
use crate::mp4::boxes::BoxModel;
use crate::mp4::boxes::DATA;
use crate::mp4::boxes::HDLR;
use crate::mp4::boxes::ILST;
use crate::mp4::boxes::KEYS;
use crate::mp4::boxes::MDIA;
use crate::mp4::boxes::MDTA;
use crate::mp4::boxes::META;
use crate::mp4::boxes::MOOV;
use crate::mp4::boxes::TRAK;
use crate::mp4::boxes::UDTA;
use crate::mp4::values::image_mime;
use crate::mp4::values::image_type;
use crate::mp4::values::keyed_text;
use crate::mp4::values::keyed_value;
use crate::mp4::values::opt_value_view;
use crate::mp4::values::TagValue;
use crate::mp4::values::ValueModel;
use crate::text::utf8_text;
use vstd::prelude::*;
use vstd::slice::slice_subrange;
use vstd::string::*;
use vstd::utf8::*;

verus! {

/// The children of a `meta` box, given its payload: behind a first word of zero, which marks
/// the FullBox variant, else the whole payload.
pub open spec fn children_of_meta(p: Seq<u8>) -> Seq<u8> {
    if p.len() >= 4 && be32(p, 0) == 0 {
        p.skip(4)
    } else {
        p
    }
}

/// The children of a `meta` box, given its payload.
///
/// `meta` is normally an ISO FullBox (4 version/flags bytes precede its children)
/// but QuickTime also uses a bare `meta` with no such prefix. Per ISO 14496-12 the
/// version/flags word is always zero, so a zero first word marks the FullBox variant
/// (skip 4) and any other value marks the bare variant (skip 0). A bare
/// first child declaring `size == 0` ("extends to end") is the one ambiguous case
/// and is misread as a FullBox, mirroring the wider tooling's heuristic.
pub fn meta_children(meta_payload: &[u8]) -> (r: &[u8])
    ensures
        r@ == children_of_meta(meta_payload@),
{
    match read_u32_be(meta_payload, 0) {
        Ok(0) => {
            let r = slice_subrange(meta_payload, 4, meta_payload.len());
            assert(r@ =~= meta_payload@.skip(4));
            r
        },
        _ => meta_payload,
    }
}

/// A `meta` box (given its payload) holds keyed metadata: its `hdlr` declares the `mdta`
/// handler.
pub open spec fn is_keyed(p: Seq<u8>) -> bool {
    match first_payload(children_of_meta(p), HDLR@) {
        Some(h) => h.len() >= 12 && h.subrange(8, 12) == MDTA@,
        None => false,
    }
}

/// Whether a `meta` box (given its payload) holds QuickTime keyed metadata: its
/// `hdlr` declares the `mdta` handler (`[version/flags][pre_defined][handler_type]`).
/// A `meta` with no readable `hdlr` is not keyed.
pub fn is_keyed_meta(meta_payload: &[u8]) -> (r: bool)
    ensures
        r == is_keyed(meta_payload@),
{
    match find_payload(meta_children(meta_payload), &HDLR) {
        Some(h) => h.len() >= 12 && same_bytes(slice_subrange(h, 8, 12), MDTA.as_slice()),
        None => false,
    }
}

/// The children of those `meta` payloads that are keyed metadata.
pub open spec fn keyed_children(ps: Seq<Seq<u8>>) -> Seq<Seq<u8>>
    decreases ps.len(),
{
    if ps.len() == 0 {
        Seq::empty()
    } else if is_keyed(ps.last()) {
        keyed_children(ps.drop_last()).push(children_of_meta(ps.last()))
    } else {
        keyed_children(ps.drop_last())
    }
}

/// Tracks and their media, each track before its media.
pub open spec fn track_containers(traks: Seq<Seq<u8>>) -> Seq<Seq<u8>>
    decreases traks.len(),
{
    if traks.len() == 0 {
        Seq::empty()
    } else {
        track_containers(traks.drop_last()).push(traks.last()) + payloads(traks.last(), MDIA@)
    }
}

/// The payloads that may hold keyed metadata: of the movie, its user data, its tracks and
/// their media.
pub open spec fn keyed_containers(moov: Seq<u8>) -> Seq<Seq<u8>> {
    seq![moov] + payloads(moov, UDTA@) + track_containers(payloads(moov, TRAK@))
}

/// The keyed metadata of containers, as the children of each `meta`.
pub open spec fn keyed_of(containers: Seq<Seq<u8>>) -> Seq<Seq<u8>>
    decreases containers.len(),
{
    if containers.len() == 0 {
        Seq::empty()
    } else {
        keyed_of(containers.drop_last()) + keyed_children(payloads(containers.last(), META@))
    }
}

/// Every keyed-metadata `meta` in the file, as its children, in precedence order.
pub open spec fn file_keyed_metas(d: Seq<u8>) -> Seq<Seq<u8>> {
    match first_payload(d, MOOV@) {
        Some(moov) => keyed_of(keyed_containers(moov)),
        None => Seq::empty(),
    }
}

/// Append the keyed metadata of a container.
fn push_keyed<'a>(out: &mut Vec<&'a [u8]>, container: &'a [u8])
    ensures
        slice_views(final(out)@) == slice_views(old(out)@) + keyed_children(
            payloads(container@, META@),
        ),
{
    let metas = child_payloads(container, &META);
    let ghost all = payloads(container@, META@);
    let ghost start = slice_views(out@);
    let mut i: usize = 0;
    assert(slice_views(out@) =~= start + keyed_children(all.take(0)));
    while i < metas.len()
        invariant
            i <= metas@.len(),
            all == slice_views(metas@),
            slice_views(out@) == start + keyed_children(all.take(i as int)),
        decreases metas@.len() - i,
    {
        let ghost before = slice_views(out@);
        assert(all.take(i + 1).drop_last() =~= all.take(i as int));
        assert(all.take(i + 1).last() == metas@[i as int]@);
        if is_keyed_meta(metas[i]) {
            let c = meta_children(metas[i]);
            out.push(c);
            assert(slice_views(out@) =~= before.push(c@));
            assert(slice_views(out@) =~= start + keyed_children(all.take(i + 1)));
        }
        i = i + 1;
    }
    assert(all.take(i as int) =~= all);
}

/// Append slices.
fn push_slices<'a>(out: &mut Vec<&'a [u8]>, more: &Vec<&'a [u8]>)
    ensures
        slice_views(final(out)@) == slice_views(old(out)@) + slice_views(more@),
{
    let ghost start = slice_views(out@);
    let mut i: usize = 0;
    assert(slice_views(out@) =~= start + slice_views(more@).take(0));
    while i < more.len()
        invariant
            i <= more@.len(),
            slice_views(out@) == start + slice_views(more@).take(i as int),
        decreases more@.len() - i,
    {
        let ghost before = slice_views(out@);
        out.push(more[i]);
        assert(slice_views(out@) =~= before.push(more@[i as int]@));
        assert(slice_views(out@) =~= start + slice_views(more@).take(i + 1));
        i = i + 1;
    }
    assert(slice_views(more@).take(i as int) =~= slice_views(more@));
}

/// The payloads that may hold keyed metadata.
fn containers_of<'a>(moov: &'a [u8]) -> (r: Vec<&'a [u8]>)
    ensures
        slice_views(r@) == keyed_containers(moov@),
{
    let mut out: Vec<&'a [u8]> = Vec::new();
    out.push(moov);
    assert(slice_views(out@) =~= seq![moov@]);
    push_slices(&mut out, &child_payloads(moov, &UDTA));
    let ghost start = slice_views(out@);
    let traks = child_payloads(moov, &TRAK);
    let ghost all = payloads(moov@, TRAK@);
    let mut i: usize = 0;
    assert(slice_views(out@) =~= start + track_containers(all.take(0)));
    while i < traks.len()
        invariant
            i <= traks@.len(),
            all == slice_views(traks@),
            slice_views(out@) == start + track_containers(all.take(i as int)),
        decreases traks@.len() - i,
    {
        let ghost before = slice_views(out@);
        assert(all.take(i + 1).drop_last() =~= all.take(i as int));
        let trak = traks[i];
        assert(all.take(i + 1).last() == trak@);
        out.push(trak);
        assert(slice_views(out@) =~= before.push(trak@));
        push_slices(&mut out, &child_payloads(trak, &MDIA));
        assert(slice_views(out@) =~= start + track_containers(all.take(i + 1)));
        i = i + 1;
    }
    assert(all.take(i as int) =~= all);
    out
}

/// Every keyed-metadata `meta` in the file, as its children, in precedence
/// order: the movie-level `moov/meta`, then `moov/udta/meta` (where ffmpeg
/// writes it), then each track's `trak/meta` and `trak/mdia/meta`: the three
/// locations the QuickTime File Format allows, plus ffmpeg's. Lenient
/// throughout: a malformed box ends only its own sibling list. These are exactly
/// the boxes synthesis drops.
pub fn keyed_metas<'a>(buf: &'a [u8]) -> (r: Vec<&'a [u8]>)
    ensures
        slice_views(r@) == file_keyed_metas(buf@),
{
    let mut out: Vec<&'a [u8]> = Vec::new();
    assert(slice_views(out@) =~= Seq::empty());
    let moov = match find_payload(buf, &MOOV) {
        Some(p) => p,
        None => {
            return out;
        },
    };
    let containers = containers_of(moov);
    let ghost all = keyed_containers(moov@);
    let mut i: usize = 0;
    assert(slice_views(out@) =~= keyed_of(all.take(0)));
    while i < containers.len()
        invariant
            i <= containers@.len(),
            all == slice_views(containers@),
            slice_views(out@) == keyed_of(all.take(i as int)),
        decreases containers@.len() - i,
    {
        assert(all.take(i + 1).drop_last() =~= all.take(i as int));
        assert(all.take(i + 1).last() == containers@[i as int]@);
        push_keyed(&mut out, containers[i]);
        i = i + 1;
    }
    assert(all.take(i as int) =~= all);
    out
}

/// One QuickTime keyed-metadata item: the key its index resolved to, and its
/// `data` box payloads (`[type][locale][value]`, each at least 8 bytes) in file
/// order.
#[derive(Debug, Clone, PartialEq, Eq)]
pub struct KeyedItem<'a> {
    pub name: &'a str,
    pub datas: Vec<&'a [u8]>,
}

/// A keyed-metadata item: key and `data` payloads.
pub ghost struct ItemModel {
    pub name: Seq<char>,
    pub datas: Seq<Seq<u8>>,
}

/// What an item stands for.
pub open spec fn item_view(i: KeyedItem) -> ItemModel {
    ItemModel { name: i.name@, datas: slice_views(i.datas@) }
}

/// What items stand for.
pub open spec fn item_views(s: Seq<KeyedItem>) -> Seq<ItemModel> {
    Seq::new(s.len(), |i: int| item_view(s[i]))
}

/// The key of the `keys` entry of `size` bytes at `pos`.
pub open spec fn key_slot(p: Seq<u8>, pos: int, size: int) -> Option<Seq<char>> {
    let name = p.subrange(pos + 8, pos + size);
    if p.subrange(pos + 4, pos + 8) == MDTA@ && valid_utf8(name) {
        Some(decode_utf8(name))
    } else {
        None
    }
}

/// At most `left` entries of a `keys` table from `pos` on, up to the first that does not
/// fit.
pub open spec fn key_slots(p: Seq<u8>, pos: int, left: int) -> Seq<Option<Seq<char>>>
    decreases left,
{
    if left <= 0 || pos + 4 > p.len() || be32(p, pos) < 8 || pos + be32(p, pos) > p.len() {
        Seq::empty()
    } else {
        seq![key_slot(p, pos, be32(p, pos))] + key_slots(p, pos + be32(p, pos), left - 1)
    }
}

/// The key names of a `keys` table payload.
pub open spec fn keys_of(p: Seq<u8>) -> Seq<Option<Seq<char>>> {
    if p.len() < 8 {
        Seq::empty()
    } else {
        key_slots(p, 8, be32(p, 4))
    }
}

/// What key slots hold.
pub open spec fn slot_views(s: Seq<Option<&str>>) -> Seq<Option<Seq<char>>> {
    Seq::new(
        s.len(),
        |i: int|
            match s[i] {
                Some(t) => Some(t@),
                None => None,
            },
    )
}

/// The key names of a `keys` table payload (`[version/flags][entry_count]`, then
/// per entry `[key_size][key_namespace][key_value]`); slot `i` is index `i + 1`.
/// An entry outside the `mdta` namespace, or whose name is not UTF-8, is a `None`
/// slot, so the indexes after it stay aligned. Lenient: the table ends at
/// `entry_count` or at the first entry that does not fit, and grows only with
/// entries actually present, never allocated from the declared count.
pub fn parse_keys<'a>(payload: &'a [u8]) -> (r: Vec<Option<&'a str>>)
    ensures
        slot_views(r@) == keys_of(payload@),
{
    let ghost p = payload@;
    let n: usize = payload.len();
    let mut keys: Vec<Option<&'a str>> = Vec::new();
    assert(slot_views(keys@) =~= Seq::empty());
    let count = match read_u32_be(payload, 4) {
        Ok(c) => c,
        Err(_) => {
            return keys;
        },
    };
    let mut left: u32 = count;
    let mut pos: usize = 8;
    assert(slot_views(keys@) + key_slots(p, 8, count as int) =~= keys_of(p));
    while left > 0
        invariant
            p == payload@,
            n == p.len(),
            pos <= n,
            slot_views(keys@) + key_slots(p, pos as int, left as int) == keys_of(p),
        ensures
            slot_views(keys@) == keys_of(p),
        decreases left,
    {
        let ghost before = slot_views(keys@);
        let size: usize = match read_u32_be(payload, pos) {
            Ok(v) => v as usize,
            Err(_) => {
                assert(before + Seq::<Option<Seq<char>>>::empty() =~= before);
                break;
            },
        };
        if size < 8 || size > n - pos {
            assert(before + Seq::<Option<Seq<char>>>::empty() =~= before);
            break;
        }
        let space = slice_subrange(payload, pos + 4, pos + 8);
        let slot = if same_bytes(space, MDTA.as_slice()) {
            utf8_text(slice_subrange(payload, pos + 8, pos + size))
        } else {
            None
        };
        keys.push(slot);
        proof {
            let k = key_slot(p, pos as int, size as int);
            let rest = key_slots(p, pos + size, left - 1);
            assert(slot_views(keys@) =~= before.push(k));
            assert(before + (seq![k] + rest) =~= before.push(k) + rest);
        }
        pos = pos + size;
        left = left - 1;
        proof {
            if left == 0 {
                assert(slot_views(keys@) + Seq::<Option<Seq<char>>>::empty() =~= slot_views(keys@));
            }
        }
    }
    keys
}

/// The payloads of at least 8 bytes.
pub open spec fn whole_datas(ps: Seq<Seq<u8>>) -> Seq<Seq<u8>>
    decreases ps.len(),
{
    if ps.len() == 0 {
        Seq::empty()
    } else if ps.last().len() >= 8 {
        whole_datas(ps.drop_last()).push(ps.last())
    } else {
        whole_datas(ps.drop_last())
    }
}

/// The `data` payloads of at least 8 bytes among the children of `inner`.
pub open spec fn datas_of(inner: Seq<u8>) -> Seq<Seq<u8>> {
    whole_datas(payloads(inner, DATA@))
}

/// The `data` payloads (`[type][locale][value]`) of at least 8 bytes among the children of
/// `inner`, in file order.
pub fn read_datas<'a>(inner: &'a [u8]) -> (r: Vec<&'a [u8]>)
    ensures
        slice_views(r@) == datas_of(inner@),
        forall|i: int| 0 <= i < r@.len() ==> (#[trigger] r@[i])@.len() >= 8,
{
    let found = child_payloads(inner, &DATA);
    let ghost all = payloads(inner@, DATA@);
    let mut out: Vec<&'a [u8]> = Vec::new();
    let mut i: usize = 0;
    assert(slice_views(out@) =~= whole_datas(all.take(0)));
    while i < found.len()
        invariant
            i <= found@.len(),
            all == slice_views(found@),
            slice_views(out@) == whole_datas(all.take(i as int)),
            forall|j: int| 0 <= j < out@.len() ==> (#[trigger] out@[j])@.len() >= 8,
        decreases found@.len() - i,
    {
        let ghost before = slice_views(out@);
        assert(all.take(i + 1).drop_last() =~= all.take(i as int));
        assert(all.take(i + 1).last() == found@[i as int]@);
        if found[i].len() >= 8 {
            out.push(found[i]);
            assert(slice_views(out@) =~= before.push(found@[i as int]@));
        }
        i = i + 1;
    }
    assert(all.take(i as int) =~= all);
    out
}

/// The key that an item's box type stands for.
pub open spec fn item_key(kind: Seq<u8>, keys: Seq<Option<Seq<char>>>) -> Option<Seq<char>> {
    let index = be32(kind, 0);
    if 1 <= index <= keys.len() {
        keys[index - 1]
    } else {
        None
    }
}

/// The items among the boxes of an `ilst`.
pub open spec fn items_among(
    s: Seq<BoxModel>,
    ilst: Seq<u8>,
    keys: Seq<Option<Seq<char>>>,
) -> Seq<ItemModel>
    decreases s.len(),
{
    if s.len() == 0 {
        Seq::empty()
    } else {
        let before = items_among(s.drop_last(), ilst, keys);
        match item_key(s.last().kind, keys) {
            Some(name) => before.push(
                ItemModel { name, datas: datas_of(s.last().payload(ilst)) },
            ),
            None => before,
        }
    }
}

/// The items of one keyed `meta`, given its children.
pub open spec fn meta_items(children: Seq<u8>) -> Seq<ItemModel> {
    let keys = match first_payload(children, KEYS@) {
        Some(k) => keys_of(k),
        None => Seq::empty(),
    };
    match first_payload(children, ILST@) {
        Some(ilst) => items_among(boxes(ilst), ilst, keys),
        None => Seq::empty(),
    }
}

/// The items of keyed `meta`s.
pub open spec fn all_items(metas: Seq<Seq<u8>>) -> Seq<ItemModel>
    decreases metas.len(),
{
    if metas.len() == 0 {
        Seq::empty()
    } else {
        all_items(metas.drop_last()) + meta_items(metas.last())
    }
}

/// Append the items of one keyed `meta` (given its children): each `ilst` item's box
/// type is a big-endian 1-based index into `keys`. An item whose index is 0
/// (reserved), past the table, or names an unusable key slot is skipped.
fn push_items<'a>(out: &mut Vec<KeyedItem<'a>>, children: &'a [u8])
    ensures
        item_views(final(out)@) == item_views(old(out)@) + meta_items(children@),
{
    let ghost start = item_views(out@);
    let keys = match find_payload(children, &KEYS) {
        Some(k) => parse_keys(k),
        None => {
            let none: Vec<Option<&'a str>> = Vec::new();
            assert(slot_views(none@) =~= Seq::empty());
            none
        },
    };
    let ilst = match find_payload(children, &ILST) {
        Some(p) => p,
        None => {
            assert(start + Seq::<ItemModel>::empty() =~= start);
            return ;
        },
    };
    let list = child_boxes_lenient(ilst);
    let ghost all = boxes(ilst@);
    let ghost slots = slot_views(keys@);
    let mut i: usize = 0;
    assert(start + items_among(all.take(0), ilst@, slots) =~= start);
    while i < list.len()
        invariant
            i <= list@.len(),
            all == box_views(list@),
            all_inside(all, ilst@),
            slots == slot_views(keys@),
            item_views(out@) == start + items_among(all.take(i as int), ilst@, slots),
        decreases list@.len() - i,
    {
        let ghost before = item_views(out@);
        assert(all.take(i + 1).drop_last() =~= all.take(i as int));
        assert(all[i as int] == box_view(list@[i as int]));
        assert(all[i as int].inside(ilst@));
        let kind = list[i].kind;
        assert(kind@.len() == 4);
        if let Ok(index) = read_u32_be(kind.as_slice(), 0) {
            if index >= 1 && index as u64 <= keys.len() as u64 {
                let slot: Option<&'a str> = keys[index as usize - 1];
                assert(slots[index - 1] == match slot {
                    Some(t) => Some(t@),
                    None => None,
                });
                if let Some(name) = slot {
                    let item = KeyedItem { name, datas: read_datas(list[i].payload(ilst)) };
                    out.push(item);
                    assert(item_views(out@) =~= before.push(item_view(item)));
                }
            }
        }
        assert(item_views(out@) =~= start + items_among(all.take(i + 1), ilst@, slots));
        i = i + 1;
    }
    assert(all.take(i as int) =~= all);
}

/// Every keyed-metadata item in the file: [`keyed_metas`] order, and `ilst`
/// order within one `meta`.
pub fn keyed_items<'a>(buf: &'a [u8]) -> (r: Vec<KeyedItem<'a>>)
    ensures
        item_views(r@) == all_items(file_keyed_metas(buf@)),
{
    let metas = keyed_metas(buf);
    let ghost all = file_keyed_metas(buf@);
    let mut out: Vec<KeyedItem<'a>> = Vec::new();
    let mut i: usize = 0;
    assert(item_views(out@) =~= all_items(all.take(0)));
    while i < metas.len()
        invariant
            i <= metas@.len(),
            all == slice_views(metas@),
            item_views(out@) == all_items(all.take(i as int)),
        decreases metas@.len() - i,
    {
        assert(all.take(i + 1).drop_last() =~= all.take(i as int));
        assert(all.take(i + 1).last() == metas@[i as int]@);
        push_items(&mut out, metas[i]);
        i = i + 1;
    }
    assert(all.take(i as int) =~= all);
    out
}

/// One value out of `data` payloads: the first in the default locale (0) that `decode`
/// accepts, else the last that it accepts, else `fallback`.
pub open spec fn picked<T>(
    datas: Seq<Seq<u8>>,
    decode: spec_fn(int, Seq<u8>) -> Option<T>,
    fallback: Option<T>,
) -> Option<T>
    decreases datas.len(),
{
    if datas.len() == 0 {
        fallback
    } else {
        let d = datas[0];
        let rest = datas.drop_first();
        if d.len() < 8 {
            picked(rest, decode, fallback)
        } else {
            match decode(be32(d, 0), d.skip(8)) {
                None => picked(rest, decode, fallback),
                Some(v) => if be32(d, 4) == 0 {
                    Some(v)
                } else {
                    picked(rest, decode, Some(v))
                },
            }
        }
    }
}

/// The text value of an item. Several `data` boxes are alternative representations of one
/// datum, not multiple values.
pub open spec fn item_text(datas: Seq<Seq<u8>>) -> Option<ValueModel> {
    picked(datas, |t: int, v: Seq<u8>| keyed_value(t, v), None)
}

/// The image of an item: MIME type and bytes.
pub open spec fn item_image(datas: Seq<Seq<u8>>) -> Option<(Seq<char>, Seq<u8>)> {
    picked(
        datas,
        |t: int, v: Seq<u8>|
            match image_type(t) {
                Some(m) => Some((m, v)),
                None => None,
            },
        None,
    )
}

/// Choose one text value from a keyed item's `data` boxes. Several `data` boxes are
/// alternative representations of one datum, by locale or storage type, ordered
/// most-specific first, not multiple values. So: the first
/// default-locale (locale 0) value that can be text, else the last one,
/// the most general.
pub fn pick_text(datas: &Vec<&[u8]>) -> (r: Option<TagValue>)
    ensures
        opt_value_view(r) == item_text(slice_views(datas@)),
{
    let ghost all = slice_views(datas@);
    let ghost decode = |t: int, v: Seq<u8>| keyed_value(t, v);
    let mut fallback: Option<TagValue> = None;
    let mut i: usize = 0;
    assert(all.skip(0) =~= all);
    while i < datas.len()
        invariant
            i <= datas@.len(),
            all == slice_views(datas@),
            decode == (|t: int, v: Seq<u8>| keyed_value(t, v)),
            picked(all.skip(i as int), decode, opt_value_view(fallback)) == item_text(all),
        decreases datas@.len() - i,
    {
        let d = datas[i];
        assert(all.skip(i as int)[0] == d@);
        assert(all.skip(i as int).drop_first() =~= all.skip(i + 1));
        if let (Ok(t), Ok(locale)) = (read_u32_be(d, 0), read_u32_be(d, 4)) {
            let value = slice_subrange(d, 8, d.len());
            assert(value@ =~= d@.skip(8));
            if let Some(v) = keyed_text(t, value) {
                if locale == 0 {
                    return Some(v);
                }
                fallback = Some(v);
            }
        }
        i = i + 1;
    }
    fallback
}

/// Choose one image from a keyed item's `data` boxes, as [`pick_text`] chooses text.
pub fn pick_image<'a>(datas: &Vec<&'a [u8]>) -> (r: Option<(&'static str, &'a [u8])>)
    ensures
        match r {
            Some((m, v)) => item_image(slice_views(datas@)) == Some((m@, v@)),
            None => item_image(slice_views(datas@)) is None,
        },
{
    let ghost all = slice_views(datas@);
    let ghost decode = |t: int, v: Seq<u8>|
        match image_type(t) {
            Some(m) => Some((m, v)),
            None => None,
        };
    let mut fallback: Option<(&'static str, &'a [u8])> = None;
    let ghost mut last: Option<(Seq<char>, Seq<u8>)> = None;
    let mut i: usize = 0;
    assert(all.skip(0) =~= all);
    while i < datas.len()
        invariant
            i <= datas@.len(),
            all == slice_views(datas@),
            decode == (|t: int, v: Seq<u8>|
                match image_type(t) {
                    Some(m) => Some((m, v)),
                    None => None,
                }),
            match fallback {
                Some((m, v)) => last == Some((m@, v@)),
                None => last is None,
            },
            picked(all.skip(i as int), decode, last) == item_image(all),
        decreases datas@.len() - i,
    {
        let d = datas[i];
        assert(all.skip(i as int)[0] == d@);
        assert(all.skip(i as int).drop_first() =~= all.skip(i + 1));
        if let (Ok(t), Ok(locale)) = (read_u32_be(d, 0), read_u32_be(d, 4)) {
            let value = slice_subrange(d, 8, d.len());
            assert(value@ =~= d@.skip(8));
            if let Some(m) = image_mime(t) {
                if locale == 0 {
                    return Some((m, value));
                }
                fallback = Some((m, value));
                proof {
                    last = Some((m@, value@));
                }
            }
        }
        i = i + 1;
    }
    fallback
}

} // verus!
