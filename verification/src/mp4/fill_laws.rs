//! Where the metadata of a file lies, and how keyed metadata fills in what the iTunes list
//! leaves open.

use crate::mp4::box_laws::bodies_filtered;
use crate::mp4::box_laws::boxes_stand;
use crate::mp4::box_laws::can_be_boxed;
use crate::mp4::box_laws::first_body_is_at;
use crate::mp4::box_laws::first_is_at;
use crate::mp4::box_laws::four_big_endian;
use crate::mp4::box_laws::in_boxes;
use crate::mp4::box_laws::payloads_among;
use crate::mp4::boxes::boxes;
use crate::mp4::boxes::payloads;
use crate::mp4::boxes::BoxModel;
use crate::mp4::item_laws::box_codes;
use crate::mp4::item_laws::datas_filtered;
use crate::mp4::item_laws::is_whole;
use crate::mp4::item_laws::number_at;
use crate::mp4::item_laws::word;
use crate::mp4::keyed::all_items;
use crate::mp4::keyed::children_of_meta;
use crate::mp4::keyed::file_keyed_metas;
use crate::mp4::keyed::is_keyed;
use crate::mp4::keyed::is_keyed_meta;
use crate::mp4::keyed::item_text;
use crate::mp4::keyed::item_views;
use crate::mp4::keyed::items_among;
use crate::mp4::keyed::keyed_children;
use crate::mp4::keyed::keyed_items;
use crate::mp4::keyed::keyed_of;
use crate::mp4::keyed::keys_of;
use crate::mp4::keyed::meta_items;
use crate::mp4::keyed::track_containers;
use crate::mp4::keyed::ItemModel;
use crate::mp4::keyed::KeyedItem;
use crate::mp4::kids::first_payload_is_first_body;
use crate::mp4::kids::kids;
use crate::mp4::kids::kids_among;
use crate::mp4::kids::payloads_are_bodies;
use crate::mp4::read::filled;
use crate::mp4::read::first_plain;
use crate::mp4::read::itunes_ilst;
use crate::mp4::read::keyed_tag_key;
use crate::mp4::read::read_ilst_tags;
use crate::mp4::read::read_tags;
use crate::mp4::read::tag_views;
use crate::mp4::read::text_values;
use crate::mp4::value_laws::big_endian;
use crate::mp4::values::TagValue;
use crate::mp4::values::ValueModel;
use crate::slot_laws::code;
use crate::tagmap::mp4_keyed_to_key;
use crate::text::lower;
use crate::vorbiscomment::pair_views;
use vstd::prelude::*;
use vstd::string::*;

verus! {

pub(crate) proof fn payloads_filtered(d: Seq<u8>, kind: Seq<u8>)
    ensures
        payloads(d, kind) == payloads_among(kids(d), kind),
{
    payloads_are_bodies(d, kind);
    bodies_filtered(kids(d), kind);
}

/// The children of a `meta` box, with the four zero bytes in front of them or without.
pub open spec fn meta_payload(full: bool, list: Seq<(Seq<u8>, Seq<u8>)>) -> Seq<u8> {
    (if full {
        seq![0u8, 0u8, 0u8, 0u8]
    } else {
        Seq::empty()
    }) + in_boxes(list)
}

/// The children begin behind the four zero bytes, where there are any.
pub(crate) proof fn children_found(full: bool, list: Seq<(Seq<u8>, Seq<u8>)>)
    requires
        can_be_boxed(list),
    ensures
        children_of_meta(meta_payload(full, list)) == in_boxes(list),
{
    let p = meta_payload(full, list);
    let d = in_boxes(list);
    if full {
        assert(p.skip(4) =~= d);
        assert(p[0] == 0 && p[1] == 0 && p[2] == 0 && p[3] == 0);
    } else {
        assert(p =~= d);
        if list.len() > 0 {
            first_word(list);
        }
    }
}

proof fn first_word(list: Seq<(Seq<u8>, Seq<u8>)>)
    requires
        can_be_boxed(list),
        list.len() > 0,
    ensures
        in_boxes(list).len() >= 8,
        crate::bytes::be32(in_boxes(list), 0) >= 8,
    decreases list.len(),
{
    let front = list.drop_last();
    let d = in_boxes(list);
    if front.len() == 0 {
        let b = list.last();
        assert(list[0].0.len() == 4);
        let n = 8 + b.1.len() as int;
        four_big_endian(n);
        assert(in_boxes(front) =~= Seq::empty());
        assert(d =~= big_endian(n, 4) + b.0 + b.1);
        assert(d.subrange(0, 4) =~= big_endian(n, 4));
        number_at(d, 0, n);
    } else {
        assert(can_be_boxed(front)) by {
            assert forall|i: int| 0 <= i < front.len() implies (#[trigger] front[i]).0.len() == 4
                && 8 + front[i].1.len() <= u32::MAX by {
                assert(front[i] == list[i]);
            }
        }
        first_word(front);
        let f = in_boxes(front);
        assert(d[0] == f[0] && d[1] == f[1] && d[2] == f[2] && d[3] == f[3]);
    }
}

/// A `meta` box holds keyed metadata where the first `hdlr` among its children names the `mdta`
/// handler behind its first eight bytes, and not without one.
pub proof fn keyed_metas_are_told(
    payload: &[u8],
    full: bool,
    list: Seq<(Seq<u8>, Seq<u8>)>,
    i: int,
    r: bool,
)
    requires
        can_be_boxed(list),
        payload@ == meta_payload(full, list),
        call_ensures(is_keyed_meta, (payload,), r),
    ensures
        first_is_at(list, code("hdlr"@), i) ==> r == (list[i].1.len() >= 12 && list[i].1.subrange(
            8,
            12,
        ) == code("mdta"@)),
        (forall|j: int| 0 <= j < list.len() ==> (#[trigger] list[j]).0 != code("hdlr"@)) ==> !r,
{
    children_found(full, list);
    boxes_stand(list);
    box_codes();
    first_payload_is_first_body(in_boxes(list), code("hdlr"@));
    first_body_is_at(list, code("hdlr"@), i);
}

/// The key that the type of an item names: the number it is, counted from one.
pub open spec fn key_numbered(kind: Seq<u8>, keys: Seq<Option<Seq<char>>>) -> Option<Seq<char>> {
    if word(kind, 0) == 0 || word(kind, 0) > keys.len() {
        None
    } else {
        keys[word(kind, 0) - 1]
    }
}

/// An item as its name and its values.
pub open spec fn item_read(b: (Seq<u8>, Seq<u8>), keys: Seq<Option<Seq<char>>>) -> ItemModel {
    ItemModel {
        name: key_numbered(b.0, keys)->0,
        datas: payloads_among(kids(b.1), code("data"@)).filter(|p: Seq<u8>| is_whole(p)),
    }
}

/// The items that have a key, in order.
pub open spec fn items_read(
    list: Seq<(Seq<u8>, Seq<u8>)>,
    keys: Seq<Option<Seq<char>>>,
) -> Seq<ItemModel> {
    list.filter(|b: (Seq<u8>, Seq<u8>)| key_numbered(b.0, keys) is Some).map_values(
        |b: (Seq<u8>, Seq<u8>)| item_read(b, keys),
    )
}

proof fn items_filtered(s: Seq<BoxModel>, ilst: Seq<u8>, keys: Seq<Option<Seq<char>>>)
    ensures
        items_among(s, ilst, keys) == items_read(kids_among(s, ilst), keys),
    decreases s.len(),
{
    reveal(Seq::filter);
    let k = kids_among(s, ilst);
    if s.len() > 0 {
        items_filtered(s.drop_last(), ilst, keys);
        assert(k.drop_last() =~= kids_among(s.drop_last(), ilst));
        assert(k.last() == (s.last().kind, s.last().payload(ilst)));
        datas_filtered(s.last().payload(ilst));
        assert(items_among(s, ilst, keys) =~= items_read(k, keys));
    } else {
        assert(items_among(s, ilst, keys) =~= items_read(k, keys));
    }
}

/// The items of one keyed `meta`: those of its first `ilst` whose type is the number of a key
/// in its first table of keys.
pub proof fn items_have_their_keys(
    list: Seq<(Seq<u8>, Seq<u8>)>,
    k: int,
    l: int,
    items: Seq<(Seq<u8>, Seq<u8>)>,
)
    requires
        can_be_boxed(list),
        can_be_boxed(items),
    ensures
        first_is_at(list, code("keys"@), k) && first_is_at(list, code("ilst"@), l) && list[l].1
            == in_boxes(items) ==> meta_items(in_boxes(list)) == items_read(
            items,
            keys_of(list[k].1),
        ),
        (forall|j: int| 0 <= j < list.len() ==> (#[trigger] list[j]).0 != code("ilst"@))
            ==> meta_items(in_boxes(list)).len() == 0,
        (forall|j: int| 0 <= j < list.len() ==> (#[trigger] list[j]).0 != code("keys"@))
            ==> meta_items(in_boxes(list)).len() == 0,
{
    let d = in_boxes(list);
    boxes_stand(list);
    boxes_stand(items);
    box_codes();
    first_payload_is_first_body(d, code("keys"@));
    first_payload_is_first_body(d, code("ilst"@));
    first_body_is_at(list, code("keys"@), k);
    first_body_is_at(list, code("ilst"@), l);
    if let Some(ilst) = crate::mp4::boxes::first_payload(d, code("ilst"@)) {
        let keys = match crate::mp4::boxes::first_payload(d, code("keys"@)) {
            Some(p) => keys_of(p),
            None => Seq::empty(),
        };
        items_filtered(boxes(ilst), ilst, keys);
        reveal(kids);
        assert(kids_among(boxes(ilst), ilst) == kids(ilst));
        if keys.len() == 0 {
            let all = kids(ilst);
            assert(items_read(all, keys).len() == 0) by {
                all.lemma_all_neg_filter_empty(
                    |b: (Seq<u8>, Seq<u8>)| key_numbered(b.0, keys) is Some,
                );
            }
        }
    }
}

/// The keyed metadata of a container: the children of those of its `meta` boxes that hold it.
pub open spec fn keyed_in(container: Seq<u8>) -> Seq<Seq<u8>> {
    payloads_among(kids(container), code("meta"@)).filter(|p: Seq<u8>| is_keyed(p)).map_values(
        |p: Seq<u8>| children_of_meta(p),
    )
}

proof fn keyed_filtered(ps: Seq<Seq<u8>>)
    ensures
        keyed_children(ps) == ps.filter(|p: Seq<u8>| is_keyed(p)).map_values(
            |p: Seq<u8>| children_of_meta(p),
        ),
    decreases ps.len(),
{
    reveal(Seq::filter);
    if ps.len() > 0 {
        keyed_filtered(ps.drop_last());
    }
    assert(keyed_children(ps) =~= ps.filter(|p: Seq<u8>| is_keyed(p)).map_values(
        |p: Seq<u8>| children_of_meta(p),
    ));
}

/// The keyed metadata of containers in a row, each with that of its media where they are
/// tracks.
pub open spec fn keyed_in_each(containers: Seq<Seq<u8>>, tracks: bool) -> Seq<Seq<u8>>
    decreases containers.len(),
{
    if containers.len() == 0 {
        Seq::empty()
    } else {
        keyed_in_each(containers.drop_last(), tracks) + keyed_in(containers.last()) + if tracks {
            in_media(payloads_among(kids(containers.last()), code("mdia"@)))
        } else {
            Seq::empty()
        }
    }
}

/// The keyed metadata of media in a row.
pub open spec fn in_media(media: Seq<Seq<u8>>) -> Seq<Seq<u8>>
    decreases media.len(),
{
    if media.len() == 0 {
        Seq::empty()
    } else {
        in_media(media.drop_last()) + keyed_in(media.last())
    }
}

proof fn keyed_concat(a: Seq<Seq<u8>>, b: Seq<Seq<u8>>)
    ensures
        keyed_of(a + b) == keyed_of(a) + keyed_of(b),
    decreases b.len(),
{
    if b.len() == 0 {
        assert(a + b =~= a);
        assert(keyed_of(a) + keyed_of(b) =~= keyed_of(a));
    } else {
        assert((a + b).drop_last() =~= a + b.drop_last());
        keyed_concat(a, b.drop_last());
        assert(keyed_of(a + b) =~= keyed_of(a) + keyed_of(b));
    }
}

proof fn keyed_container(c: Seq<u8>)
    ensures
        keyed_children(payloads(c, crate::mp4::boxes::META@)) == keyed_in(c),
{
    box_codes();
    payloads_filtered(c, code("meta"@));
    keyed_filtered(payloads_among(kids(c), code("meta"@)));
}

proof fn keyed_in_media(media: Seq<Seq<u8>>)
    ensures
        keyed_of(media) == in_media(media),
        keyed_of(media) == keyed_in_each(media, false),
    decreases media.len(),
{
    if media.len() > 0 {
        keyed_in_media(media.drop_last());
        keyed_container(media.last());
        assert(keyed_in_each(media, false) =~= keyed_of(media));
    }
}

proof fn keyed_in_tracks(traks: Seq<Seq<u8>>)
    ensures
        keyed_of(track_containers(traks)) == keyed_in_each(traks, true),
    decreases traks.len(),
{
    if traks.len() > 0 {
        let front = traks.drop_last();
        let t = traks.last();
        keyed_in_tracks(front);
        box_codes();
        payloads_filtered(t, code("mdia"@));
        let media = payloads_among(kids(t), code("mdia"@));
        keyed_in_media(media);
        keyed_container(t);
        let a = track_containers(front);
        assert(a.push(t).drop_last() =~= a);
        keyed_concat(a.push(t), media);
        assert(keyed_of(a.push(t)) == keyed_of(a) + keyed_in(t));
    }
}

/// The keyed metadata of a file is that of the movie, then of its user data, then of each track
/// and its media; without a movie there is none.
pub proof fn keyed_metadata_lies_in_order(d: Seq<u8>, i: int)
    ensures
        first_is_at(kids(d), code("moov"@), i) ==> {
            let moov = kids(d)[i].1;
            file_keyed_metas(d) == keyed_in(moov) + keyed_in_each(
                payloads_among(kids(moov), code("udta"@)),
                false,
            ) + keyed_in_each(payloads_among(kids(moov), code("trak"@)), true)
        },
        (forall|j: int| 0 <= j < kids(d).len() ==> (#[trigger] kids(d)[j]).0 != code("moov"@))
            ==> file_keyed_metas(d).len() == 0,
{
    box_codes();
    first_payload_is_first_body(d, code("moov"@));
    first_body_is_at(kids(d), code("moov"@), i);
    if first_is_at(kids(d), code("moov"@), i) {
        let moov = kids(d)[i].1;
        let u = payloads_among(kids(moov), code("udta"@));
        let t = payloads_among(kids(moov), code("trak"@));
        payloads_filtered(moov, code("udta"@));
        payloads_filtered(moov, code("trak"@));
        keyed_in_media(u);
        keyed_in_tracks(t);
        keyed_container(moov);
        let one = seq![moov];
        assert(one.drop_last() =~= Seq::empty());
        assert(keyed_of(one) =~= keyed_in(moov)) by {
            assert(keyed_of(one.drop_last()) =~= Seq::empty());
        }
        keyed_concat(one, u);
        keyed_concat(one + u, track_containers(t));
    }
}

/// The items of a file are those of its keyed metadata, in order.
pub proof fn items_of_each_meta_follow(
    metas: Seq<Seq<u8>>,
    children: Seq<u8>,
    buf: &[u8],
    r: Vec<KeyedItem>,
)
    requires
        call_ensures(keyed_items, (buf,), r),
    ensures
        item_views(r@) == all_items(file_keyed_metas(buf@)),
        all_items(metas.push(children)) == all_items(metas) + meta_items(children),
        all_items(Seq::empty()).len() == 0,
{
    assert(metas.push(children).drop_last() =~= metas);
}

/// Some tag has the key, but for case.
pub open spec fn key_is_there(tags: Seq<(Seq<char>, ValueModel)>, key: Seq<char>) -> bool {
    exists|i: int| 0 <= i < tags.len() && lower((#[trigger] tags[i]).0) == lower(key)
}

/// The tags of a file are those of its iTunes list, each a text, filled in with its items one
/// by one. An item adds the value that is taken of it, if there is one, under its canonical key
/// or its own name, unless that key is there or the item is artwork.
pub proof fn items_fill_in(
    buf: &[u8],
    r: Vec<(String, TagValue)>,
    ilst: Option<&[u8]>,
    list: &[u8],
    pairs: Vec<(String, String)>,
    items: Vec<KeyedItem>,
    tags: Seq<(Seq<char>, ValueModel)>,
    before: Seq<ItemModel>,
    item: ItemModel,
    name: &str,
    key: Option<&'static str>,
)
    requires
        call_ensures(read_tags, (buf,), r),
        call_ensures(itunes_ilst, (buf,), ilst),
        call_ensures(read_ilst_tags, (list,), pairs),
        call_ensures(keyed_items, (buf,), items),
        call_ensures(mp4_keyed_to_key, (name,), key),
        name@ == item.name,
    ensures
        ilst is Some && ilst->0@ == list@ ==> tag_views(r@) == filled(
            pair_views(pairs@).map_values(
                |p: (Seq<char>, Seq<char>)| (p.0, ValueModel::Text(p.1)),
            ),
            item_views(items@),
        ),
        ilst is None ==> tag_views(r@) == filled(Seq::empty(), item_views(items@)),
        filled(tags, Seq::empty()) == tags,
        ({
            let k = match key {
                Some(c) => c@,
                None => name@,
            };
            let so_far = filled(tags, before);
            filled(tags, before.push(item)) == if lower(name@) == "com.apple.quicktime.artwork"@
                || key_is_there(so_far, k) {
                so_far
            } else {
                match item_text(item.datas) {
                    Some(v) => so_far.push((k, v)),
                    None => so_far,
                }
            }
        }),
{
    assert(before.push(item).drop_last() =~= before);
    let p = pair_views(pairs@);
    assert(text_values(p) =~= p.map_values(
        |p: (Seq<char>, Seq<char>)| (p.0, ValueModel::Text(p.1)),
    ));
    let none = Seq::<(Seq<char>, Seq<char>)>::empty();
    assert(text_values(none) =~= Seq::empty());
    reveal_strlit("com.apple.quicktime.artwork");
    let a = "com.apple.quicktime.artwork"@;
    assert(lower(a) =~= a);
    let k = match key {
        Some(c) => c@,
        None => name@,
    };
    assert(keyed_tag_key(item.name) == k);
    let so_far = filled(tags, before);
    assert(crate::mp4::read::has_tag(so_far, k) == key_is_there(so_far, k)) by {
        if crate::mp4::read::has_tag(so_far, k) {
            let i = choose|i: int|
                0 <= i < so_far.len() && crate::text::same_ignoring_case(
                    (#[trigger] so_far[i]).0,
                    k,
                );
            assert(lower(so_far[i].0) == lower(k));
        }
        if key_is_there(so_far, k) {
            let i = choose|i: int|
                0 <= i < so_far.len() && lower((#[trigger] so_far[i]).0) == lower(k);
            assert(crate::text::same_ignoring_case(so_far[i].0, k));
        }
    }
}

/// The first `meta` that is not keyed stands at `i`.
pub open spec fn first_plain_is_at(metas: Seq<Seq<u8>>, i: int) -> bool {
    &&& 0 <= i < metas.len()
    &&& !is_keyed(metas[i])
    &&& forall|j: int| 0 <= j < i ==> is_keyed(#[trigger] metas[j])
}

proof fn plain_is_at(metas: Seq<Seq<u8>>, i: int)
    ensures
        first_plain_is_at(metas, i) ==> first_plain(metas) == Some(metas[i]),
        (forall|j: int| 0 <= j < metas.len() ==> is_keyed(#[trigger] metas[j])) ==> first_plain(
            metas,
        ) is None,
    decreases metas.len(),
{
    if metas.len() > 0 {
        let rest = metas.drop_first();
        plain_is_at(rest, i - 1);
        assert forall|j: int| 0 <= j < rest.len() implies #[trigger] rest[j] == metas[j + 1] by {}
        if first_plain_is_at(metas, i) && i > 0 {
            assert(is_keyed(metas[0]));
            assert(rest[i - 1] == metas[i]);
            assert forall|j: int| 0 <= j < i - 1 implies is_keyed(#[trigger] rest[j]) by {
                assert(is_keyed(metas[j + 1]));
            }
            assert(first_plain_is_at(rest, i - 1));
        }
        if forall|j: int| 0 <= j < metas.len() ==> is_keyed(#[trigger] metas[j]) {
            assert(is_keyed(metas[0]));
            assert forall|j: int| 0 <= j < rest.len() implies is_keyed(#[trigger] rest[j]) by {
                assert(is_keyed(metas[j + 1]));
            }
        }
    }
}

/// The iTunes list is the first `ilst` of the first `meta` that is not keyed, in the first user
/// data of the movie, whatever stands beside these on the way.
pub proof fn itunes_list_is_found(
    buf: &[u8],
    m: int,
    u: int,
    p: int,
    l: int,
    r: Option<&[u8]>,
)
    requires
        call_ensures(itunes_ilst, (buf,), r),
        first_is_at(kids(buf@), code("moov"@), m),
        first_is_at(kids(kids(buf@)[m].1), code("udta"@), u),
    ensures
        ({
            let udta = kids(kids(buf@)[m].1)[u].1;
            let metas = payloads_among(kids(udta), code("meta"@));
            let list = kids(children_of_meta(metas[p]));
            &&& first_plain_is_at(metas, p) && first_is_at(list, code("ilst"@), l) ==> r is Some
                && r->0@ == list[l].1
            &&& (forall|j: int| 0 <= j < metas.len() ==> is_keyed(#[trigger] metas[j])) ==> r
                is None
        }),
{
    box_codes();
    let d = buf@;
    let moov = kids(d)[m].1;
    let udta = kids(moov)[u].1;
    let metas = payloads_among(kids(udta), code("meta"@));
    first_payload_is_first_body(d, code("moov"@));
    first_body_is_at(kids(d), code("moov"@), m);
    first_payload_is_first_body(moov, code("udta"@));
    first_body_is_at(kids(moov), code("udta"@), u);
    payloads_filtered(udta, code("meta"@));
    plain_is_at(metas, p);
    let c = children_of_meta(metas[p]);
    first_payload_is_first_body(c, code("ilst"@));
    first_body_is_at(kids(c), code("ilst"@), l);
}

} // verus!
