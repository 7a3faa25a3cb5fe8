//! Keyed metadata as written by anyone: its table of keys, its items, and the one value that
//! is taken of each.

use crate::bytes::be32;
use crate::bytes::be32_bytes;
use crate::bytes::be32_round_trip;
use crate::mp4::box_laws::can_be_boxed;
use crate::mp4::box_laws::bodies_filtered;
use crate::mp4::box_laws::boxes_stand;
use crate::mp4::box_laws::four_big_endian;
use crate::mp4::box_laws::in_boxes;
use crate::mp4::box_laws::payloads_among;
use crate::mp4::boxes::boxes;
use crate::mp4::boxes::slice_views;
use crate::mp4::keyed::datas_of;
use crate::mp4::keyed::key_slots;
use crate::mp4::keyed::parse_keys;
use crate::mp4::keyed::pick_image;
use crate::mp4::keyed::pick_text;
use crate::mp4::keyed::picked;
use crate::mp4::keyed::read_datas;
use crate::mp4::keyed::slot_views;
use crate::mp4::keyed::whole_datas;
use crate::mp4::kids::kids;
use crate::mp4::kids::payloads_are_bodies;
use crate::mp4::value_laws::big_endian;
use crate::mp4::values::image_type;
use crate::mp4::values::keyed_text;
use crate::mp4::values::keyed_value;
use crate::mp4::values::opt_value_view;
use crate::mp4::values::TagValue;
use crate::mp4::values::ValueModel;
use crate::slot_laws::code;
use vstd::prelude::*;
use vstd::string::*;
use vstd::utf8::decode_utf8;
use vstd::utf8::valid_utf8;

verus! {

/// The types of boxes that are looked for, as bytes.
pub(crate) proof fn box_codes()
    ensures
        code("mdta"@) == crate::mp4::boxes::MDTA@,
        code("hdlr"@) == crate::mp4::boxes::HDLR@,
        code("keys"@) == crate::mp4::boxes::KEYS@,
        code("ilst"@) == crate::mp4::boxes::ILST@,
        code("data"@) == crate::mp4::boxes::DATA@,
        code("meta"@) == crate::mp4::boxes::META@,
        code("udta"@) == crate::mp4::boxes::UDTA@,
        code("moov"@) == crate::mp4::boxes::MOOV@,
        code("trak"@) == crate::mp4::boxes::TRAK@,
        code("mdia"@) == crate::mp4::boxes::MDIA@,
{
    reveal_strlit("mdta");
    reveal_strlit("hdlr");
    reveal_strlit("keys");
    reveal_strlit("ilst");
    reveal_strlit("data");
    reveal_strlit("meta");
    reveal_strlit("udta");
    reveal_strlit("moov");
    reveal_strlit("trak");
    reveal_strlit("mdia");
    assert(code("mdta"@) =~= crate::mp4::boxes::MDTA@);
    assert(code("hdlr"@) =~= crate::mp4::boxes::HDLR@);
    assert(code("keys"@) =~= crate::mp4::boxes::KEYS@);
    assert(code("ilst"@) =~= crate::mp4::boxes::ILST@);
    assert(code("data"@) =~= crate::mp4::boxes::DATA@);
    assert(code("meta"@) =~= crate::mp4::boxes::META@);
    assert(code("udta"@) =~= crate::mp4::boxes::UDTA@);
    assert(code("moov"@) =~= crate::mp4::boxes::MOOV@);
    assert(code("trak"@) =~= crate::mp4::boxes::TRAK@);
    assert(code("mdia"@) =~= crate::mp4::boxes::MDIA@);
}

/// A 32-bit number where its bytes stand.
pub(crate) proof fn number_at(d: Seq<u8>, p: int, v: int)
    requires
        0 <= v <= u32::MAX,
        0 <= p,
        p + 4 <= d.len(),
        d.subrange(p, p + 4) == big_endian(v, 4),
    ensures
        be32(d, p) == v,
{
    four_big_endian(v);
    be32_round_trip(v);
    let s = d.subrange(p, p + 4);
    assert(s[0] == d[p] && s[1] == d[p + 1] && s[2] == d[p + 2] && s[3] == d[p + 3]);
    assert(s == be32_bytes(v));
}

/// Entries of a table of keys, each a size, a namespace and a name.
pub open spec fn key_entries(entries: Seq<(Seq<u8>, Seq<u8>)>) -> Seq<u8>
    decreases entries.len(),
{
    if entries.len() == 0 {
        Seq::empty()
    } else {
        big_endian(8 + entries[0].1.len() as int, 4) + entries[0].0 + entries[0].1 + key_entries(
            entries.drop_first(),
        )
    }
}

/// The key of an entry: its name, if it is text in the `mdta` namespace.
pub open spec fn key_named(e: (Seq<u8>, Seq<u8>)) -> Option<Seq<char>> {
    if e.0 == code("mdta"@) && valid_utf8(e.1) {
        Some(decode_utf8(e.1))
    } else {
        None
    }
}

proof fn entries_stand(p: Seq<u8>, pos: int, entries: Seq<(Seq<u8>, Seq<u8>)>, left: int)
    requires
        can_be_boxed(entries),
        0 <= pos,
        pos + key_entries(entries).len() <= p.len(),
        p.subrange(pos, pos + key_entries(entries).len()) == key_entries(entries),
        left == entries.len() || (left > entries.len() && p.len() < pos + key_entries(entries).len()
            + 4),
    ensures
        key_slots(p, pos, left) == entries.map_values(|e: (Seq<u8>, Seq<u8>)| key_named(e)),
    decreases entries.len(),
{
    let all = key_entries(entries);
    let name = |e: (Seq<u8>, Seq<u8>)| key_named(e);
    if entries.len() == 0 {
        assert(key_slots(p, pos, left) =~= entries.map_values(name));
    } else {
        let e = entries[0];
        let rest = entries.drop_first();
        let size = 8 + e.1.len() as int;
        let tail = key_entries(rest);
        assert(e.0.len() == 4 && size <= u32::MAX);
        four_big_endian(size);
        let head = big_endian(size, 4);
        assert(all == head + e.0 + e.1 + tail);
        assert forall|k: int| 0 <= k < all.len() implies p[pos + k] == #[trigger] all[k] by {
            assert(p.subrange(pos, pos + all.len())[k] == p[pos + k]);
        }
        assert(p.subrange(pos, pos + 4) =~= head) by {
            assert forall|k: int| 0 <= k < 4 implies p[pos + k] == head[k] by {
                assert(all[k] == head[k]);
            }
        }
        number_at(p, pos, size);
        assert(p.subrange(pos + 4, pos + 8) =~= e.0) by {
            assert forall|k: int| 0 <= k < 4 implies p[pos + 4 + k] == e.0[k] by {
                assert(all[4 + k] == e.0[k]);
            }
        }
        assert(p.subrange(pos + 8, pos + size) =~= e.1) by {
            assert forall|k: int| 0 <= k < e.1.len() implies p[pos + 8 + k] == e.1[k] by {
                assert(all[8 + k] == e.1[k]);
            }
        }
        let q = pos + size;
        assert(p.subrange(q, q + tail.len()) =~= tail) by {
            assert forall|k: int| 0 <= k < tail.len() implies p[q + k] == tail[k] by {
                assert(all[size + k] == tail[k]);
            }
        }
        assert(can_be_boxed(rest)) by {
            assert forall|i: int| 0 <= i < rest.len() implies (#[trigger] rest[i]).0.len() == 4 && 8
                + rest[i].1.len() <= u32::MAX by {
                assert(rest[i] == entries[i + 1]);
            }
        }
        entries_stand(p, q, rest, left - 1);
        box_codes();
        assert(key_slots(p, pos, left) =~= entries.map_values(name));
    }
}

/// A table of keys gives a slot for each of its entries, in order, however many it declares
/// beyond those that are there: the name, or nothing where the namespace is another or the
/// name is no text.
pub proof fn keys_are_parsed(
    payload: &[u8],
    head: Seq<u8>,
    count: int,
    entries: Seq<(Seq<u8>, Seq<u8>)>,
    after: Seq<u8>,
    r: Vec<Option<&str>>,
)
    requires
        head.len() == 4,
        entries.len() <= count <= u32::MAX,
        can_be_boxed(entries),
        payload@ == head + big_endian(count, 4) + key_entries(entries) + after,
        count == entries.len() || after.len() < 4,
        call_ensures(parse_keys, (payload,), r),
    ensures
        slot_views(r@) == entries.map_values(|e: (Seq<u8>, Seq<u8>)| key_named(e)),
{
    let p = payload@;
    four_big_endian(count);
    assert(p.subrange(4, 8) =~= big_endian(count, 4));
    number_at(p, 4, count);
    let all = key_entries(entries);
    assert(p.subrange(8, 8 + all.len() as int) =~= all);
    entries_stand(p, 8, entries, count);
}

/// A value has its type and its locale in front of it.
pub open spec fn is_whole(p: Seq<u8>) -> bool {
    p.len() >= 8
}

pub(crate) proof fn datas_filtered(inner: Seq<u8>)
    ensures
        datas_of(inner) == payloads_among(kids(inner), code("data"@)).filter(
            |p: Seq<u8>| is_whole(p),
        ),
{
    box_codes();
    payloads_are_bodies(inner, code("data"@));
    bodies_filtered(kids(inner), code("data"@));
    whole_filtered(payloads_among(kids(inner), code("data"@)));
}

proof fn whole_filtered(ps: Seq<Seq<u8>>)
    ensures
        whole_datas(ps) == ps.filter(|p: Seq<u8>| is_whole(p)),
    decreases ps.len(),
{
    reveal(Seq::filter);
    if ps.len() > 0 {
        whole_filtered(ps.drop_last());
    }
    assert(whole_datas(ps) =~= ps.filter(|p: Seq<u8>| is_whole(p)));
}

/// The values of an item or atom are its `data` boxes, in order, but for those that are too
/// short.
pub proof fn values_are_listed(inner: &[u8], list: Seq<(Seq<u8>, Seq<u8>)>, r: Vec<&[u8]>)
    requires
        can_be_boxed(list),
        inner@ == in_boxes(list),
        call_ensures(read_datas, (inner,), r),
    ensures
        slice_views(r@) == payloads_among(list, code("data"@)).filter(|p: Seq<u8>| is_whole(p)),
{
    boxes_stand(list);
    datas_filtered(inner@);
}

/// The number that four bytes hold.
pub open spec fn word(d: Seq<u8>, p: int) -> int {
    d[p] * 16777216 + d[p + 1] * 65536 + d[p + 2] * 256 + d[p + 3]
}

/// What is accepted of a value.
pub open spec fn accepted<T>(d: Seq<u8>, decode: spec_fn(int, Seq<u8>) -> Option<T>) -> Option<T> {
    if is_whole(d) {
        decode(word(d, 0), d.skip(8))
    } else {
        None
    }
}

/// The one that is taken: the first in the default locale, else the last.
pub open spec fn is_taken<T>(
    datas: Seq<Seq<u8>>,
    decode: spec_fn(int, Seq<u8>) -> Option<T>,
    i: int,
) -> bool {
    &&& 0 <= i < datas.len()
    &&& accepted(datas[i], decode) is Some
    &&& {
        ||| word(datas[i], 4) == 0 && forall|j: int|
            0 <= j < i && accepted(#[trigger] datas[j], decode) is Some ==> word(datas[j], 4) != 0
        ||| (forall|j: int|
            0 <= j < datas.len() && accepted(#[trigger] datas[j], decode) is Some ==> word(
                datas[j],
                4,
            ) != 0) && (forall|j: int|
            i < j < datas.len() ==> accepted(#[trigger] datas[j], decode) is None)
    }
}

proof fn one_is_picked<T>(
    datas: Seq<Seq<u8>>,
    decode: spec_fn(int, Seq<u8>) -> Option<T>,
    fallback: Option<T>,
    i: int,
)
    ensures
        is_taken(datas, decode, i) ==> picked(datas, decode, fallback) == accepted(
            datas[i],
            decode,
        ),
        (forall|j: int| 0 <= j < datas.len() ==> accepted(#[trigger] datas[j], decode) is None)
            ==> picked(datas, decode, fallback) == fallback,
    decreases datas.len(),
{
    if datas.len() > 0 {
        let d = datas[0];
        let rest = datas.drop_first();
        assert forall|j: int| 0 <= j < rest.len() implies #[trigger] rest[j] == datas[j + 1] by {}
        let v = accepted(d, decode);
        one_is_picked(rest, decode, fallback, i - 1);
        one_is_picked(rest, decode, v, i - 1);
        if is_taken(datas, decode, i) {
            if i > 0 {
                assert(is_taken(rest, decode, i - 1)) by {
                    assert(rest[i - 1] == datas[i]);
                    if word(datas[i], 4) == 0 && (forall|j: int|
                        0 <= j < i && accepted(#[trigger] datas[j], decode) is Some ==> word(
                            datas[j],
                            4,
                        ) != 0) {
                        assert forall|j: int|
                            0 <= j < i - 1 && accepted(
                                #[trigger] rest[j],
                                decode,
                            ) is Some implies word(rest[j], 4) != 0 by {
                            assert(accepted(datas[j + 1], decode) is Some);
                        }
                    } else {
                        assert forall|j: int|
                            0 <= j < rest.len() && accepted(
                                #[trigger] rest[j],
                                decode,
                            ) is Some implies word(rest[j], 4) != 0 by {
                            assert(accepted(datas[j + 1], decode) is Some);
                        }
                        assert forall|j: int| i - 1 < j < rest.len() implies accepted(
                            #[trigger] rest[j],
                            decode,
                        ) is None by {
                            assert(accepted(datas[j + 1], decode) is None);
                        }
                    }
                }
                if v is Some {
                    assert(accepted(datas[0], decode) is Some);
                    assert(word(d, 4) != 0);
                }
            } else {
                if word(d, 4) != 0 {
                    assert forall|j: int| 0 <= j < rest.len() implies accepted(
                        #[trigger] rest[j],
                        decode,
                    ) is None by {
                        assert(accepted(datas[j + 1], decode) is None);
                    }
                }
            }
        }
        if forall|j: int| 0 <= j < datas.len() ==> accepted(#[trigger] datas[j], decode) is None {
            assert(accepted(datas[0], decode) is None);
            assert forall|j: int| 0 <= j < rest.len() implies accepted(
                #[trigger] rest[j],
                decode,
            ) is None by {
                assert(accepted(datas[j + 1], decode) is None);
            }
        }
    }
}

/// The text that a typed value stands for.
pub open spec fn as_text() -> spec_fn(int, Seq<u8>) -> Option<ValueModel> {
    |t: int, v: Seq<u8>| keyed_value(t, v)
}

/// The image that a typed value is: its MIME type by its type, its bytes.
pub open spec fn as_image() -> spec_fn(int, Seq<u8>) -> Option<(Seq<char>, Seq<u8>)> {
    |t: int, v: Seq<u8>|
        if t == 13 {
            Some(("image/jpeg"@, v))
        } else if t == 14 {
            Some(("image/png"@, v))
        } else {
            None
        }
}

/// Of several values of one item that are text, the first in the default locale is taken, or
/// else the last of all; none where none is text.
pub proof fn one_text_is_taken(datas: &Vec<&[u8]>, i: int, r: Option<TagValue>)
    requires
        call_ensures(pick_text, (datas,), r),
    ensures
        is_taken(slice_views(datas@), as_text(), i) ==> opt_value_view(r) == accepted(
            slice_views(datas@)[i],
            as_text(),
        ),
        (forall|j: int|
            0 <= j < datas@.len() ==> accepted(#[trigger] slice_views(datas@)[j], as_text())
                is None) ==> r is None,
{
    one_is_picked(slice_views(datas@), as_text(), None, i);
}

/// What a typed value stands for is what the decoder makes of it.
pub proof fn text_is_what_is_decoded(value: &[u8], t: u32, r: Option<TagValue>)
    requires
        call_ensures(keyed_text, (t, value), r),
    ensures
        as_text()(t as int, value@) == opt_value_view(r),
{
}

/// Of several values of one item that are images, the first in the default locale is taken, or
/// else the last of all; none where none is an image.
pub proof fn one_image_is_taken(
    datas: &Vec<&[u8]>,
    i: int,
    r: Option<(&'static str, &[u8])>,
)
    requires
        call_ensures(pick_image, (datas,), r),
    ensures
        is_taken(slice_views(datas@), as_image(), i) ==> match r {
            Some((mime, image)) => accepted(slice_views(datas@)[i], as_image()) == Some(
                (mime@, image@),
            ),
            None => false,
        },
        (forall|j: int|
            0 <= j < datas@.len() ==> accepted(#[trigger] slice_views(datas@)[j], as_image())
                is None) ==> r is None,
{
    let decode = |t: int, v: Seq<u8>|
        match image_type(t) {
            Some(m) => Some((m, v)),
            None => None,
        };
    assert(as_image() =~= decode);
    one_is_picked(slice_views(datas@), as_image(), None, i);
}

} // verus!
