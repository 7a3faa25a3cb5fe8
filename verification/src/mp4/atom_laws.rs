//! Atoms of an iTunes list one by one: the tags, the pictures and the binary values that each
//! adds.

use crate::bytes::be_value;
use crate::bytes::front_eight;
use crate::flac::binary_views;
use crate::flac::picture_views;
use crate::flac::PictureModel;
use crate::input::EmbeddedBinaryTag;
use crate::input::EmbeddedPicture;
use crate::mp4::box_laws::boxes_stand;
use crate::mp4::box_laws::can_be_boxed;
use crate::mp4::box_laws::first_body_is_at;
use crate::mp4::box_laws::first_is_at;
use crate::mp4::box_laws::in_boxes;
use crate::mp4::box_laws::payloads_among;
use crate::mp4::boxes::boxes;
use crate::mp4::boxes::BoxModel;
use crate::mp4::fill_laws::payloads_filtered;
use crate::mp4::item_laws::datas_filtered;
use crate::mp4::item_laws::is_whole;
use crate::mp4::item_laws::word;
use crate::mp4::keyed::item_image;
use crate::mp4::keyed::item_views;
use crate::mp4::keyed::keyed_items;
use crate::mp4::keyed::ItemModel;
use crate::mp4::keyed::KeyedItem;
use crate::mp4::kids::first_payload_is_first_body;
use crate::mp4::kids::kids;
use crate::mp4::kids::kids_among;
use crate::mp4::read::atom_binaries;
use crate::mp4::read::atom_pairs;
use crate::mp4::read::atoms_binaries;
use crate::mp4::read::atoms_pairs;
use crate::mp4::read::binary_datas;
use crate::mp4::read::covers;
use crate::mp4::read::covr_images;
use crate::mp4::read::data_pair;
use crate::mp4::read::data_pairs;
use crate::mp4::read::drop_views;
use crate::mp4::read::file_binaries;
use crate::mp4::read::file_images;
use crate::mp4::read::freeform_mean;
use crate::mp4::read::images_of;
use crate::mp4::read::itunes_ilst;
use crate::mp4::read::keyed_artwork;
use crate::mp4::read::oversize;
use crate::mp4::read::read_binary_tags;
use crate::mp4::read::read_binary_tags_reporting;
use crate::mp4::read::read_freeform;
use crate::mp4::read::read_ilst_tags;
use crate::mp4::read::read_pictures;
use crate::mp4::read::read_pictures_reporting;
use crate::mp4::read::text_pairs;
use crate::mp4::read::within_cap;
use crate::mp4::read::OversizeDrop;
use crate::mp4::value_laws::big_endian;
use crate::mp4::value_laws::fits_unsigned;
use crate::mp4::value_laws::unsigned_bytes_decode;
use crate::mp4::values::number_text;
use crate::mp4::values::number_total;
use crate::number_laws::decimal_is_text;
use crate::number_laws::is_decimal_of;
use crate::slot_laws::code;
use crate::tagmap::integer_atom_key;
use crate::tagmap::mp4_atom_to_key;
use crate::tagmap::mp4_freeform_to_key;
use crate::tagmap::mp4_integer_atom_to_key;
use crate::text::lower;
use crate::vorbiscomment::pair_views;
use vstd::prelude::*;
use vstd::string::*;
use vstd::utf8::decode_utf8;
use vstd::utf8::valid_utf8;

verus! {

proof fn atom_codes()
    ensures
        code("trkn"@) == crate::mp4::boxes::TRKN@,
        code("disk"@) == crate::mp4::boxes::DISK@,
        code("----"@) == crate::mp4::boxes::FREEFORM@,
        code("name"@) == crate::mp4::boxes::NAME@,
        code("mean"@) == crate::mp4::boxes::MEAN@,
        code("covr"@) == crate::mp4::boxes::COVR@,
        code("trkn"@)[0] == 0x74 && code("trkn"@)[1] == 0x72,
        code("disk"@)[0] == 0x64,
        code("----"@)[0] == 0x2d,
{
    reveal_strlit("trkn");
    reveal_strlit("disk");
    reveal_strlit("----");
    reveal_strlit("name");
    reveal_strlit("mean");
    reveal_strlit("covr");
    assert(code("trkn"@) =~= crate::mp4::boxes::TRKN@);
    assert(code("disk"@) =~= crate::mp4::boxes::DISK@);
    assert(code("----"@) =~= crate::mp4::boxes::FREEFORM@);
    assert(code("name"@) =~= crate::mp4::boxes::NAME@);
    assert(code("mean"@) =~= crate::mp4::boxes::MEAN@);
    assert(code("covr"@) =~= crate::mp4::boxes::COVR@);
}

/// The values of an atom, in order: its `data` boxes that are long enough.
pub open spec fn values_in(inner: Seq<u8>) -> Seq<Seq<u8>> {
    payloads_among(kids(inner), code("data"@)).filter(|p: Seq<u8>| is_whole(p))
}

/// The pairs of atoms, over children.
spec fn pairs_of_kids(s: Seq<(Seq<u8>, Seq<u8>)>) -> Seq<(Seq<char>, Seq<char>)>
    decreases s.len(),
{
    if s.len() == 0 {
        Seq::empty()
    } else {
        pairs_of_kids(s.drop_last()) + atom_pairs(s.last().0, s.last().1)
    }
}

/// The binary values of atoms, over children.
spec fn binaries_of_kids(s: Seq<(Seq<u8>, Seq<u8>)>) -> Seq<(Seq<char>, Seq<u8>)>
    decreases s.len(),
{
    if s.len() == 0 {
        Seq::empty()
    } else {
        binaries_of_kids(s.drop_last()) + atom_binaries(s.last().0, s.last().1)
    }
}

proof fn atoms_over_kids(s: Seq<BoxModel>, ilst: Seq<u8>)
    ensures
        atoms_pairs(s, ilst) == pairs_of_kids(kids_among(s, ilst)),
        atoms_binaries(s, ilst) == binaries_of_kids(kids_among(s, ilst)),
    decreases s.len(),
{
    let k = kids_among(s, ilst);
    if s.len() > 0 {
        atoms_over_kids(s.drop_last(), ilst);
        assert(k.drop_last() =~= kids_among(s.drop_last(), ilst));
        assert(k.last() == (s.last().kind, s.last().payload(ilst)));
    }
}

/// The list with one more atom behind it.
pub open spec fn one_more_atom(
    before: Seq<u8>,
    after: Seq<u8>,
    list: Seq<(Seq<u8>, Seq<u8>)>,
    kind: Seq<u8>,
    inner: Seq<u8>,
) -> bool {
    &&& can_be_boxed(list.push((kind, inner)))
    &&& before == in_boxes(list)
    &&& after == in_boxes(list.push((kind, inner)))
}

proof fn one_more(
    before: Seq<u8>,
    after: Seq<u8>,
    list: Seq<(Seq<u8>, Seq<u8>)>,
    kind: Seq<u8>,
    inner: Seq<u8>,
)
    requires
        one_more_atom(before, after, list, kind, inner),
    ensures
        atoms_pairs(boxes(after), after) == atoms_pairs(boxes(before), before) + atom_pairs(
            kind,
            inner,
        ),
        atoms_binaries(boxes(after), after) == atoms_binaries(boxes(before), before)
            + atom_binaries(kind, inner),
{
    let more = list.push((kind, inner));
    assert(can_be_boxed(list)) by {
        assert forall|i: int| 0 <= i < list.len() implies (#[trigger] list[i]).0.len() == 4 && 8
            + list[i].1.len() <= u32::MAX by {
            assert(list[i] == more[i]);
        }
    }
    boxes_stand(list);
    boxes_stand(more);
    reveal(kids);
    atoms_over_kids(boxes(before), before);
    atoms_over_kids(boxes(after), after);
    assert(more.drop_last() =~= list);
}

/// The values that are text, each under the key.
pub open spec fn texts_under(key: Seq<char>, datas: Seq<Seq<u8>>) -> Seq<(Seq<char>, Seq<char>)> {
    datas.filter(|d: Seq<u8>| valid_utf8(d.skip(8))).map_values(
        |d: Seq<u8>| (key, decode_utf8(d.skip(8))),
    )
}

proof fn texts_filtered(kind: Seq<u8>, key: Seq<char>, datas: Seq<Seq<u8>>)
    requires
        crate::tagmap::key_at(crate::tagmap::first(crate::tagmap::mp4_text_is(kind))) == Some(key),
    ensures
        data_pairs(kind, datas) == texts_under(key, datas),
    decreases datas.len(),
{
    reveal(Seq::filter);
    if datas.len() > 0 {
        texts_filtered(kind, key, datas.drop_last());
    }
    assert(data_pairs(kind, datas) =~= texts_under(key, datas));
}

/// A text atom adds each of its values that is text, under its canonical key.
pub proof fn text_atoms_are_read(
    before: &[u8],
    after: &[u8],
    list: Seq<(Seq<u8>, Seq<u8>)>,
    kind: &[u8; 4],
    inner: Seq<u8>,
    key: Option<&'static str>,
    b: Vec<(String, String)>,
    a: Vec<(String, String)>,
)
    requires
        one_more_atom(before@, after@, list, kind@, inner),
        kind@ != code("----"@),
        call_ensures(mp4_atom_to_key, (kind,), key),
        call_ensures(read_ilst_tags, (before,), b),
        call_ensures(read_ilst_tags, (after,), a),
    ensures
        key is Some ==> pair_views(a@) == pair_views(b@) + texts_under(key->0@, values_in(inner)),
{
    one_more(before@, after@, list, kind@, inner);
    atom_codes();
    datas_filtered(inner);
    if key is Some {
        texts_filtered(kind@, key->0@, values_in(inner));
    }
}

/// The number atoms' values that are long enough.
pub open spec fn holds_number(d: Seq<u8>) -> bool {
    d.len() >= 12
}

/// The number of a value, and its total where there is one.
pub open spec fn number_under(key: Seq<char>, datas: Seq<Seq<u8>>) -> Seq<(Seq<char>, Seq<char>)> {
    datas.filter(|d: Seq<u8>| holds_number(d)).map_values(
        |d: Seq<u8>| (key, number_text(d.skip(8))),
    )
}

proof fn numbers_filtered(kind: Seq<u8>, key: Seq<char>, datas: Seq<Seq<u8>>)
    requires
        crate::tagmap::key_at(crate::tagmap::first(crate::tagmap::mp4_text_is(kind))) is None,
        kind == code("trkn"@) && key == "tracknumber"@ || kind == code("disk"@) && key
            == "discnumber"@,
        forall|i: int| 0 <= i < datas.len() ==> is_whole(#[trigger] datas[i]),
    ensures
        data_pairs(kind, datas) == number_under(key, datas),
    decreases datas.len(),
{
    reveal(Seq::filter);
    atom_codes();
    if datas.len() > 0 {
        let front = datas.drop_last();
        assert forall|i: int| 0 <= i < front.len() implies is_whole(#[trigger] front[i]) by {
            assert(front[i] == datas[i]);
        }
        numbers_filtered(kind, key, front);
        let d = datas.last();
        assert(is_whole(datas[datas.len() - 1]));
        assert(d.skip(8).len() == d.len() - 8);
        assert(integer_atom_key(kind) is None);
        assert(data_pair(kind, d) == if holds_number(d) {
            Some((key, number_text(d.skip(8))))
        } else {
            None
        });
    }
    assert(data_pairs(kind, datas) =~= number_under(key, datas));
}

/// What is made of a value that holds a number is what is formatted of it.
pub proof fn number_is_what_is_formatted(value: &[u8], r: String)
    requires
        value@.len() >= 4,
        call_ensures(number_total, (value,), r),
    ensures
        number_text(value@) == r@,
{
}

proof fn values_are_whole(inner: Seq<u8>)
    ensures
        forall|i: int| 0 <= i < values_in(inner).len() ==> is_whole(#[trigger] values_in(inner)[i]),
{
    let all = payloads_among(kids(inner), code("data"@));
    assert forall|i: int| 0 <= i < values_in(inner).len() implies is_whole(
        #[trigger] values_in(inner)[i],
    ) by {
        all.lemma_filter_pred(|p: Seq<u8>| is_whole(p), i);
    }
}

/// `trkn` adds track numbers and `disk` disc numbers, one for each value that holds one.
pub proof fn number_atoms_are_read(
    before: &[u8],
    after: &[u8],
    list: Seq<(Seq<u8>, Seq<u8>)>,
    kind: &[u8; 4],
    inner: Seq<u8>,
    key: Option<&'static str>,
    b: Vec<(String, String)>,
    a: Vec<(String, String)>,
)
    requires
        one_more_atom(before@, after@, list, kind@, inner),
        call_ensures(mp4_atom_to_key, (kind,), key),
        key is None,
        call_ensures(read_ilst_tags, (before,), b),
        call_ensures(read_ilst_tags, (after,), a),
    ensures
        kind@ == code("trkn"@) ==> pair_views(a@) == pair_views(b@) + number_under(
            "tracknumber"@,
            values_in(inner),
        ),
        kind@ == code("disk"@) ==> pair_views(a@) == pair_views(b@) + number_under(
            "discnumber"@,
            values_in(inner),
        ),
{
    one_more(before@, after@, list, kind@, inner);
    atom_codes();
    datas_filtered(inner);
    values_are_whole(inner);
    if kind@ == code("trkn"@) {
        numbers_filtered(kind@, "tracknumber"@, values_in(inner));
    }
    if kind@ == code("disk"@) {
        numbers_filtered(kind@, "discnumber"@, values_in(inner));
    }
}

proof fn integers_read(kind: Seq<u8>, datas: Seq<Seq<u8>>)
    requires
        crate::tagmap::key_at(crate::tagmap::first(crate::tagmap::mp4_text_is(kind))) is None,
        kind != code("trkn"@),
        kind != code("disk"@),
    ensures
        match integer_atom_key(kind) {
            Some(key) => data_pairs(kind, datas) == datas.map_values(
                |d: Seq<u8>|
                    (key, crate::text::decimal(be_value(front_eight(d.skip(8))))),
            ),
            None => data_pairs(kind, datas).len() == 0,
        },
    decreases datas.len(),
{
    atom_codes();
    if datas.len() > 0 {
        integers_read(kind, datas.drop_last());
    }
    if let Some(key) = integer_atom_key(kind) {
        assert(data_pairs(kind, datas) =~= datas.map_values(
            |d: Seq<u8>| (key, crate::text::decimal(be_value(front_eight(d.skip(8))))),
        ));
    }
}

/// An integer atom adds each of its values as decimal text, whatever its width up to eight
/// bytes, under its canonical key. An atom of another type, with no key at all, adds nothing.
pub proof fn integer_atoms_are_read(
    before: &[u8],
    after: &[u8],
    list: Seq<(Seq<u8>, Seq<u8>)>,
    kind: &[u8; 4],
    inner: Seq<u8>,
    key: Option<&'static str>,
    integer: Option<&'static str>,
    b: Vec<(String, String)>,
    a: Vec<(String, String)>,
    i: int,
    v: int,
    n: nat,
)
    requires
        one_more_atom(before@, after@, list, kind@, inner),
        call_ensures(mp4_atom_to_key, (kind,), key),
        key is None,
        call_ensures(mp4_integer_atom_to_key, (kind,), integer),
        kind@ != code("trkn"@) && kind@ != code("disk"@) && kind@ != code("----"@),
        call_ensures(read_ilst_tags, (before,), b),
        call_ensures(read_ilst_tags, (after,), a),
    ensures
        integer is None ==> pair_views(a@) == pair_views(b@),
        integer is Some ==> a@.len() == b@.len() + values_in(inner).len(),
        integer is Some ==> pair_views(a@).take(b@.len() as int) == pair_views(b@),
        integer is Some && 0 <= i < values_in(inner).len() && n <= 8 && fits_unsigned(v, n)
            && values_in(inner)[i].skip(8) == big_endian(v, n) ==> {
            let p = pair_views(a@)[b@.len() + i];
            p.0 == integer->0@ && is_decimal_of(p.1, v)
        },
{
    one_more(before@, after@, list, kind@, inner);
    atom_codes();
    datas_filtered(inner);
    integers_read(kind@, values_in(inner));
    assert(pair_views(a@).len() == a@.len());
    assert(pair_views(b@).len() == b@.len());
    if integer is None {
        assert(pair_views(b@) + data_pairs(kind@, values_in(inner)) =~= pair_views(b@));
    } else {
        assert(pair_views(a@).take(b@.len() as int) =~= pair_views(b@));
        if 0 <= i < values_in(inner).len() && n <= 8 && fits_unsigned(v, n) && values_in(
            inner,
        )[i].skip(8) == big_endian(v, n) {
            crate::mp4::value_laws::big_endian_len(v, n);
            assert(front_eight(big_endian(v, n)) =~= big_endian(v, n));
            unsigned_bytes_decode(v, n);
            decimal_is_text(v);
        }
    }
}

/// The text of a `name` or a `mean`, behind four bytes.
pub open spec fn text_behind_four(b: Seq<u8>) -> Option<Seq<char>> {
    if b.len() >= 4 && valid_utf8(b.skip(4)) {
        Some(decode_utf8(b.skip(4)))
    } else {
        None
    }
}

/// The values of type 1 that are text, each under the key.
pub open spec fn typed_texts(key: Seq<char>, datas: Seq<Seq<u8>>) -> Seq<(Seq<char>, Seq<char>)> {
    datas.filter(|d: Seq<u8>| word(d, 0) == 1 && valid_utf8(d.skip(8))).map_values(
        |d: Seq<u8>| (key, decode_utf8(d.skip(8))),
    )
}

/// The values of any other type, each under the key.
pub open spec fn other_values(key: Seq<char>, datas: Seq<Seq<u8>>) -> Seq<(Seq<char>, Seq<u8>)> {
    datas.filter(|d: Seq<u8>| word(d, 0) != 1).map_values(|d: Seq<u8>| (key, d.skip(8)))
}

proof fn freeform_filtered(key: Seq<char>, datas: Seq<Seq<u8>>)
    ensures
        text_pairs(key, datas) == typed_texts(key, datas),
        binary_datas(key, datas) == other_values(key, datas),
    decreases datas.len(),
{
    reveal(Seq::filter);
    if datas.len() > 0 {
        freeform_filtered(key, datas.drop_last());
    }
    assert(text_pairs(key, datas) =~= typed_texts(key, datas));
    assert(binary_datas(key, datas) =~= other_values(key, datas));
}

/// The mean of a freeform atom: its own, or that of iTunes where it has none that is text.
pub open spec fn is_mean(inner: Seq<u8>, mean: Seq<char>) -> bool {
    let list = kids(inner);
    ||| exists|i: int|
        #[trigger] first_is_at(list, code("mean"@), i) && text_behind_four(list[i].1) == Some(mean)
    ||| mean == "com.apple.iTunes"@ && exists|i: int|
        #[trigger] first_is_at(list, code("mean"@), i) && text_behind_four(list[i].1) is None
    ||| mean == "com.apple.iTunes"@ && forall|j: int|
        0 <= j < list.len() ==> (#[trigger] list[j]).0 != code("mean"@)
}

proof fn mean_found(inner: Seq<u8>, mean: Seq<char>)
    requires
        is_mean(inner, mean),
    ensures
        freeform_mean(inner) == mean,
{
    atom_codes();
    let list = kids(inner);
    first_payload_is_first_body(inner, code("mean"@));
    if forall|j: int| 0 <= j < list.len() ==> (#[trigger] list[j]).0 != code("mean"@) {
        first_body_is_at(list, code("mean"@), 0);
    } else {
        let i = choose|i: int| #[trigger]
            first_is_at(list, code("mean"@), i) && (text_behind_four(list[i].1) == Some(mean)
                || text_behind_four(list[i].1) is None);
        first_body_is_at(list, code("mean"@), i);
    }
}

/// A freeform atom gives each of its values of type 1 that is text, under the canonical key of
/// its mean and its name, or its name; without a name that is text it gives nothing. Its other
/// values are binary, under a key of both.
pub proof fn freeform_atoms_are_read(
    inner: &[u8],
    n: int,
    mean: &str,
    name: &str,
    key: Option<&'static str>,
    r: Vec<(String, String)>,
)
    requires
        call_ensures(read_freeform, (inner,), r),
        call_ensures(mp4_freeform_to_key, (mean, name), key),
        is_mean(inner@, mean@),
    ensures
        first_is_at(kids(inner@), code("name"@), n) && text_behind_four(kids(inner@)[n].1) == Some(
            name@,
        ) ==> {
            &&& pair_views(r@) == typed_texts(
                match key {
                    Some(k) => k@,
                    None => name@,
                },
                values_in(inner@),
            )
            &&& atom_binaries(code("----"@), inner@) == other_values(
                "----:"@ + mean@ + ":"@ + name@,
                values_in(inner@),
            )
        },
        (forall|j: int| 0 <= j < kids(inner@).len() ==> (#[trigger] kids(inner@)[j]).0 != code(
            "name"@,
        )) || (first_is_at(kids(inner@), code("name"@), n) && text_behind_four(kids(inner@)[n].1)
            is None) ==> r@.len() == 0 && atom_binaries(code("----"@), inner@).len() == 0,
{
    let d = inner@;
    atom_codes();
    mean_found(d, mean@);
    first_payload_is_first_body(d, code("name"@));
    first_body_is_at(kids(d), code("name"@), n);
    datas_filtered(d);
    assert(pair_views(r@).len() == r@.len());
    let k = match key {
        Some(k) => k@,
        None => name@,
    };
    freeform_filtered(k, values_in(d));
    freeform_filtered("----:"@ + mean@ + ":"@ + name@, values_in(d));
}

/// A freeform atom adds its texts to the list; only such an atom has binary values.
pub proof fn freeform_atoms_add_their_values(
    before: &[u8],
    after: &[u8],
    list: Seq<(Seq<u8>, Seq<u8>)>,
    kind: Seq<u8>,
    inner: &[u8],
    f: Vec<(String, String)>,
    b: Vec<(String, String)>,
    a: Vec<(String, String)>,
)
    requires
        one_more_atom(before@, after@, list, kind, inner@),
        call_ensures(read_freeform, (inner,), f),
        call_ensures(read_ilst_tags, (before,), b),
        call_ensures(read_ilst_tags, (after,), a),
    ensures
        kind == code("----"@) ==> pair_views(a@) == pair_views(b@) + pair_views(f@),
        atoms_binaries(boxes(after@), after@) == atoms_binaries(boxes(before@), before@) + if kind
            == code("----"@) {
            atom_binaries(kind, inner@)
        } else {
            Seq::empty()
        },
{
    one_more(before@, after@, list, kind, inner@);
    atom_codes();
}

/// A value as a picture: a front cover without a description or dimensions.
pub open spec fn front_cover(image: (Seq<char>, Seq<u8>)) -> PictureModel {
    PictureModel {
        mime: image.0,
        picture_type: 3,
        description: Seq::empty(),
        width: 0,
        height: 0,
        data: image.1,
    }
}

/// What has a size.
pub open spec fn fits_cap(item: (Seq<char>, Seq<u8>), cap: int) -> bool {
    item.1.len() <= cap
}

proof fn caps(items: Seq<(Seq<char>, Seq<u8>)>, cap: int)
    ensures
        covers(items, cap) == items.filter(
            |i: (Seq<char>, Seq<u8>)| fits_cap(i, cap),
        ).map_values(|i: (Seq<char>, Seq<u8>)| front_cover(i)),
        within_cap(items, cap) == items.filter(|i: (Seq<char>, Seq<u8>)| fits_cap(i, cap)),
        oversize(items, cap) == items.filter(
            |i: (Seq<char>, Seq<u8>)| !fits_cap(i, cap),
        ).map_values(|i: (Seq<char>, Seq<u8>)| (i.0, i.1.len() as int)),
    decreases items.len(),
{
    reveal(Seq::filter);
    if items.len() > 0 {
        caps(items.drop_last(), cap);
    }
    assert(covers(items, cap) =~= items.filter(
        |i: (Seq<char>, Seq<u8>)| fits_cap(i, cap),
    ).map_values(|i: (Seq<char>, Seq<u8>)| front_cover(i)));
    assert(within_cap(items, cap) =~= items.filter(|i: (Seq<char>, Seq<u8>)| fits_cap(i, cap)));
    assert(oversize(items, cap) =~= items.filter(
        |i: (Seq<char>, Seq<u8>)| !fits_cap(i, cap),
    ).map_values(|i: (Seq<char>, Seq<u8>)| (i.0, i.1.len() as int)));
}

/// Images up to the cap are front covers; each one over it is reported by its MIME type and
/// its size. With and without the report the pictures are the same.
pub proof fn images_within_the_cap_are_pictures(
    buf: &[u8],
    cap: usize,
    r: (Vec<EmbeddedPicture>, Vec<OversizeDrop>),
    p: Vec<EmbeddedPicture>,
)
    requires
        call_ensures(read_pictures_reporting, (buf, cap), r),
        call_ensures(read_pictures, (buf, cap), p),
    ensures
        picture_views(r.0@) == file_images(buf@).filter(
            |i: (Seq<char>, Seq<u8>)| fits_cap(i, cap as int),
        ).map_values(|i: (Seq<char>, Seq<u8>)| front_cover(i)),
        drop_views(r.1@) == file_images(buf@).filter(
            |i: (Seq<char>, Seq<u8>)| !fits_cap(i, cap as int),
        ).map_values(|i: (Seq<char>, Seq<u8>)| (i.0, i.1.len() as int)),
        picture_views(p@) == picture_views(r.0@),
{
    caps(file_images(buf@), cap as int);
}

/// Binary values up to the cap are handed out; each one over it is reported by its key and its
/// size. With and without the report the values are the same.
pub proof fn values_within_the_cap_are_binary_tags(
    buf: &[u8],
    cap: usize,
    r: (Vec<EmbeddedBinaryTag>, Vec<OversizeDrop>),
    p: Vec<EmbeddedBinaryTag>,
    ilst: Option<&[u8]>,
)
    requires
        call_ensures(read_binary_tags_reporting, (buf, cap), r),
        call_ensures(read_binary_tags, (buf, cap), p),
        call_ensures(itunes_ilst, (buf,), ilst),
    ensures
        ({
            let all = match ilst {
                Some(l) => atoms_binaries(boxes(l@), l@),
                None => Seq::empty(),
            };
            &&& binary_views(r.0@) == all.filter(
                |i: (Seq<char>, Seq<u8>)| fits_cap(i, cap as int),
            )
            &&& drop_views(r.1@) == all.filter(
                |i: (Seq<char>, Seq<u8>)| !fits_cap(i, cap as int),
            ).map_values(|i: (Seq<char>, Seq<u8>)| (i.0, i.1.len() as int))
            &&& binary_views(p@) == binary_views(r.0@)
        }),
{
    caps(file_binaries(buf@), cap as int);
}

/// The images among values, by their types.
pub open spec fn images_among(datas: Seq<Seq<u8>>) -> Seq<(Seq<char>, Seq<u8>)> {
    datas.filter(|d: Seq<u8>| word(d, 0) == 13 || word(d, 0) == 14).map_values(
        |d: Seq<u8>|
            (
                if word(d, 0) == 13 {
                    "image/jpeg"@
                } else {
                    "image/png"@
                },
                d.skip(8),
            ),
    )
}

proof fn images_filtered(datas: Seq<Seq<u8>>)
    ensures
        images_of(datas) == images_among(datas),
    decreases datas.len(),
{
    reveal(Seq::filter);
    if datas.len() > 0 {
        images_filtered(datas.drop_last());
    }
    assert(images_of(datas) =~= images_among(datas));
}

/// One more cover atom adds the images among its values.
pub proof fn covers_add_their_images(covrs: Seq<Seq<u8>>, inner: Seq<u8>)
    ensures
        covr_images(covrs.push(inner)) == covr_images(covrs) + images_among(values_in(inner)),
        covr_images(Seq::empty()).len() == 0,
{
    assert(covrs.push(inner).drop_last() =~= covrs);
    datas_filtered(inner);
    images_filtered(values_in(inner));
}

/// The images of a file are those of the cover atoms of its iTunes list. Only where there are
/// none is it the image of the first artwork item that has one.
pub proof fn images_of_a_file(
    buf: &[u8],
    ilst: Option<&[u8]>,
    items: Vec<KeyedItem>,
    i: int,
)
    requires
        call_ensures(itunes_ilst, (buf,), ilst),
        call_ensures(keyed_items, (buf,), items),
    ensures
        ({
            let art = match ilst {
                Some(l) => covr_images(payloads_among(kids(l@), code("covr"@))),
                None => Seq::empty(),
            };
            let all = item_views(items@);
            &&& art.len() > 0 ==> file_images(buf@) == art
            &&& art.len() == 0 && first_artwork_is_at(all, i) ==> file_images(buf@) == seq![
                item_image(all[i].datas)->0,
            ]
            &&& art.len() == 0 && (forall|j: int|
                0 <= j < all.len() ==> !is_artwork(#[trigger] all[j])) ==> file_images(
                buf@,
            ).len() == 0
        }),
{
    atom_codes();
    if let Some(l) = ilst {
        payloads_filtered(l@, code("covr"@));
    }
    artwork_is_at(item_views(items@), i);
}

/// An artwork item that has an image.
pub open spec fn is_artwork(item: ItemModel) -> bool {
    lower(item.name) == "com.apple.quicktime.artwork"@ && item_image(item.datas) is Some
}

/// The first such item stands at `i`.
pub open spec fn first_artwork_is_at(items: Seq<ItemModel>, i: int) -> bool {
    &&& 0 <= i < items.len()
    &&& is_artwork(items[i])
    &&& forall|j: int| 0 <= j < i ==> !is_artwork(#[trigger] items[j])
}

proof fn artwork_is_at(items: Seq<ItemModel>, i: int)
    ensures
        first_artwork_is_at(items, i) ==> keyed_artwork(items) == item_image(items[i].datas),
        (forall|j: int| 0 <= j < items.len() ==> !is_artwork(#[trigger] items[j]))
            ==> keyed_artwork(items) is None,
    decreases items.len(),
{
    reveal_strlit("com.apple.quicktime.artwork");
    let a = "com.apple.quicktime.artwork"@;
    assert(lower(a) =~= a);
    if items.len() > 0 {
        let rest = items.drop_first();
        artwork_is_at(rest, i - 1);
        assert forall|j: int| 0 <= j < rest.len() implies #[trigger] rest[j] == items[j + 1] by {}
        if first_artwork_is_at(items, i) && i > 0 {
            assert(!is_artwork(items[0]));
            assert(rest[i - 1] == items[i]);
            assert forall|j: int| 0 <= j < i - 1 implies !is_artwork(#[trigger] rest[j]) by {
                assert(!is_artwork(items[j + 1]));
            }
            assert(first_artwork_is_at(rest, i - 1));
        }
        if forall|j: int| 0 <= j < items.len() ==> !is_artwork(#[trigger] items[j]) {
            assert(!is_artwork(items[0]));
            assert forall|j: int| 0 <= j < rest.len() implies !is_artwork(#[trigger] rest[j]) by {
                assert(!is_artwork(items[j + 1]));
            }
        }
    }
}

} // verus!
