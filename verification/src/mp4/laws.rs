//! What is written into an `ilst` reads back: text tags, binary values and images.

use crate::bytes::be16;
use crate::bytes::be16_bytes;
use crate::bytes::be32;
use crate::bytes::be32_bytes;
use crate::bytes::be_value;
use crate::bytes::front_eight;
use crate::groups::groups_of;
use crate::input::ArtInput;
use crate::input::BinaryTagInput;
use crate::input::TagInput;
use crate::mp4::atoms::art_bytes;
use crate::mp4::atoms::art_type;
use crate::mp4::atoms::boxed_bytes;
use crate::mp4::atoms::freeform_bytes;
use crate::mp4::atoms::freeform_head;
use crate::mp4::atoms::freeform_parts;
use crate::mp4::atoms::full_text_box;
use crate::mp4::atoms::group_atom;
use crate::mp4::atoms::group_atoms;
use crate::mp4::atoms::integer_atom_bytes;
use crate::mp4::atoms::integer_data_body;
use crate::mp4::atoms::integer_limit;
use crate::mp4::atoms::number16;
use crate::mp4::atoms::number_and_total;
use crate::mp4::atoms::number_atom_bytes;
use crate::mp4::atoms::number_data_body;
use crate::mp4::atoms::text_data_body;
use crate::mp4::atoms::text_data_box;
use crate::mp4::atoms::text_data_boxes;
use crate::mp4::boxes::boxes;
use crate::mp4::boxes::payloads;
use crate::mp4::boxes::BoxModel;
use crate::mp4::boxes::COVR;
use crate::mp4::boxes::DATA;
use crate::mp4::boxes::DISK;
use crate::mp4::boxes::FREEFORM;
use crate::mp4::boxes::MEAN;
use crate::mp4::boxes::NAME;
use crate::mp4::boxes::TRKN;
use crate::mp4::keyed::datas_of;
use crate::mp4::keyed::whole_datas;
use crate::mp4::kids::bodies;
use crate::mp4::kids::bodies_concat;
use crate::mp4::kids::first_body;
use crate::mp4::kids::first_body_concat;
use crate::mp4::kids::first_payload_is_first_body;
use crate::mp4::kids::kids;
use crate::mp4::kids::kids_among;
use crate::mp4::kids::kids_concat;
use crate::mp4::kids::kids_of_box;
use crate::mp4::kids::no_kids;
use crate::mp4::kids::payloads_are_bodies;
use crate::mp4::kids::sealed;
use crate::mp4::kids::sealed_concat;
use crate::mp4::kids::single_body;
use crate::mp4::read::atom_binaries;
use crate::mp4::read::atom_pairs;
use crate::mp4::read::atoms_binaries;
use crate::mp4::read::atoms_pairs;
use crate::mp4::read::binary_datas;
use crate::mp4::read::binary_key;
use crate::mp4::read::data_pair;
use crate::mp4::read::data_pairs;
use crate::mp4::read::freeform_key;
use crate::mp4::read::freeform_mean;
use crate::mp4::read::freeform_name;
use crate::mp4::read::full_box_text;
use crate::mp4::read::images_of;
use crate::mp4::read::text_data;
use crate::mp4::read::text_pairs;
use crate::mp4::read::ITUNES_MEAN;
use crate::mp4::strip::MAX_BOX;
use crate::mp4::values::image_type;
use crate::serving::Sources;
use crate::tagmap::entry_of;
use crate::tagmap::first;
use crate::tagmap::integer_atom_key;
use crate::tagmap::key_at;
use crate::tagmap::key_is;
use crate::tagmap::mp4_slot_of;
use crate::tagmap::mp4_text_is;
use crate::tagmap::vocab;
use crate::tagmap::Mp4Model;
use crate::tagmap_laws::found_entry;
use crate::tagmap_laws::mp4_atom_leads_back;
use crate::tagmap_laws::mp4_freeform_leads_back;
use crate::tagmap_laws::mp4_slot_shape;
use crate::tagmap_laws::not_a_text_atom;
use crate::text::decimal;
use crate::text::lower;
use crate::text::utf8;
use vstd::prelude::*;
use vstd::utf8::*;

verus! {

/// The pairs of children of an `ilst`.
pub open spec fn kid_pairs(s: Seq<(Seq<u8>, Seq<u8>)>) -> Seq<(Seq<char>, Seq<char>)>
    decreases s.len(),
{
    if s.len() == 0 {
        Seq::empty()
    } else {
        kid_pairs(s.drop_last()) + atom_pairs(s.last().0, s.last().1)
    }
}

/// The binary values of children of an `ilst`.
pub open spec fn kid_binaries(s: Seq<(Seq<u8>, Seq<u8>)>) -> Seq<(Seq<char>, Seq<u8>)>
    decreases s.len(),
{
    if s.len() == 0 {
        Seq::empty()
    } else {
        kid_binaries(s.drop_last()) + atom_binaries(s.last().0, s.last().1)
    }
}

/// Reading goes over the children.
pub proof fn reading_goes_over_kids(s: Seq<BoxModel>, d: Seq<u8>)
    ensures
        atoms_pairs(s, d) == kid_pairs(kids_among(s, d)),
        atoms_binaries(s, d) == kid_binaries(kids_among(s, d)),
    decreases s.len(),
{
    let k = kids_among(s, d);
    if s.len() > 0 {
        reading_goes_over_kids(s.drop_last(), d);
        assert(k.drop_last() =~= kids_among(s.drop_last(), d));
        assert(k.last() == (s.last().kind, s.last().payload(d)));
    }
}

/// Lists of children joined are read one after the other.
pub proof fn kid_reading_concat(a: Seq<(Seq<u8>, Seq<u8>)>, b: Seq<(Seq<u8>, Seq<u8>)>)
    ensures
        kid_pairs(a + b) == kid_pairs(a) + kid_pairs(b),
        kid_binaries(a + b) == kid_binaries(a) + kid_binaries(b),
    decreases b.len(),
{
    if b.len() == 0 {
        assert(a + b =~= a);
        assert(kid_pairs(a) + Seq::<(Seq<char>, Seq<char>)>::empty() =~= kid_pairs(a));
        assert(kid_binaries(a) + Seq::<(Seq<char>, Seq<u8>)>::empty() =~= kid_binaries(a));
    } else {
        let f = b.drop_last();
        assert((a + b).drop_last() =~= a + f);
        kid_reading_concat(a, f);
        let l = b.last();
        assert(kid_pairs(a) + kid_pairs(f) + atom_pairs(l.0, l.1) =~= kid_pairs(a) + (kid_pairs(f)
            + atom_pairs(l.0, l.1)));
        assert(kid_binaries(a) + kid_binaries(f) + atom_binaries(l.0, l.1) =~= kid_binaries(a) + (
        kid_binaries(f) + atom_binaries(l.0, l.1)));
    }
}

/// One child is read by itself.
pub proof fn one_kid_read(kind: Seq<u8>, inner: Seq<u8>)
    ensures
        kid_pairs(seq![(kind, inner)]) == atom_pairs(kind, inner),
        kid_binaries(seq![(kind, inner)]) == atom_binaries(kind, inner),
{
    let one = seq![(kind, inner)];
    assert(one.drop_last() =~= Seq::empty());
    assert(one.last() == (kind, inner));
    assert(kid_pairs(one.drop_last()) =~= Seq::empty());
    assert(kid_binaries(one.drop_last()) =~= Seq::empty());
    assert(kid_pairs(one) =~= atom_pairs(kind, inner));
    assert(kid_binaries(one) =~= atom_binaries(kind, inner));
}

/// The `data` payloads of values.
pub open spec fn text_bodies(values: Seq<Seq<char>>) -> Seq<Seq<u8>> {
    Seq::new(values.len(), |i: int| text_data_body(values[i]))
}

/// The same key for each value.
pub open spec fn under_key(key: Seq<char>, values: Seq<Seq<char>>) -> Seq<(Seq<char>, Seq<char>)> {
    Seq::new(values.len(), |i: int| (key, values[i]))
}

/// Written `data` boxes of values, after something sealed: their payloads come after the
/// payloads of that.
proof fn text_datas_stand(a: Seq<u8>, values: Seq<Seq<char>>)
    requires
        sealed(a),
        a.len() + text_data_boxes(values).len() <= MAX_BOX,
    ensures
        sealed(a + text_data_boxes(values)),
        bodies(kids(a + text_data_boxes(values)), DATA@) == bodies(kids(a), DATA@) + text_bodies(
            values,
        ),
        forall|k: Seq<u8>|
            k != DATA@ ==> #[trigger] first_body(kids(a + text_data_boxes(values)), k)
                == first_body(kids(a), k),
    decreases values.len(),
{
    assert(DATA@.len() == 4);
    if values.len() == 0 {
        assert(a + text_data_boxes(values) =~= a);
        assert(bodies(kids(a), DATA@) + text_bodies(values) =~= bodies(kids(a), DATA@));
    } else {
        let front = values.drop_last();
        let v = values.last();
        let x = a + text_data_boxes(front);
        let b = text_data_box(v);
        let body = text_data_body(v);
        text_datas_stand(a, front);
        kids_of_box(DATA@, body);
        kids_concat(x, b);
        sealed_concat(x, b);
        bodies_concat(kids(x), kids(b), DATA@);
        single_body(DATA@, body, DATA@);
        assert(a + text_data_boxes(values) =~= x + b);
        assert(text_bodies(front).push(body) =~= text_bodies(values));
        assert(bodies(kids(a), DATA@) + text_bodies(front) + seq![body] =~= bodies(kids(a), DATA@)
            + text_bodies(values));
        assert forall|k: Seq<u8>| k != DATA@ implies #[trigger] first_body(
            kids(a + text_data_boxes(values)),
            k,
        ) == first_body(kids(a), k) by {
            first_body_concat(kids(x), kids(b), k);
            single_body(DATA@, body, k);
        }
    }
}

/// Payloads that are long enough all count.
proof fn all_whole(ps: Seq<Seq<u8>>)
    requires
        forall|i: int| 0 <= i < ps.len() ==> (#[trigger] ps[i]).len() >= 8,
    ensures
        whole_datas(ps) == ps,
    decreases ps.len(),
{
    if ps.len() > 0 {
        let f = ps.drop_last();
        assert forall|i: int| 0 <= i < f.len() implies (#[trigger] f[i]).len() >= 8 by {
            assert(f[i] == ps[i]);
        }
        all_whole(f);
        assert(ps[ps.len() - 1].len() >= 8);
        assert(f.push(ps.last()) =~= ps);
    } else {
        assert(whole_datas(ps) =~= ps);
    }
}

/// A written text `data` payload holds its text.
proof fn text_body_reads(v: Seq<char>)
    ensures
        be32(text_data_body(v), 0) == 1,
        text_data_body(v).skip(8) == utf8(v),
        valid_utf8(utf8(v)),
        decode_utf8(utf8(v)) == v,
        text_data(text_data_body(v)) == Some(v),
        text_data_body(v).len() >= 8,
{
    let b = text_data_body(v);
    let one = be32_bytes(1);
    crate::bytes::be32_round_trip(1);
    assert(b[0] == one[0] && b[1] == one[1] && b[2] == one[2] && b[3] == one[3]);
    assert(be32(b, 0) == be32(one, 0));
    assert(b.skip(8) =~= utf8(v));
    encode_utf8_valid_utf8(v);
    encode_utf8_decode_utf8(v);
}

/// Written text payloads read back, whether under a text atom or a freeform one; none of
/// them is binary.
proof fn text_bodies_read(kind: Seq<u8>, key: Seq<char>, values: Seq<Seq<char>>)
    ensures
        key_at(first(mp4_text_is(kind))) == Some(key) ==> data_pairs(kind, text_bodies(values))
            == under_key(key, values),
        text_pairs(key, text_bodies(values)) == under_key(key, values),
        binary_datas(key, text_bodies(values)) == Seq::<(Seq<char>, Seq<u8>)>::empty(),
        whole_datas(text_bodies(values)) == text_bodies(values),
    decreases values.len(),
{
    let bs = text_bodies(values);
    assert forall|i: int| 0 <= i < bs.len() implies (#[trigger] bs[i]).len() >= 8 by {
        text_body_reads(values[i]);
    }
    all_whole(bs);
    if values.len() > 0 {
        let f = values.drop_last();
        text_bodies_read(kind, key, f);
        assert(bs.drop_last() =~= text_bodies(f));
        assert(bs.last() == text_data_body(values.last()));
        text_body_reads(values.last());
        assert(under_key(key, f).push((key, values.last())) =~= under_key(key, values));
    } else {
        assert(data_pairs(kind, bs) =~= under_key(key, values));
        assert(text_pairs(key, bs) =~= under_key(key, values));
        assert(binary_datas(key, bs) =~= Seq::empty());
    }
}

/// A written `mean` or `name` holds its text.
proof fn full_text_reads(text: Seq<char>)
    ensures
        full_box_text(Some(be32_bytes(0) + utf8(text))) == Some(text),
{
    let b = be32_bytes(0) + utf8(text);
    assert(b.skip(4) =~= utf8(text));
    encode_utf8_valid_utf8(text);
    encode_utf8_decode_utf8(text);
}

/// What a freeform atom begins with: its mean and its name, and no `data`.
proof fn freeform_head_stands(mean: Seq<char>, name: Seq<char>)
    requires
        freeform_head(mean, name).len() <= MAX_BOX,
    ensures
        sealed(freeform_head(mean, name)),
        bodies(kids(freeform_head(mean, name)), DATA@) == Seq::<Seq<u8>>::empty(),
        first_body(kids(freeform_head(mean, name)), NAME@) == Some(be32_bytes(0) + utf8(name)),
        first_body(kids(freeform_head(mean, name)), MEAN@) == Some(be32_bytes(0) + utf8(mean)),
{
    let m = be32_bytes(0) + utf8(mean);
    let n = be32_bytes(0) + utf8(name);
    let a = full_text_box(MEAN@, mean);
    let b = full_text_box(NAME@, name);
    assert(MEAN@.len() == 4 && NAME@.len() == 4 && DATA@.len() == 4);
    assert(MEAN@[0] != NAME@[0] && MEAN@[0] != DATA@[0] && NAME@[0] != DATA@[0]);
    kids_of_box(MEAN@, m);
    kids_of_box(NAME@, n);
    kids_concat(a, b);
    sealed_concat(a, b);
    bodies_concat(kids(a), kids(b), DATA@);
    first_body_concat(kids(a), kids(b), NAME@);
    first_body_concat(kids(a), kids(b), MEAN@);
    single_body(MEAN@, m, DATA@);
    single_body(NAME@, n, DATA@);
    single_body(MEAN@, m, NAME@);
    single_body(NAME@, n, NAME@);
    single_body(MEAN@, m, MEAN@);
    assert(bodies(kids(a), DATA@) + bodies(kids(b), DATA@) =~= Seq::<Seq<u8>>::empty());
}

/// The mean, the name and the `data` payloads of a freeform atom's payload, given its
/// children.
proof fn freeform_reads(inner: Seq<u8>, mean: Seq<char>, name: Seq<char>, datas: Seq<Seq<u8>>)
    requires
        bodies(kids(inner), DATA@) == datas,
        whole_datas(datas) == datas,
        first_body(kids(inner), NAME@) == Some(be32_bytes(0) + utf8(name)),
        first_body(kids(inner), MEAN@) == Some(be32_bytes(0) + utf8(mean)),
    ensures
        freeform_name(inner) == Some(name),
        freeform_mean(inner) == mean,
        datas_of(inner) == datas,
{
    payloads_are_bodies(inner, DATA@);
    first_payload_is_first_body(inner, NAME@);
    first_payload_is_first_body(inner, MEAN@);
    full_text_reads(name);
    full_text_reads(mean);
}

/// A written freeform atom reads back: each value under the atom's key, and nothing binary.
proof fn freeform_atom_reads(mean: Seq<char>, name: Seq<char>, values: Seq<Seq<char>>)
    requires
        freeform_bytes(mean, name, values).len() <= MAX_BOX,
    ensures
        sealed(freeform_bytes(mean, name, values)),
        kid_pairs(kids(freeform_bytes(mean, name, values))) == under_key(
            freeform_key(mean, name),
            values,
        ),
        kid_binaries(kids(freeform_bytes(mean, name, values))) == Seq::<
            (Seq<char>, Seq<u8>),
        >::empty(),
        bodies(kids(freeform_bytes(mean, name, values)), COVR@) == Seq::<Seq<u8>>::empty(),
{
    let head = freeform_head(mean, name);
    let inner = head + text_data_boxes(values);
    assert(FREEFORM@.len() == 4 && DATA@.len() == 4 && COVR@.len() == 4);
    assert(FREEFORM@[0] != COVR@[0] && NAME@[0] != DATA@[0] && MEAN@[0] != DATA@[0]);
    freeform_head_stands(mean, name);
    text_datas_stand(head, values);
    let key = freeform_key(mean, name);
    text_bodies_read(FREEFORM@, key, values);
    text_bodies_read(FREEFORM@, binary_key(mean, name), values);
    assert(bodies(kids(head), DATA@) + text_bodies(values) =~= text_bodies(values));
    freeform_reads(inner, mean, name, text_bodies(values));
    kids_of_box(FREEFORM@, inner);
    one_kid_read(FREEFORM@, inner);
    single_body(FREEFORM@, inner, COVR@);
}

/// A written text atom reads back.
proof fn text_atom_reads(kind: Seq<u8>, key: Seq<char>, values: Seq<Seq<char>>)
    requires
        kind.len() == 4,
        kind != FREEFORM@,
        kind != COVR@,
        key_at(first(mp4_text_is(kind))) == Some(key),
        boxed_bytes(kind, text_data_boxes(values)).len() <= MAX_BOX,
    ensures
        sealed(boxed_bytes(kind, text_data_boxes(values))),
        kid_pairs(kids(boxed_bytes(kind, text_data_boxes(values)))) == under_key(key, values),
        kid_binaries(kids(boxed_bytes(kind, text_data_boxes(values)))) == Seq::<
            (Seq<char>, Seq<u8>),
        >::empty(),
        bodies(kids(boxed_bytes(kind, text_data_boxes(values))), COVR@) == Seq::<Seq<u8>>::empty(),
{
    let inner = text_data_boxes(values);
    let e = Seq::<u8>::empty();
    no_kids(e);
    text_datas_stand(e, values);
    assert(e + inner =~= inner);
    assert(bodies(kids(e), DATA@) =~= Seq::empty());
    assert(Seq::<Seq<u8>>::empty() + text_bodies(values) =~= text_bodies(values));
    payloads_are_bodies(inner, DATA@);
    text_bodies_read(kind, key, values);
    kids_of_box(kind, inner);
    one_kid_read(kind, inner);
    single_body(kind, inner, COVR@);
}

/// A payload of one `data` box.
proof fn one_data_stands(body: Seq<u8>)
    requires
        body.len() >= 8,
        boxed_bytes(DATA@, body).len() <= MAX_BOX,
    ensures
        datas_of(boxed_bytes(DATA@, body)) == seq![body],
{
    let inner = boxed_bytes(DATA@, body);
    assert(DATA@.len() == 4);
    kids_of_box(DATA@, body);
    single_body(DATA@, body, DATA@);
    payloads_are_bodies(inner, DATA@);
    all_whole(seq![body]);
}

/// What one pair or none comes to.
pub open spec fn one_or_none(p: Option<(Seq<char>, Seq<char>)>) -> Seq<(Seq<char>, Seq<char>)> {
    match p {
        Some(x) => seq![x],
        None => Seq::empty(),
    }
}

/// The pairs of one `data` payload.
proof fn one_data_pairs(kind: Seq<u8>, body: Seq<u8>)
    ensures
        data_pairs(kind, seq![body]) == one_or_none(data_pair(kind, body)),
{
    let one = seq![body];
    let p = data_pair(kind, body);
    assert(one.drop_last() =~= Seq::empty());
    assert(one.last() == body);
    let none = data_pairs(kind, one.drop_last());
    assert(none =~= Seq::empty());
    if p is Some {
        assert(none.push(p->0) =~= seq![p->0]);
    }
}

/// An atom with one `data` payload that is neither text nor freeform.
proof fn data_atom_reads(kind: Seq<u8>, body: Seq<u8>)
    requires
        kind.len() == 4,
        kind != FREEFORM@,
        kind != COVR@,
        body.len() >= 8,
        boxed_bytes(kind, boxed_bytes(DATA@, body)).len() <= MAX_BOX,
    ensures
        sealed(boxed_bytes(kind, boxed_bytes(DATA@, body))),
        kid_pairs(kids(boxed_bytes(kind, boxed_bytes(DATA@, body)))) == one_or_none(
            data_pair(kind, body),
        ),
        kid_binaries(kids(boxed_bytes(kind, boxed_bytes(DATA@, body)))) == Seq::<
            (Seq<char>, Seq<u8>),
        >::empty(),
        bodies(kids(boxed_bytes(kind, boxed_bytes(DATA@, body))), COVR@) == Seq::<Seq<u8>>::empty(),
{
    let inner = boxed_bytes(DATA@, body);
    assert(DATA@.len() == 4);
    one_data_stands(body);
    one_data_pairs(kind, body);
    kids_of_box(kind, inner);
    one_kid_read(kind, inner);
    single_body(kind, inner, COVR@);
}

/// A 16-bit number reads back.
proof fn be16_reads(d: Seq<u8>, p: int, v: int)
    requires
        0 <= v <= 0xffff,
        0 <= p,
        p + 2 <= d.len(),
        d[p] == be16_bytes(v)[0],
        d[p + 1] == be16_bytes(v)[1],
    ensures
        be16(d, p) == v,
{
    let x = v % 0x100;
    let y = (v / 0x100) % 0x100;
    assert(v == x + 0x100 * y);
}

/// The key that values of `key` come back under.
pub open spec fn key_back(key: Seq<char>) -> Seq<char> {
    match entry_of(key) {
        Some(i) => vocab(i).key,
        None => match mp4_slot_of(key) {
            Some(Mp4Model::Integer(atom, _)) => lower(key),
            _ => freeform_key(ITUNES_MEAN@, key),
        },
    }
}

/// The values that come back of the values of one key: all of them, but of a number or an
/// integer the first alone, in plain decimal, and none where it is no such number.
pub open spec fn values_back(key: Seq<char>, values: Seq<Seq<char>>) -> Seq<Seq<char>> {
    match mp4_slot_of(key) {
        Some(Mp4Model::Number(..)) => match number_and_total(utf8(values[0])) {
            Some((n, m)) if values.len() > 0 => seq![
                if m == 0 {
                    decimal(n)
                } else {
                    decimal(n) + "/"@ + decimal(m)
                },
            ],
            _ => Seq::empty(),
        },
        Some(Mp4Model::Integer(_, width)) => match number16(utf8(values[0])) {
            Some(n) if values.len() > 0 && n <= integer_limit(width) => seq![decimal(n)],
            _ => Seq::empty(),
        },
        _ => values,
    }
}

/// A parsed number is not negative.
proof fn number16_range(b: Seq<u8>)
    ensures
        match number16(b) {
            Some(n) => 0 <= n <= 0xffff,
            None => true,
        },
{
    let s = if b.len() > 0 && b[0] == 0x2b {
        b.skip(1)
    } else {
        b
    };
    if crate::text::all_digits(s) {
        crate::text::digits_value_prefix(s, s.len() as int);
    }
}

/// A written track or disc number reads back.
proof fn number_atom_reads(kind: Seq<u8>, n: int, m: int, width: int)
    requires
        kind == TRKN@ || kind == DISK@,
        0 <= n <= 0xffff,
        0 <= m <= 0xffff,
        6 <= width <= 8,
    ensures
        number_atom_bytes(kind, n, m, width).len() <= MAX_BOX,
        sealed(number_atom_bytes(kind, n, m, width)),
        kid_pairs(kids(number_atom_bytes(kind, n, m, width))) == seq![
            (
                if kind == TRKN@ {
                    "tracknumber"@
                } else {
                    "discnumber"@
                },
                if m == 0 {
                    decimal(n)
                } else {
                    decimal(n) + "/"@ + decimal(m)
                },
            ),
        ],
        kid_binaries(kids(number_atom_bytes(kind, n, m, width))) == Seq::<
            (Seq<char>, Seq<u8>),
        >::empty(),
        bodies(kids(number_atom_bytes(kind, n, m, width)), COVR@) == Seq::<Seq<u8>>::empty(),
{
    let body = number_data_body(n, m, width);
    assert(kind.len() == 4);
    assert(TRKN@[0] == 0x74 && DISK@[0] == 0x64 && FREEFORM@[0] == 0x2d && COVR@[0] == 0x63);
    assert(DATA@.len() == 4);
    not_a_text_atom(kind);
    let v = body.skip(8);
    assert(v[2] == be16_bytes(n)[0] && v[3] == be16_bytes(n)[1]);
    assert(v[4] == be16_bytes(m)[0] && v[5] == be16_bytes(m)[1]);
    be16_reads(v, 2, n);
    be16_reads(v, 4, m);
    data_atom_reads(kind, body);
}

/// A written integer reads back.
#[verifier::spinoff_prover]
#[verifier::rlimit(60)]
proof fn integer_atom_reads(kind: Seq<u8>, key: Seq<char>, n: int, width: int)
    requires
        kind.len() == 4,
        kind[0] == 0x74 || kind[0] == 0x63 || kind[0] == 0x70,
        kind != TRKN@,
        kind != COVR@,
        integer_atom_key(kind) == Some(key),
        0 <= n <= integer_limit(width),
        width == 1 || width == 2,
    ensures
        integer_atom_bytes(kind, n, width).len() <= MAX_BOX,
        sealed(integer_atom_bytes(kind, n, width)),
        kid_pairs(kids(integer_atom_bytes(kind, n, width))) == seq![(key, decimal(n))],
        kid_binaries(kids(integer_atom_bytes(kind, n, width))) == Seq::<
            (Seq<char>, Seq<u8>),
        >::empty(),
        bodies(kids(integer_atom_bytes(kind, n, width)), COVR@) == Seq::<Seq<u8>>::empty(),
{
    let body = integer_data_body(n, width);
    assert(FREEFORM@[0] == 0x2d && DISK@[0] == 0x64 && DATA@.len() == 4);
    not_a_text_atom(kind);
    let v = body.skip(8);
    assert(front_eight(v) =~= v);
    if width == 1 {
        assert(v =~= seq![n as u8]);
        assert(v.drop_last() =~= Seq::empty());
        assert(be_value(v.drop_last()) == 0);
        assert(be_value(v) == n);
    } else {
        assert(v =~= be16_bytes(n));
        let f = v.drop_last();
        assert(f.drop_last() =~= Seq::empty());
        assert(be_value(f.drop_last()) == 0);
        assert(be_value(f) == v[0]);
        assert(be_value(v) == v[0] * 0x100 + v[1]);
        be16_reads(v, 0, n);
    }
    data_atom_reads(kind, body);
}

/// The atom of one group reads back: its values under its key, and nothing else.
proof fn group_atom_reads(key: Seq<char>, values: Seq<Seq<char>>)
    requires
        group_atom(key, values).len() <= MAX_BOX,
    ensures
        sealed(group_atom(key, values)),
        kid_pairs(kids(group_atom(key, values))) == under_key(
            key_back(key),
            values_back(key, values),
        ),
        kid_binaries(kids(group_atom(key, values))) == Seq::<(Seq<char>, Seq<u8>)>::empty(),
        bodies(kids(group_atom(key, values)), COVR@) == Seq::<Seq<u8>>::empty(),
{
    let e = Seq::<u8>::empty();
    no_kids(e);
    assert(kid_pairs(kids(e)) =~= Seq::empty());
    assert(kid_binaries(kids(e)) =~= Seq::empty());
    assert(bodies(kids(e), COVR@) =~= Seq::empty());
    let none = Seq::<Seq<char>>::empty();
    assert(under_key(key_back(key), none) =~= Seq::empty());
    number16_range(utf8(values[0]));
    match entry_of(key) {
        Some(i) => {
            found_entry(key_is(lower(key)), 0);
            mp4_slot_shape(i);
            match vocab(i).mp4 {
                Mp4Model::Text(atom) => {
                    mp4_atom_leads_back(i);
                    assert(FREEFORM@[0] == 0x2d && COVR@[0] == 0x63);
                    text_atom_reads(atom, vocab(i).key, values);
                },
                Mp4Model::Number(atom, width) => {
                    assert(TRKN@ =~= seq![0x74u8, 0x72u8, 0x6bu8, 0x6eu8]);
                    assert(DISK@ =~= seq![0x64u8, 0x69u8, 0x73u8, 0x6bu8]);
                    assert(TRKN@[0] != DISK@[0]);
                    let b = utf8(values[0]);
                    let slash = crate::bytes::find_byte(b, 0x2f, 0);
                    number16_range(b.subrange(0, slash));
                    number16_range(b.subrange(slash + 1, b.len() as int));
                    if let Some((n, m)) = number_and_total(b) {
                        if values.len() > 0 {
                            number_atom_reads(atom, n, m, width);
                            let back = values_back(key, values);
                            assert(under_key(key_back(key), back) =~= seq![
                                (key_back(key), back[0]),
                            ]);
                        }
                    }
                },
                Mp4Model::Integer(..) => {},
                Mp4Model::Freeform(mean, name) => {
                    mp4_freeform_leads_back(i);
                    freeform_atom_reads(mean, name, values);
                },
            }
        },
        None => match mp4_slot_of(key) {
            Some(Mp4Model::Integer(atom, width)) => {
                assert(TRKN@[1] == 0x72 && COVR@[1] == 0x6f);
                if let Some(n) = number16(utf8(values[0])) {
                    if values.len() > 0 && n <= integer_limit(width) {
                        integer_slots(key);
                        integer_atom_reads(atom, lower(key), n, width);
                        let back = values_back(key, values);
                        assert(under_key(key_back(key), back) =~= seq![(key_back(key), back[0])]);
                    }
                }
            },
            _ => {
                freeform_atom_reads(ITUNES_MEAN@, key, values);
            },
        },
    }
}

/// The integer atoms lead back to the keys they stand for.
proof fn integer_slots(key: Seq<char>)
    requires
        entry_of(key) is None,
    ensures
        match mp4_slot_of(key) {
            Some(Mp4Model::Integer(atom, width)) => integer_atom_key(atom) == Some(lower(key)) && (
            width == 1 || width == 2) && atom.len() == 4,
            _ => true,
        },
{
    let t = seq![0x74u8, 0x6du8, 0x70u8, 0x6fu8];
    let c = seq![0x63u8, 0x70u8, 0x69u8, 0x6cu8];
    let g = seq![0x70u8, 0x67u8, 0x61u8, 0x70u8];
    assert(t[0] != c[0] && t[0] != g[0] && c[0] != g[0]);
}

/// The pairs that come back of groups of values.
pub open spec fn groups_back(groups: Seq<(Seq<char>, Seq<Seq<char>>)>) -> Seq<
    (Seq<char>, Seq<char>),
>
    decreases groups.len(),
{
    if groups.len() == 0 {
        Seq::empty()
    } else {
        groups_back(groups.drop_last()) + under_key(
            key_back(groups.last().0),
            values_back(groups.last().0, groups.last().1),
        )
    }
}

/// The atoms of groups read back.
pub proof fn group_atoms_read(groups: Seq<(Seq<char>, Seq<Seq<char>>)>)
    requires
        group_atoms(groups).len() <= MAX_BOX,
    ensures
        sealed(group_atoms(groups)),
        kid_pairs(kids(group_atoms(groups))) == groups_back(groups),
        kid_binaries(kids(group_atoms(groups))) == Seq::<(Seq<char>, Seq<u8>)>::empty(),
        bodies(kids(group_atoms(groups)), COVR@) == Seq::<Seq<u8>>::empty(),
    decreases groups.len(),
{
    if groups.len() == 0 {
        no_kids(group_atoms(groups));
        assert(kid_pairs(kids(group_atoms(groups))) =~= Seq::empty());
    } else {
        let f = groups.drop_last();
        let g = groups.last();
        let a = group_atoms(f);
        let b = group_atom(g.0, g.1);
        group_atoms_read(f);
        group_atom_reads(g.0, g.1);
        kids_concat(a, b);
        sealed_concat(a, b);
        kid_reading_concat(kids(a), kids(b));
        bodies_concat(kids(a), kids(b), COVR@);
        assert(kid_binaries(kids(a)) + kid_binaries(kids(b)) =~= Seq::<
            (Seq<char>, Seq<u8>),
        >::empty());
        assert(bodies(kids(a), COVR@) + bodies(kids(b), COVR@) =~= Seq::<Seq<u8>>::empty());
    }
}

/// The payload of a binary `data` box.
pub open spec fn binary_body(payload: Seq<u8>) -> Seq<u8> {
    be32_bytes(0) + be32_bytes(0) + payload
}

/// A binary freeform atom with its value in place.
pub open spec fn binary_atom(mean: Seq<char>, name: Seq<char>, payload: Seq<u8>) -> Seq<u8> {
    boxed_bytes(
        FREEFORM@,
        freeform_head(mean, name) + boxed_bytes(DATA@, binary_body(payload)),
    )
}

/// A written binary `data` payload is no text, and holds its value.
proof fn binary_body_reads(key: Seq<char>, payload: Seq<u8>)
    ensures
        binary_body(payload).len() >= 8,
        text_pairs(key, seq![binary_body(payload)]) == Seq::<(Seq<char>, Seq<char>)>::empty(),
        binary_datas(key, seq![binary_body(payload)]) == seq![(key, payload)],
{
    let body = binary_body(payload);
    let one = seq![body];
    let z = be32_bytes(0);
    crate::bytes::be32_round_trip(0);
    assert(body[0] == z[0] && body[1] == z[1] && body[2] == z[2] && body[3] == z[3]);
    assert(be32(body, 0) == be32(z, 0));
    assert(body.skip(8) =~= payload);
    assert(one.drop_last() =~= Seq::empty());
    assert(one.last() == body);
    let np = text_pairs(key, one.drop_last());
    let nb = binary_datas(key, one.drop_last());
    assert(np =~= Seq::empty());
    assert(nb =~= Seq::empty());
    assert(nb.push((key, payload)) =~= seq![(key, payload)]);
}

/// The payload of a written binary freeform atom.
#[verifier::spinoff_prover]
#[verifier::rlimit(60)]
proof fn binary_atom_stands(mean: Seq<char>, name: Seq<char>, payload: Seq<u8>)
    requires
        binary_atom(mean, name, payload).len() <= MAX_BOX,
    ensures
        ({
            let inner = freeform_head(mean, name) + boxed_bytes(DATA@, binary_body(payload));
            &&& freeform_name(inner) == Some(name)
            &&& freeform_mean(inner) == mean
            &&& datas_of(inner) == seq![binary_body(payload)]
        }),
{
    let head = freeform_head(mean, name);
    let body = binary_body(payload);
    let data = boxed_bytes(DATA@, body);
    let inner = head + data;
    assert(FREEFORM@.len() == 4 && DATA@.len() == 4);
    freeform_head_stands(mean, name);
    kids_of_box(DATA@, body);
    kids_concat(head, data);
    bodies_concat(kids(head), kids(data), DATA@);
    first_body_concat(kids(head), kids(data), NAME@);
    first_body_concat(kids(head), kids(data), MEAN@);
    single_body(DATA@, body, DATA@);
    let one = seq![body];
    assert(Seq::<Seq<u8>>::empty() + one =~= one);
    all_whole(one);
    freeform_reads(inner, mean, name, one);
}

/// A written binary freeform atom reads back: one binary value, and no text.
pub proof fn binary_atom_reads(mean: Seq<char>, name: Seq<char>, payload: Seq<u8>)
    requires
        binary_atom(mean, name, payload).len() <= MAX_BOX,
    ensures
        sealed(binary_atom(mean, name, payload)),
        kid_pairs(kids(binary_atom(mean, name, payload))) == Seq::<(Seq<char>, Seq<char>)>::empty(),
        kid_binaries(kids(binary_atom(mean, name, payload))) == seq![
            (binary_key(mean, name), payload),
        ],
        bodies(kids(binary_atom(mean, name, payload)), COVR@) == Seq::<Seq<u8>>::empty(),
{
    let inner = freeform_head(mean, name) + boxed_bytes(DATA@, binary_body(payload));
    assert(FREEFORM@.len() == 4 && COVR@.len() == 4);
    assert(FREEFORM@[0] != COVR@[0]);
    binary_atom_stands(mean, name, payload);
    binary_body_reads(freeform_key(mean, name), payload);
    binary_body_reads(binary_key(mean, name), payload);
    kids_of_box(FREEFORM@, inner);
    one_kid_read(FREEFORM@, inner);
    single_body(FREEFORM@, inner, COVR@);
}

/// The binary atoms of tags, their values in place.
pub open spec fn binary_atoms(tags: Seq<BinaryTagInput>, src: Sources) -> Seq<u8>
    decreases tags.len(),
{
    if tags.len() == 0 {
        Seq::empty()
    } else {
        let before = binary_atoms(tags.drop_last(), src);
        let bt = tags.last();
        match freeform_parts(utf8(bt.key@)) {
            Some((mean, name)) if bt.len > 0 => before + binary_atom(
                mean,
                name,
                (src.payloads)(bt.payload_id),
            ),
            _ => before,
        }
    }
}

/// The binary values that come back: those that are not empty and have a freeform key.
pub open spec fn binaries_back(tags: Seq<BinaryTagInput>, src: Sources) -> Seq<
    (Seq<char>, Seq<u8>),
>
    decreases tags.len(),
{
    if tags.len() == 0 {
        Seq::empty()
    } else {
        let before = binaries_back(tags.drop_last(), src);
        let bt = tags.last();
        if freeform_parts(utf8(bt.key@)) is Some && bt.len > 0 {
            before.push((bt.key@, (src.payloads)(bt.payload_id)))
        } else {
            before
        }
    }
}

/// A freeform key put together again is the key.
pub proof fn freeform_key_parts(key: Seq<char>)
    ensures
        match freeform_parts(utf8(key)) {
            Some((mean, name)) => binary_key(mean, name) == key,
            None => true,
        },
{
    let b = utf8(key);
    if let Some((mean, name)) = freeform_parts(b) {
        let rest = b.skip(5);
        let colon = crate::bytes::find_byte(rest, 0x3a, 0);
        crate::bytes::find_byte_finds(rest, 0x3a, 0);
        encode_utf8_valid_utf8(key);
        crate::text::utf8_splits_at_ascii(b, 4);
        assert(b.subrange(5, b.len() as int) =~= rest);
        crate::text::utf8_splits_at_ascii(rest, colon);
        let m = rest.subrange(0, colon);
        let n = rest.subrange(colon + 1, rest.len() as int);
        decode_utf8_encode_utf8(m);
        decode_utf8_encode_utf8(n);
        reveal_strlit("----:");
        reveal_strlit(":");
        crate::text::ascii_bytes("----:"@);
        crate::text::ascii_bytes(":"@);
        crate::text::utf8_concat("----:"@, mean);
        crate::text::utf8_concat("----:"@ + mean, ":"@);
        crate::text::utf8_concat("----:"@ + mean + ":"@, name);
        let five = utf8("----:"@);
        let one = utf8(":"@);
        assert(FREEFORM@ =~= b.subrange(0, 4));
        assert(b[0] == FREEFORM@[0] && b[1] == FREEFORM@[1] && b[2] == FREEFORM@[2] && b[3]
            == FREEFORM@[3]);
        assert(five =~= b.subrange(0, 5));
        assert(one =~= rest.subrange(colon, colon + 1));
        assert(five + m + one + n =~= b);
        crate::text::utf8_injective(binary_key(mean, name), key);
    }
}

/// The binary atoms read back.
pub proof fn binary_atoms_read(tags: Seq<BinaryTagInput>, src: Sources)
    requires
        binary_atoms(tags, src).len() <= MAX_BOX,
    ensures
        sealed(binary_atoms(tags, src)),
        kid_pairs(kids(binary_atoms(tags, src))) == Seq::<(Seq<char>, Seq<char>)>::empty(),
        kid_binaries(kids(binary_atoms(tags, src))) == binaries_back(tags, src),
        bodies(kids(binary_atoms(tags, src)), COVR@) == Seq::<Seq<u8>>::empty(),
    decreases tags.len(),
{
    if tags.len() == 0 {
        let e = binary_atoms(tags, src);
        no_kids(e);
        assert(kid_pairs(kids(e)) =~= Seq::empty());
        assert(kid_binaries(kids(e)) =~= Seq::empty());
        assert(bodies(kids(e), COVR@) =~= Seq::empty());
    } else {
        let f = tags.drop_last();
        let bt = tags.last();
        let a = binary_atoms(f, src);
        binary_atoms_read(f, src);
        freeform_key_parts(bt.key@);
        match freeform_parts(utf8(bt.key@)) {
            Some((mean, name)) if bt.len > 0 => {
                let p = (src.payloads)(bt.payload_id);
                let b = binary_atom(mean, name, p);
                binary_atom_reads(mean, name, p);
                kids_concat(a, b);
                sealed_concat(a, b);
                kid_reading_concat(kids(a), kids(b));
                bodies_concat(kids(a), kids(b), COVR@);
                assert(kid_pairs(kids(a)) + kid_pairs(kids(b)) =~= Seq::<
                    (Seq<char>, Seq<char>),
                >::empty());
                assert(bodies(kids(a), COVR@) + bodies(kids(b), COVR@) =~= Seq::<
                    Seq<u8>,
                >::empty());
                assert(binaries_back(f, src) + seq![(bt.key@, p)] =~= binaries_back(tags, src));
            },
            _ => {},
        }
    }
}

/// The payload of the `data` box of an image.
pub open spec fn art_body(art: ArtInput, src: Sources) -> Seq<u8> {
    be32_bytes(art_type(art.mime@)) + be32_bytes(0) + (src.art)(art.art_id)
}

/// The `data` boxes of images.
pub open spec fn art_boxes(arts: Seq<ArtInput>, src: Sources) -> Seq<u8>
    decreases arts.len(),
{
    if arts.len() == 0 {
        Seq::empty()
    } else if arts.last().data_len > 0 {
        art_boxes(arts.drop_last(), src) + boxed_bytes(DATA@, art_body(arts.last(), src))
    } else {
        art_boxes(arts.drop_last(), src)
    }
}

/// The images that come back: MIME type and bytes of each that is not empty. Anything but
/// PNG counts as JPEG.
pub open spec fn images_back(arts: Seq<ArtInput>, src: Sources) -> Seq<(Seq<char>, Seq<u8>)>
    decreases arts.len(),
{
    if arts.len() == 0 {
        Seq::empty()
    } else if arts.last().data_len > 0 {
        images_back(arts.drop_last(), src).push(
            (mime_back(arts.last().mime@), (src.art)(arts.last().art_id)),
        )
    } else {
        images_back(arts.drop_last(), src)
    }
}

/// Images joined are read one list after the other.
proof fn images_push(datas: Seq<Seq<u8>>, d: Seq<u8>)
    ensures
        images_of(datas.push(d)) == match image_type(be32(d, 0)) {
            Some(m) => images_of(datas).push((m, d.skip(8))),
            None => images_of(datas),
        },
{
    assert(datas.push(d).drop_last() =~= datas);
}

/// The MIME type that an image comes back with.
pub open spec fn mime_back(mime: Seq<char>) -> Seq<char> {
    if mime == "image/png"@ {
        "image/png"@
    } else {
        "image/jpeg"@
    }
}

/// The `data` payload of an image holds it.
proof fn art_body_reads(art: ArtInput, src: Sources)
    ensures
        art_body(art, src).len() >= 8,
        image_type(be32(art_body(art, src), 0)) == Some(mime_back(art.mime@)),
        art_body(art, src).skip(8) == (src.art)(art.art_id),
{
    let body = art_body(art, src);
    let t = be32_bytes(art_type(art.mime@));
    crate::bytes::be32_round_trip(art_type(art.mime@));
    assert(body[0] == t[0] && body[1] == t[1] && body[2] == t[2] && body[3] == t[3]);
    assert(be32(body, 0) == be32(t, 0));
    assert(body.skip(8) =~= (src.art)(art.art_id));
}

/// The `data` boxes of images read back.
proof fn art_boxes_read(arts: Seq<ArtInput>, src: Sources)
    requires
        art_boxes(arts, src).len() <= MAX_BOX,
    ensures
        sealed(art_boxes(arts, src)),
        images_of(bodies(kids(art_boxes(arts, src)), DATA@)) == images_back(arts, src),
        whole_datas(bodies(kids(art_boxes(arts, src)), DATA@)) == bodies(
            kids(art_boxes(arts, src)),
            DATA@,
        ),
        forall|i: int|
            0 <= i < bodies(kids(art_boxes(arts, src)), DATA@).len() ==> (#[trigger] bodies(
                kids(art_boxes(arts, src)),
                DATA@,
            )[i]).len() >= 8,
    decreases arts.len(),
{
    let all = bodies(kids(art_boxes(arts, src)), DATA@);
    if arts.len() == 0 {
        no_kids(art_boxes(arts, src));
        assert(all =~= Seq::empty());
        assert(images_of(all) =~= Seq::empty());
    } else {
        let f = arts.drop_last();
        let art = arts.last();
        let a = art_boxes(f, src);
        art_boxes_read(f, src);
        if art.data_len > 0 {
            let body = art_body(art, src);
            let b = boxed_bytes(DATA@, body);
            assert(DATA@.len() == 4);
            kids_of_box(DATA@, body);
            kids_concat(a, b);
            sealed_concat(a, b);
            bodies_concat(kids(a), kids(b), DATA@);
            single_body(DATA@, body, DATA@);
            let before = bodies(kids(a), DATA@);
            assert(before + seq![body] =~= before.push(body));
            images_push(before, body);
            art_body_reads(art, src);
            assert(all == before.push(body));
            assert forall|i: int| 0 <= i < all.len() implies (#[trigger] all[i]).len() >= 8 by {
                if i < before.len() {
                    assert(all[i] == before[i]);
                }
            }
        }
    }
    all_whole(all);
}

/// The `covr` atom of images, if there is any image.
pub open spec fn covr_atom(arts: Seq<ArtInput>, src: Sources) -> Seq<u8> {
    if art_bytes(arts) == 0 {
        Seq::empty()
    } else {
        boxed_bytes(COVR@, art_boxes(arts, src))
    }
}

/// A `covr` atom is no text and nothing binary.
proof fn covr_is_no_text(datas: Seq<Seq<u8>>)
    ensures
        data_pairs(COVR@, datas) == Seq::<(Seq<char>, Seq<char>)>::empty(),
    decreases datas.len(),
{
    assert(COVR@[0] == 0x63 && COVR@[1] == 0x6f && COVR@.len() == 4);
    not_a_text_atom(COVR@);
    assert(TRKN@[0] == 0x74 && DISK@[0] == 0x64);
    if datas.len() > 0 {
        covr_is_no_text(datas.drop_last());
        let t = seq![0x74u8, 0x6du8, 0x70u8, 0x6fu8];
        let c = seq![0x63u8, 0x70u8, 0x69u8, 0x6cu8];
        let g = seq![0x70u8, 0x67u8, 0x61u8, 0x70u8];
        assert(t[0] == 0x74 && c[1] == 0x70 && g[0] == 0x70);
        assert(data_pair(COVR@, datas.last()) is None);
    } else {
        assert(data_pairs(COVR@, datas) =~= Seq::empty());
    }
}

/// No images come back where none were written.
proof fn no_art_no_images(arts: Seq<ArtInput>, src: Sources)
    requires
        art_bytes(arts) == 0,
    ensures
        images_back(arts, src) == Seq::<(Seq<char>, Seq<u8>)>::empty(),
    decreases arts.len(),
{
    if arts.len() > 0 {
        art_bytes_nonneg(arts.drop_last());
        no_art_no_images(arts.drop_last(), src);
    } else {
        assert(images_back(arts, src) =~= Seq::empty());
    }
}

proof fn art_bytes_nonneg(arts: Seq<ArtInput>)
    ensures
        art_bytes(arts) >= 0,
    decreases arts.len(),
{
    if arts.len() > 0 {
        art_bytes_nonneg(arts.drop_last());
    }
}

/// The `covr` atom reads back as its images.
pub proof fn covr_reads(arts: Seq<ArtInput>, src: Sources)
    requires
        covr_atom(arts, src).len() <= MAX_BOX,
    ensures
        sealed(covr_atom(arts, src)),
        kid_pairs(kids(covr_atom(arts, src))) == Seq::<(Seq<char>, Seq<char>)>::empty(),
        kid_binaries(kids(covr_atom(arts, src))) == Seq::<(Seq<char>, Seq<u8>)>::empty(),
        crate::mp4::read::covr_images(bodies(kids(covr_atom(arts, src)), COVR@)) == images_back(
            arts,
            src,
        ),
{
    let all = covr_atom(arts, src);
    if art_bytes(arts) == 0 {
        no_kids(all);
        no_art_no_images(arts, src);
        assert(kid_pairs(kids(all)) =~= Seq::empty());
        assert(kid_binaries(kids(all)) =~= Seq::empty());
        assert(bodies(kids(all), COVR@) =~= Seq::empty());
    } else {
        let inner = art_boxes(arts, src);
        assert(COVR@.len() == 4 && FREEFORM@[0] != COVR@[0]);
        art_boxes_read(arts, src);
        payloads_are_bodies(inner, DATA@);
        covr_is_no_text(datas_of(inner));
        kids_of_box(COVR@, inner);
        one_kid_read(COVR@, inner);
        single_body(COVR@, inner, COVR@);
        let one = seq![inner];
        assert(one.drop_last() =~= Seq::empty());
        assert(one.last() == inner);
        let none = crate::mp4::read::covr_images(one.drop_last());
        assert(none =~= Seq::empty());
        assert(none + images_of(datas_of(inner)) =~= images_of(datas_of(inner)));
    }
}

/// The contents of an `ilst`, streamed payloads in place.
pub open spec fn ilst_contents(
    tags: Seq<TagInput>,
    binary_tags: Seq<BinaryTagInput>,
    arts: Seq<ArtInput>,
    src: Sources,
) -> Seq<u8> {
    group_atoms(groups_of(tags, false)) + binary_atoms(binary_tags, src) + covr_atom(arts, src)
}

/// The contents of an `ilst` read back: the text tags, the binary values and the images that
/// went in, and nothing else.
pub proof fn ilst_reads_back(
    tags: Seq<TagInput>,
    binary_tags: Seq<BinaryTagInput>,
    arts: Seq<ArtInput>,
    src: Sources,
)
    requires
        ilst_contents(tags, binary_tags, arts, src).len() <= MAX_BOX,
    ensures
        ({
            let d = ilst_contents(tags, binary_tags, arts, src);
            &&& atoms_pairs(boxes(d), d) == groups_back(groups_of(tags, false))
            &&& atoms_binaries(boxes(d), d) == binaries_back(binary_tags, src)
            &&& crate::mp4::read::covr_images(payloads(d, COVR@)) == images_back(arts, src)
        }),
{
    reveal(kids);
    let groups = groups_of(tags, false);
    let t = group_atoms(groups);
    let b = binary_atoms(binary_tags, src);
    let c = covr_atom(arts, src);
    let d = t + b + c;
    group_atoms_read(groups);
    binary_atoms_read(binary_tags, src);
    covr_reads(arts, src);
    kids_concat(t, b);
    sealed_concat(t, b);
    kids_concat(t + b, c);
    kid_reading_concat(kids(t), kids(b));
    kid_reading_concat(kids(t + b), kids(c));
    bodies_concat(kids(t), kids(b), COVR@);
    bodies_concat(kids(t + b), kids(c), COVR@);
    reading_goes_over_kids(boxes(d), d);
    payloads_are_bodies(d, COVR@);
    let np = Seq::<(Seq<char>, Seq<char>)>::empty();
    let nb = Seq::<(Seq<char>, Seq<u8>)>::empty();
    let ns = Seq::<Seq<u8>>::empty();
    assert(groups_back(groups) + np + np =~= groups_back(groups));
    assert(nb + binaries_back(binary_tags, src) + nb =~= binaries_back(binary_tags, src));
    assert(ns + ns + bodies(kids(c), COVR@) =~= bodies(kids(c), COVR@));
}

} // verus!
