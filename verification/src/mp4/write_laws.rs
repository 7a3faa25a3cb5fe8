//! What each group of values is written as in an iTunes list.

use crate::bytes::be16_bytes;
use crate::bytes::be32_bytes;
use crate::bytes::find_byte;
use crate::bytes::find_byte_finds;
use crate::bytes::find_byte_is;
use crate::mp3::frame_laws::number_of_text;
use crate::mp3::frame_laws::stands_for;
use crate::mp4::atoms::art_type;
use crate::mp4::atoms::boxed_bytes;
use crate::mp4::atoms::freeform_bytes;
use crate::mp4::atoms::group_atom;
use crate::mp4::atoms::group_atoms;
use crate::mp4::atoms::integer_data_body;
use crate::mp4::atoms::number16;
use crate::mp4::atoms::number_and_total;
use crate::mp4::atoms::number_data_body;
use crate::mp4::atoms::parse_freeform_key;
use crate::mp4::atoms::text_data_box;
use crate::mp4::atoms::text_data_boxes;
use crate::mp4::box_laws::a_box;
use crate::mp4::box_laws::four_big_endian;
use crate::mp4::value_laws::big_endian;
use crate::slot_laws::code;
use crate::tagmap::key_to_mp4;
use crate::tagmap::Mp4Slot;
use crate::text::ascii_bytes;
use crate::text::utf8;
use crate::text::utf8_concat;
use crate::text::utf8_injective;
use vstd::prelude::*;
use vstd::string::*;

verus! {

/// A value behind its type and the default locale.
pub open spec fn typed(t: int, value: Seq<u8>) -> Seq<u8> {
    big_endian(t, 4) + big_endian(0, 4) + value
}

/// The `data` boxes of texts.
pub open spec fn text_boxes(values: Seq<Seq<char>>) -> Seq<u8>
    decreases values.len(),
{
    if values.len() == 0 {
        Seq::empty()
    } else {
        a_box(code("data"@), typed(1, utf8(values[0]))) + text_boxes(values.drop_first())
    }
}

/// The sizes of the boxes fit.
pub open spec fn all_fit(values: Seq<Seq<char>>) -> bool {
    forall|i: int| 0 <= i < values.len() ==> utf8(#[trigger] values[i]).len() <= 0x1000_0000
}

proof fn write_codes()
    ensures
        code("data"@) == crate::mp4::boxes::DATA@,
        code("mean"@) == crate::mp4::boxes::MEAN@,
        code("name"@) == crate::mp4::boxes::NAME@,
        code("----"@) == crate::mp4::boxes::FREEFORM@,
{
    reveal_strlit("data");
    reveal_strlit("mean");
    reveal_strlit("name");
    reveal_strlit("----");
    assert(code("data"@) =~= crate::mp4::boxes::DATA@);
    assert(code("mean"@) =~= crate::mp4::boxes::MEAN@);
    assert(code("name"@) =~= crate::mp4::boxes::NAME@);
    assert(code("----"@) =~= crate::mp4::boxes::FREEFORM@);
}

proof fn box_written(kind: Seq<u8>, payload: Seq<u8>)
    requires
        8 + payload.len() <= u32::MAX,
    ensures
        boxed_bytes(kind, payload) == a_box(kind, payload),
{
    four_big_endian(8 + payload.len() as int);
}

proof fn typed_is(t: int, value: Seq<u8>)
    requires
        0 <= t <= 100,
    ensures
        typed(t, value) == be32_bytes(t) + be32_bytes(0) + value,
        typed(t, value).len() == 8 + value.len(),
{
    four_big_endian(t);
    four_big_endian(0);
}

proof fn texts_written(values: Seq<Seq<char>>)
    requires
        all_fit(values),
    ensures
        text_data_boxes(values) == text_boxes(values),
    decreases values.len(),
{
    if values.len() > 0 {
        let front = values.drop_last();
        assert(all_fit(front)) by {
            assert forall|i: int| 0 <= i < front.len() implies utf8(#[trigger] front[i]).len()
                <= 0x1000_0000 by {
                assert(front[i] == values[i]);
            }
        }
        texts_written(front);
        let v = values.last();
        assert(utf8(values[values.len() - 1]).len() <= 0x1000_0000);
        write_codes();
        typed_is(1, utf8(v));
        box_written(code("data"@), typed(1, utf8(v)));
        assert(text_data_box(v) == a_box(code("data"@), typed(1, utf8(v))));
        texts_push(front, v);
        assert(front.push(v) =~= values);
    }
}

proof fn texts_push(front: Seq<Seq<char>>, v: Seq<char>)
    ensures
        text_boxes(front.push(v)) == text_boxes(front) + a_box(code("data"@), typed(1, utf8(v))),
    decreases front.len(),
{
    let all = front.push(v);
    let b = a_box(code("data"@), typed(1, utf8(v)));
    if front.len() == 0 {
        assert(all.drop_first() =~= Seq::empty());
        reveal_with_fuel(text_boxes, 2);
        assert(text_boxes(all) =~= text_boxes(front) + b);
    } else {
        assert(all.drop_first() =~= front.drop_first().push(v));
        texts_push(front.drop_first(), v);
        assert(text_boxes(all) =~= text_boxes(front) + b);
    }
}

/// Text that is a number of sixteen bits, alone or with a total behind a slash.
pub open spec fn is_number(value: Seq<char>, n: int, m: int) -> bool {
    &&& 0 <= n <= 65535
    &&& 0 <= m <= 65535
    &&& {
        ||| stands_for(value, n) && m == 0
        ||| exists|a: Seq<char>, b: Seq<char>|
            value == #[trigger] (a + seq!['/'] + b) && stands_for(a, n) && stands_for(b, m)
    }
}

proof fn no_slash_in_number(a: Seq<char>, n: int)
    requires
        stands_for(a, n),
    ensures
        forall|k: int| 0 <= k < utf8(a).len() ==> #[trigger] utf8(a)[k] != 0x2f,
{
    assert(vstd::utf8::is_ascii_chars(a)) by {
        assert forall|i: int| 0 <= i < a.len() implies '\0' <= #[trigger] a[i] <= '\u{7f}' by {
            if a[0] == '+' && i > 0 {
                assert(a.skip(1)[i - 1] == a[i]);
            }
        }
    }
    ascii_bytes(a);
    assert forall|k: int| 0 <= k < utf8(a).len() implies #[trigger] utf8(a)[k] != 0x2f by {
        if a[0] == '+' && k > 0 {
            assert(a.skip(1)[k - 1] == a[k]);
        }
        assert(utf8(a)[k] == a[k] as u8);
        assert('0' <= a[k] <= '9' || a[k] == '+');
    }
}

/// What text holds as a number and a total.
proof fn numbers_told(value: Seq<char>, n: int, m: int)
    ensures
        is_number(value, n, m) ==> number_and_total(utf8(value)) == Some((n, m)),
        number_and_total(utf8(value)) == Some((n, m)) ==> is_number(value, n, m),
{
    let b = utf8(value);
    let at = find_byte(b, 0x2f, 0);
    find_byte_finds(b, 0x2f, 0);
    let slash = seq!['/'];
    ascii_bytes(slash);
    assert(utf8(slash) =~= seq![0x2fu8]);
    if is_number(value, n, m) {
        if stands_for(value, n) && m == 0 {
            no_slash_in_number(value, n);
            number_of_text(value, n);
            if at < b.len() {
                assert(b[at] == 0x2f);
            }
        } else {
            let (x, y) = choose|x: Seq<char>, y: Seq<char>|
                value == #[trigger] (x + seq!['/'] + y) && stands_for(x, n) && stands_for(y, m);
            no_slash_in_number(x, n);
            number_of_text(x, n);
            number_of_text(y, m);
            utf8_concat(x, slash);
            utf8_concat(x + slash, y);
            let k = utf8(x).len() as int;
            assert forall|i: int| 0 <= i < k implies b[i] != 0x2f by {
                assert(b[i] == utf8(x)[i]);
            }
            find_byte_is(b, 0x2f, 0, k);
            assert(b.subrange(0, k) =~= utf8(x));
            assert(b.subrange(k + 1, b.len() as int) =~= utf8(y));
        }
    }
    if number_and_total(b) == Some((n, m)) {
        if at < b.len() {
            vstd::utf8::encode_utf8_valid_utf8(value);
            crate::text::utf8_splits_at_ascii(b, at);
            let f = b.subrange(0, at);
            let l = b.subrange(at + 1, b.len() as int);
            let x = vstd::utf8::decode_utf8(f);
            let y = vstd::utf8::decode_utf8(l);
            vstd::utf8::decode_utf8_encode_utf8(f);
            vstd::utf8::decode_utf8_encode_utf8(l);
            utf8_concat(x, slash);
            utf8_concat(x + slash, y);
            assert(utf8(x + slash + y) =~= b);
            utf8_injective(x + slash + y, value);
            number_of_text(x, n);
            number_of_text(y, m);
            assert(value == x + seq!['/'] + y);
            number_is_not_negative(f);
            number_is_not_negative(l);
        } else {
            number_of_text(value, n);
            number_is_not_negative(b);
        }
    }
}

proof fn number_is_not_negative(b: Seq<u8>)
    ensures
        number16(b) is Some ==> 0 <= number16(b)->0 <= 65535,
{
    if crate::text::parsed_number(b) is Some {
        let s = if b.len() > 0 && b[0] == 0x2b {
            b.skip(1)
        } else {
            b
        };
        crate::text::digits_value_prefix(s, s.len() as int);
    }
}

/// One group of values by the place of its key. A text atom has a `data` box for each value. A
/// number atom has the first value where it is a number of sixteen bits, alone or with its
/// total, padded to its width, and an integer atom where it fits; otherwise there is no atom.
/// Anything else is a freeform atom, of iTunes where the key has no place. Groups are written in
/// order.
#[verifier::spinoff_prover]
#[verifier::rlimit(40)]
pub proof fn groups_are_written(
    key: &str,
    slot: Option<Mp4Slot>,
    front: Seq<(Seq<char>, Seq<Seq<char>>)>,
    values: Seq<Seq<char>>,
    n: int,
    m: int,
)
    requires
        call_ensures(key_to_mp4, (key,), slot),
        values.len() > 0,
        all_fit(values),
        text_boxes(values).len() <= 0x4000_0000,
        utf8(key@).len() <= 0x1000_0000,
    ensures
        group_atoms(front.push((key@, values))) == group_atoms(front) + group_atom(key@, values),
        group_atoms(Seq::empty()).len() == 0,
        match slot {
            Some(Mp4Slot::Text(kind)) => group_atom(key@, values) == a_box(
                kind@,
                text_boxes(values),
            ),
            Some(Mp4Slot::Number(kind, width)) => {
                &&& is_number(values[0], n, m) && (width == 6 || width == 8) ==> group_atom(
                    key@,
                    values,
                ) == a_box(
                    kind@,
                    a_box(
                        code("data"@),
                        typed(
                            0,
                            seq![0u8, 0u8] + big_endian(n, 2) + big_endian(m, 2) + if width == 8 {
                                seq![0u8, 0u8]
                            } else {
                                Seq::empty()
                            },
                        ),
                    ),
                )
                &&& (forall|i: int, j: int| !#[trigger] is_number(values[0], i, j)) ==> group_atom(
                    key@,
                    values,
                ).len() == 0
            },
            Some(Mp4Slot::Integer(kind, width)) => {
                &&& width == 1 && stands_for(values[0], n) && 0 <= n <= 255 ==> group_atom(
                    key@,
                    values,
                ) == a_box(kind@, a_box(code("data"@), typed(21, big_endian(n, 1))))
                &&& width == 2 && stands_for(values[0], n) && 0 <= n <= 65535 ==> group_atom(
                    key@,
                    values,
                ) == a_box(kind@, a_box(code("data"@), typed(21, big_endian(n, 2))))
                &&& stands_for(values[0], n) && (n > 65535 || width == 1 && n > 255)
                    ==> group_atom(key@, values).len() == 0
                &&& (forall|i: int| !#[trigger] stands_for(values[0], i)) ==> group_atom(
                    key@,
                    values,
                ).len() == 0
            },
            Some(Mp4Slot::Freeform(mean, name)) => group_atom(key@, values) == freeform_bytes(
                mean@,
                name@,
                values,
            ),
            None => group_atom(key@, values) == freeform_bytes("com.apple.iTunes"@, key@, values),
        },
{
    let more = front.push((key@, values));
    assert(more.drop_last() =~= front);
    texts_written(values);
    write_codes();
    assert(utf8(values[0]).len() <= 0x1000_0000);
    reveal_with_fuel(big_endian, 3);
    match slot {
        Some(Mp4Slot::Text(kind)) => {
            box_written(kind@, text_boxes(values));
        },
        Some(Mp4Slot::Number(kind, width)) => {
            numbers_told(values[0], n, m);
            if is_number(values[0], n, m) && (width == 6 || width == 8) {
                let v = seq![0u8, 0u8] + big_endian(n, 2) + big_endian(m, 2) + if width == 8 {
                    seq![0u8, 0u8]
                } else {
                    Seq::empty()
                };
                assert(big_endian(n, 2) =~= be16_bytes(n));
                assert(big_endian(m, 2) =~= be16_bytes(m));
                typed_is(0, v);
                assert(number_data_body(n, m, width as int) =~= typed(0, v));
                box_written(code("data"@), typed(0, v));
                four_big_endian(8 + typed(0, v).len() as int);
                box_written(kind@, a_box(code("data"@), typed(0, v)));
            }
            if forall|i: int, j: int| !#[trigger] is_number(values[0], i, j) {
                if let Some((i, j)) = number_and_total(utf8(values[0])) {
                    numbers_told(values[0], i, j);
                    assert(is_number(values[0], i, j));
                }
            }
        },
        Some(Mp4Slot::Integer(kind, width)) => {
            number_of_text(values[0], n);
            if stands_for(values[0], n) && 0 <= n <= 65535 {
                let v = if width == 1 {
                    big_endian(n, 1)
                } else {
                    big_endian(n, 2)
                };
                assert(big_endian(n, 2) =~= be16_bytes(n));
                assert(n <= 255 ==> big_endian(n, 1) =~= seq![n as u8]);
                typed_is(21, v);
                assert(n <= 255 || width != 1 ==> integer_data_body(n, width as int) =~= typed(
                    21,
                    v,
                ));
                box_written(code("data"@), typed(21, v));
                four_big_endian(8 + typed(21, v).len() as int);
                box_written(kind@, a_box(code("data"@), typed(21, v)));
            }
            if forall|i: int| !#[trigger] stands_for(values[0], i) {
                if let Some(i) = number16(utf8(values[0])) {
                    number_of_text(values[0], i);
                    assert(stands_for(values[0], i));
                }
            }
        },
        _ => {},
    }
}

/// A freeform atom: its mean, its name, and a `data` box for each value.
pub proof fn freeform_atoms_are_written(mean: Seq<char>, name: Seq<char>, values: Seq<Seq<char>>)
    requires
        all_fit(values),
        text_boxes(values).len() <= 0x4000_0000,
        utf8(mean).len() <= 0x1000_0000,
        utf8(name).len() <= 0x1000_0000,
    ensures
        freeform_bytes(mean, name, values) == a_box(
            code("----"@),
            a_box(code("mean"@), big_endian(0, 4) + utf8(mean)) + a_box(
                code("name"@),
                big_endian(0, 4) + utf8(name),
            ) + text_boxes(values),
        ),
{
    write_codes();
    texts_written(values);
    four_big_endian(0);
    let a = big_endian(0, 4) + utf8(mean);
    let b = big_endian(0, 4) + utf8(name);
    box_written(code("mean"@), a);
    box_written(code("name"@), b);
    four_big_endian(8 + a.len() as int);
    four_big_endian(8 + b.len() as int);
    let all = a_box(code("mean"@), a) + a_box(code("name"@), b) + text_boxes(values);
    box_written(code("----"@), all);
}

/// A binary key names a freeform atom: `----`, its mean and its name with colons between them.
/// The mean ends at the first colon.
pub proof fn binary_keys_are_split(
    key: &str,
    mean: Seq<char>,
    name: Seq<char>,
    r: Option<(&str, &str)>,
)
    requires
        call_ensures(parse_freeform_key, (key,), r),
    ensures
        key@ == "----:"@ + mean + ":"@ + name && !mean.contains(':') ==> match r {
            Some((m, n)) => m@ == mean && n@ == name,
            None => false,
        },
        !(key@.len() >= 5 && key@.take(5) == "----:"@) ==> r is None,
        key@.len() >= 5 && !key@.skip(5).contains(':') ==> r is None,
{
    let k = key@;
    let b = utf8(k);
    let pre = "----:"@;
    let colon = ":"@;
    reveal_strlit("----:");
    reveal_strlit(":");
    ascii_bytes(pre);
    ascii_bytes(colon);
    assert(colon =~= seq![':']);
    assert(utf8(colon) =~= seq![0x3au8]);
    assert(utf8(pre) =~= seq![0x2du8, 0x2du8, 0x2du8, 0x2du8, 0x3au8]);
    if k == pre + mean + colon + name && !mean.contains(':') {
        utf8_concat(pre, mean);
        utf8_concat(pre + mean, colon);
        utf8_concat(pre + mean + colon, name);
        assert(b =~= utf8(pre) + utf8(mean) + utf8(colon) + utf8(name));
        let rest = b.skip(5);
        assert(rest =~= utf8(mean) + utf8(colon) + utf8(name));
        no_colon(mean);
        let n = utf8(mean).len() as int;
        assert forall|i: int| 0 <= i < n implies rest[i] != 0x3a by {
            assert(rest[i] == utf8(mean)[i]);
        }
        find_byte_is(rest, 0x3a, 0, n);
        assert(rest.subrange(0, n) =~= utf8(mean));
        assert(rest.subrange(n + 1, rest.len() as int) =~= utf8(name));
        vstd::utf8::encode_utf8_decode_utf8(mean);
        vstd::utf8::encode_utf8_decode_utf8(name);
        assert(b.subrange(0, 4) =~= crate::mp4::boxes::FREEFORM@);
        assert(b[4] == 0x3a);
    }
    if r is Some {
        vstd::utf8::encode_utf8_valid_utf8(k);
        assert(b.subrange(0, 4)[0] == b[0] && b.subrange(0, 4)[1] == b[1] && b.subrange(0, 4)[2]
            == b[2] && b.subrange(0, 4)[3] == b[3]);
        crate::text::utf8_splits_at_ascii(b, 4);
        let after = b.subrange(5, b.len() as int);
        let t = vstd::utf8::decode_utf8(after);
        vstd::utf8::decode_utf8_encode_utf8(after);
        utf8_concat(pre, t);
        assert(utf8(pre + t) =~= b);
        utf8_injective(pre + t, k);
        assert(k.take(5) =~= pre);
        assert(k.skip(5) =~= t);
        assert(b.skip(5) =~= utf8(t));
        if !t.contains(':') {
            no_colon(t);
            find_byte_finds(b.skip(5), 0x3a, 0);
            let c = find_byte(b.skip(5), 0x3a, 0);
            assert(b.skip(5)[c] == 0x3a);
        }
    }
}

proof fn no_colon(s: Seq<char>)
    requires
        !s.contains(':'),
    ensures
        forall|k: int| 0 <= k < utf8(s).len() ==> #[trigger] utf8(s)[k] != 0x3a,
{
    let b = utf8(s);
    vstd::utf8::encode_utf8_valid_utf8(s);
    assert forall|k: int| 0 <= k < b.len() implies #[trigger] b[k] != 0x3a by {
        if b[k] == 0x3a {
            crate::text::utf8_splits_at_ascii(b, k);
            let front = b.subrange(0, k);
            let back = b.subrange(k + 1, b.len() as int);
            let f = vstd::utf8::decode_utf8(front);
            let l = vstd::utf8::decode_utf8(back);
            vstd::utf8::decode_utf8_encode_utf8(front);
            vstd::utf8::decode_utf8_encode_utf8(back);
            let sign = seq![':'];
            ascii_bytes(sign);
            utf8_concat(f, sign);
            utf8_concat(f + sign, l);
            assert(utf8(f + sign + l) =~= b);
            utf8_injective(f + sign + l, s);
            assert((f + sign + l)[f.len() as int] == ':');
        }
    }
}

/// PNG images have their own type; every other image is taken for JPEG.
pub proof fn image_types_are_written(mime: Seq<char>)
    ensures
        mime == "image/png"@ ==> art_type(mime) == 14,
        mime != "image/png"@ ==> art_type(mime) == 13,
{
}

} // verus!
