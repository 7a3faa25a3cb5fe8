//! The atoms of a regenerated `ilst`, and the user data around it.

use crate::bytes::append;
use crate::bytes::be16_bytes;
use crate::bytes::be32_bytes;
use crate::bytes::find_byte;
use crate::bytes::position_of;
use crate::bytes::push_u16_be;
use crate::bytes::push_u32_be;
use crate::bytes::same_bytes;
use crate::error::FormatError;
use crate::error::Result;
use crate::groups::group_tags;
use crate::groups::group_views;
use crate::groups::groups_of;
use crate::groups::texts;
use crate::groups::Group;
use crate::input::ArtInput;
use crate::input::BinaryTagInput;
use crate::input::BlobLen;
use crate::input::TagInput;
use crate::layout::draft_bytes;
use crate::layout::draft_bytes_add_up;
use crate::layout::drafted;
use crate::layout::empty_draft;
use crate::layout::seg_views;
use crate::layout::with_bytes;
use crate::layout::with_stream;
use crate::layout::Draft;
use crate::layout::DraftModel;
use crate::layout::SegView;
use crate::layout::Segment;
use crate::mp4::boxes::APPL;
use crate::mp4::boxes::COVR;
use crate::mp4::boxes::DATA;
use crate::mp4::boxes::FREEFORM;
use crate::mp4::boxes::HDLR;
use crate::mp4::boxes::ILST;
use crate::mp4::boxes::MDIR;
use crate::mp4::boxes::MEAN;
use crate::mp4::boxes::META;
use crate::mp4::boxes::NAME;
use crate::mp4::boxes::UDTA;
use crate::mp4::read::ITUNES_MEAN;
use crate::mp4::strip::MAX_BOX;
use crate::tagmap::key_to_mp4;
use crate::tagmap::mp4_slot_of;
use crate::tagmap::Mp4Model;
use crate::tagmap::Mp4Slot;
use crate::text::parse_number;
use crate::text::parsed_number;
use crate::text::same_text;
use crate::text::utf8;
use crate::text::utf8_splits_at_ascii;
use crate::text::utf8_text;
use vstd::prelude::*;
use vstd::slice::slice_subrange;
use vstd::string::*;
use vstd::utf8::*;

verus! {

/// A box of type `kind` around `payload`.
pub open spec fn boxed_bytes(kind: Seq<u8>, payload: Seq<u8>) -> Seq<u8> {
    be32_bytes((8 + payload.len()) as int) + kind + payload
}

/// A box of type `kind` around `payload`; `TooLarge` where its size does not fit 32 bits.
pub fn boxed(kind: &[u8; 4], payload: &[u8]) -> (r: Result<Vec<u8>>)
    ensures
        match r {
            Ok(v) => 8 + payload@.len() <= MAX_BOX && v@ == boxed_bytes(kind@, payload@),
            Err(e) => e == FormatError::TooLarge && 8 + payload@.len() > MAX_BOX,
        },
{
    let n: u64 = payload.len() as u64;
    if n > MAX_BOX - 8 {
        return Err(FormatError::TooLarge);
    }
    let mut v: Vec<u8> = Vec::new();
    push_u32_be(&mut v, (n + 8) as u32);
    append(&mut v, kind.as_slice());
    append(&mut v, payload);
    assert(v@ =~= boxed_bytes(kind@, payload@));
    Ok(v)
}

/// The payload of a UTF-8 `data` sub-box: type 1, locale 0, the value.
pub open spec fn text_data_body(value: Seq<char>) -> Seq<u8> {
    be32_bytes(1) + be32_bytes(0) + utf8(value)
}

/// A UTF-8 `data` sub-box.
pub open spec fn text_data_box(value: Seq<char>) -> Seq<u8> {
    boxed_bytes(DATA@, text_data_body(value))
}

/// One UTF-8 `data` sub-box for each value.
pub open spec fn text_data_boxes(values: Seq<Seq<char>>) -> Seq<u8>
    decreases values.len(),
{
    if values.len() == 0 {
        Seq::empty()
    } else {
        text_data_boxes(values.drop_last()) + text_data_box(values.last())
    }
}

proof fn text_data_boxes_grow(values: Seq<Seq<char>>, n: int)
    requires
        0 <= n <= values.len(),
    ensures
        text_data_boxes(values.take(n)).len() <= text_data_boxes(values).len(),
    decreases values.len(),
{
    if n == values.len() {
        assert(values.take(n) =~= values);
    } else {
        text_data_boxes_grow(values.drop_last(), n);
        assert(values.drop_last().take(n) =~= values.take(n));
    }
}

/// A UTF-8 `data` sub-box: a type tag of 1 (UTF-8), a locale of 0, then
/// the value bytes, wrapped as a `data` box.
fn utf8_data_box(value: &str) -> (r: Result<Vec<u8>>)
    ensures
        match r {
            Ok(v) => v@ == text_data_box(value@),
            Err(e) => e == FormatError::TooLarge && text_data_box(value@).len() > MAX_BOX,
        },
{
    let mut data: Vec<u8> = Vec::new();
    push_u32_be(&mut data, 1);
    push_u32_be(&mut data, 0);
    append(&mut data, value.as_bytes());
    assert(data@ =~= text_data_body(value@));
    boxed(&DATA, data.as_slice())
}

/// Append one UTF-8 `data` sub-box for each value.
fn push_text_datas(out: &mut Vec<u8>, values: &Vec<String>) -> (r: Result<()>)
    ensures
        match r {
            Ok(_) => final(out)@ == old(out)@ + text_data_boxes(texts(values@)),
            Err(e) => e == FormatError::TooLarge && text_data_boxes(texts(values@)).len() > MAX_BOX,
        },
{
    let ghost start = out@;
    let ghost all = texts(values@);
    let mut i: usize = 0;
    assert(start + text_data_boxes(all.take(0)) =~= start);
    while i < values.len()
        invariant
            i <= values@.len(),
            all == texts(values@),
            out@ == start + text_data_boxes(all.take(i as int)),
        decreases values@.len() - i,
    {
        assert(all.take(i + 1).drop_last() =~= all.take(i as int));
        assert(all.take(i + 1).last() == values@[i as int]@);
        match utf8_data_box(values[i].as_str()) {
            Ok(b) => append(out, b.as_slice()),
            Err(e) => {
                proof {
                    text_data_boxes_grow(all, i + 1);
                }
                return Err(e);
            },
        }
        assert(out@ =~= start + text_data_boxes(all.take(i + 1)));
        i = i + 1;
    }
    assert(all.take(i as int) =~= all);
    Ok(())
}

/// A text atom.
pub open spec fn text_atom_bytes(kind: Seq<u8>, values: Seq<Seq<char>>) -> Seq<u8> {
    boxed_bytes(kind, text_data_boxes(values))
}

/// A text atom: one UTF-8 `data` sub-box for each value.
fn text_atom(kind: &[u8; 4], values: &Vec<String>) -> (r: Result<Vec<u8>>)
    ensures
        match r {
            Ok(v) => v@ == text_atom_bytes(kind@, texts(values@)),
            Err(e) => e == FormatError::TooLarge && text_atom_bytes(kind@, texts(values@)).len()
                > MAX_BOX,
        },
{
    let mut inner: Vec<u8> = Vec::new();
    match push_text_datas(&mut inner, values) {
        Ok(_) => {},
        Err(e) => {
            return Err(e);
        },
    }
    assert(inner@ =~= text_data_boxes(texts(values@)));
    boxed(kind, inner.as_slice())
}

/// A number that fits 16 bits.
pub open spec fn number16(b: Seq<u8>) -> Option<int> {
    match parsed_number(b) {
        Some(n) if n <= 0xffff => Some(n),
        _ => None,
    }
}

/// The number and the total of a text `N` or `N/M`.
pub open spec fn number_and_total(b: Seq<u8>) -> Option<(int, int)> {
    let slash = find_byte(b, 0x2f, 0);
    if slash < b.len() {
        match (number16(b.subrange(0, slash)), number16(b.subrange(slash + 1, b.len() as int))) {
            (Some(n), Some(m)) => Some((n, m)),
            _ => None,
        }
    } else {
        match number16(b) {
            Some(n) => Some((n, 0)),
            None => None,
        }
    }
}

/// A number that fits 16 bits.
fn read_number16(b: &[u8]) -> (r: Option<u16>)
    ensures
        match r {
            Some(n) => number16(b@) == Some(n as int),
            None => number16(b@) is None,
        },
{
    match parse_number(b) {
        Some(n) if n <= 0xffff => Some(n as u16),
        _ => None,
    }
}

/// The number and the total of a text `N` or `N/M`; without a total it is 0.
fn read_number_and_total(b: &[u8]) -> (r: Option<(u16, u16)>)
    ensures
        match r {
            Some((n, m)) => number_and_total(b@) == Some((n as int, m as int)),
            None => number_and_total(b@) is None,
        },
{
    let slash = position_of(b, 0x2f);
    let len: usize = b.len();
    if slash < len {
        match (
            read_number16(slice_subrange(b, 0, slash)),
            read_number16(slice_subrange(b, slash + 1, len)),
        ) {
            (Some(n), Some(m)) => Some((n, m)),
            _ => None,
        }
    } else {
        match read_number16(b) {
            Some(n) => Some((n, 0)),
            None => None,
        }
    }
}

/// The payload of the `data` sub-box of a number atom: type 0 (binary), locale 0, then
/// `[reserved 2][number 2][total 2]`, filled up to `width`.
pub open spec fn number_data_body(n: int, m: int, width: int) -> Seq<u8> {
    be32_bytes(0) + be32_bytes(0) + seq![0u8, 0u8] + be16_bytes(n) + be16_bytes(m) + Seq::new(
        (if width > 6 {
            width - 6
        } else {
            0
        }) as nat,
        |i: int| 0u8,
    )
}

/// A number atom.
pub open spec fn number_atom_bytes(kind: Seq<u8>, n: int, m: int, width: int) -> Seq<u8> {
    boxed_bytes(kind, boxed_bytes(DATA@, number_data_body(n, m, width)))
}

/// A number atom (`trkn`/`disk`) whose value has `width` bytes.
fn number_atom(kind: &[u8; 4], n: u16, m: u16, width: usize) -> (r: Result<Vec<u8>>)
    ensures
        match r {
            Ok(v) => v@ == number_atom_bytes(kind@, n as int, m as int, width as int),
            Err(e) => e == FormatError::TooLarge && number_atom_bytes(
                kind@,
                n as int,
                m as int,
                width as int,
            ).len() > MAX_BOX,
        },
{
    let mut data: Vec<u8> = Vec::new();
    push_u32_be(&mut data, 0);
    push_u32_be(&mut data, 0);
    data.push(0);
    data.push(0);
    push_u16_be(&mut data, n);
    push_u16_be(&mut data, m);
    let ghost head = data@;
    let mut filled: usize = 6;
    while filled < width
        invariant
            6 <= filled,
            filled <= width || filled == 6,
            data@ == head + Seq::new((filled - 6) as nat, |i: int| 0u8),
        decreases width - filled,
    {
        let ghost before = data@;
        data.push(0);
        assert(data@ =~= head + Seq::new((filled + 1 - 6) as nat, |i: int| 0u8));
        filled = filled + 1;
    }
    assert(data@ =~= number_data_body(n as int, m as int, width as int));
    match boxed(&DATA, data.as_slice()) {
        Ok(d) => boxed(kind, d.as_slice()),
        Err(e) => Err(e),
    }
}

/// The largest value of an integer atom of `width` bytes.
pub open spec fn integer_limit(width: int) -> int {
    if width == 1 {
        0xff
    } else {
        0xffff
    }
}

/// The payload of the `data` sub-box of an integer atom: type 21 (integer), locale 0, then
/// the value in one or two bytes.
pub open spec fn integer_data_body(n: int, width: int) -> Seq<u8> {
    be32_bytes(21) + be32_bytes(0) + if width == 1 {
        seq![n as u8]
    } else {
        be16_bytes(n)
    }
}

/// An integer atom.
pub open spec fn integer_atom_bytes(kind: Seq<u8>, n: int, width: int) -> Seq<u8> {
    boxed_bytes(kind, boxed_bytes(DATA@, integer_data_body(n, width)))
}

/// An integer atom (`tmpo`/`cpil`/`pgap`).
fn integer_atom(kind: &[u8; 4], n: u16, width: usize) -> (r: Result<Vec<u8>>)
    requires
        n <= integer_limit(width as int),
    ensures
        match r {
            Ok(v) => v@ == integer_atom_bytes(kind@, n as int, width as int),
            Err(e) => false,
        },
{
    let mut data: Vec<u8> = Vec::new();
    push_u32_be(&mut data, 21);
    push_u32_be(&mut data, 0);
    if width == 1 {
        data.push(n as u8);
    } else {
        push_u16_be(&mut data, n);
    }
    assert(data@ =~= integer_data_body(n as int, width as int));
    match boxed(&DATA, data.as_slice()) {
        Ok(d) => boxed(kind, d.as_slice()),
        Err(e) => Err(e),
    }
}

/// A `mean` or `name` sub-box: a 4-byte FullBox prefix, then the text.
pub open spec fn full_text_box(kind: Seq<u8>, text: Seq<char>) -> Seq<u8> {
    boxed_bytes(kind, be32_bytes(0) + utf8(text))
}

/// A `mean` or `name` sub-box.
fn full_text(kind: &[u8; 4], text: &str) -> (r: Result<Vec<u8>>)
    ensures
        match r {
            Ok(v) => v@ == full_text_box(kind@, text@),
            Err(e) => e == FormatError::TooLarge && full_text_box(kind@, text@).len() > MAX_BOX,
        },
{
    let mut body: Vec<u8> = Vec::new();
    push_u32_be(&mut body, 0);
    append(&mut body, text.as_bytes());
    assert(body@ =~= be32_bytes(0) + utf8(text@));
    boxed(kind, body.as_slice())
}

/// What a freeform atom begins with: its `mean` and its `name`.
pub open spec fn freeform_head(mean: Seq<char>, name: Seq<char>) -> Seq<u8> {
    full_text_box(MEAN@, mean) + full_text_box(NAME@, name)
}

/// What a freeform atom begins with.
fn freeform_front(mean: &str, name: &str) -> (r: Result<Vec<u8>>)
    ensures
        match r {
            Ok(v) => v@ == freeform_head(mean@, name@),
            Err(e) => e == FormatError::TooLarge && freeform_head(mean@, name@).len() > MAX_BOX,
        },
{
    let mut out: Vec<u8> = match full_text(&MEAN, mean) {
        Ok(v) => v,
        Err(e) => {
            return Err(e);
        },
    };
    match full_text(&NAME, name) {
        Ok(v) => append(&mut out, v.as_slice()),
        Err(e) => {
            return Err(e);
        },
    }
    Ok(out)
}

/// A text freeform atom.
pub open spec fn freeform_bytes(
    mean: Seq<char>,
    name: Seq<char>,
    values: Seq<Seq<char>>,
) -> Seq<u8> {
    boxed_bytes(FREEFORM@, freeform_head(mean, name) + text_data_boxes(values))
}

/// A `----` freeform atom: a `mean` and `name` sub-box (each with a 4-byte
/// FullBox prefix) followed by one UTF-8 `data` sub-box per value.
fn freeform_atom(mean: &str, name: &str, values: &Vec<String>) -> (r: Result<Vec<u8>>)
    ensures
        match r {
            Ok(v) => v@ == freeform_bytes(mean@, name@, texts(values@)),
            Err(e) => e == FormatError::TooLarge && freeform_bytes(
                mean@,
                name@,
                texts(values@),
            ).len() > MAX_BOX,
        },
{
    let mut inner: Vec<u8> = match freeform_front(mean, name) {
        Ok(v) => v,
        Err(e) => {
            return Err(e);
        },
    };
    match push_text_datas(&mut inner, values) {
        Ok(_) => {},
        Err(e) => {
            return Err(e);
        },
    }
    boxed(&FREEFORM, inner.as_slice())
}

/// The atom of one group of values. A number or an integer is written for the first value
/// alone, and not at all where that is none.
pub open spec fn group_atom(key: Seq<char>, values: Seq<Seq<char>>) -> Seq<u8> {
    match mp4_slot_of(key) {
        Some(Mp4Model::Text(atom)) => text_atom_bytes(atom, values),
        Some(Mp4Model::Number(atom, width)) => match number_and_total(utf8(values[0])) {
            Some((n, m)) if values.len() > 0 => number_atom_bytes(atom, n, m, width),
            _ => Seq::empty(),
        },
        Some(Mp4Model::Integer(atom, width)) => match number16(utf8(values[0])) {
            Some(n) if values.len() > 0 && n <= integer_limit(width) => integer_atom_bytes(
                atom,
                n,
                width,
            ),
            _ => Seq::empty(),
        },
        Some(Mp4Model::Freeform(mean, name)) => freeform_bytes(mean, name, values),
        None => freeform_bytes(ITUNES_MEAN@, key, values),
    }
}

/// The atoms of groups of values.
pub open spec fn group_atoms(groups: Seq<(Seq<char>, Seq<Seq<char>>)>) -> Seq<u8>
    decreases groups.len(),
{
    if groups.len() == 0 {
        Seq::empty()
    } else {
        group_atoms(groups.drop_last()) + group_atom(groups.last().0, groups.last().1)
    }
}

proof fn group_atoms_grow(groups: Seq<(Seq<char>, Seq<Seq<char>>)>, n: int)
    requires
        0 <= n <= groups.len(),
    ensures
        group_atoms(groups.take(n)).len() <= group_atoms(groups).len(),
    decreases groups.len(),
{
    if n == groups.len() {
        assert(groups.take(n) =~= groups);
    } else {
        group_atoms_grow(groups.drop_last(), n);
        assert(groups.drop_last().take(n) =~= groups.take(n));
    }
}

/// Append the atom of one group.
fn push_group_atom(out: &mut Vec<u8>, g: &Group) -> (r: Result<()>)
    ensures
        match r {
            Ok(_) => final(out)@ == old(out)@ + group_atom(g.key@, texts(g.values@)),
            Err(e) => e == FormatError::TooLarge && group_atom(g.key@, texts(g.values@)).len()
                > MAX_BOX,
        },
{
    let ghost start = out@;
    let ghost values = texts(g.values@);
    proof {
        if g.values@.len() > 0 {
            assert(values[0] == g.values@[0]@);
        }
    }
    let made = match key_to_mp4(g.key.as_str()) {
        Some(Mp4Slot::Text(atom)) => text_atom(&atom, &g.values),
        Some(Mp4Slot::Number(atom, width)) => {
            if g.values.len() == 0 {
                assert(start + Seq::<u8>::empty() =~= start);
                return Ok(());
            }
            match read_number_and_total(g.values[0].as_str().as_bytes()) {
                Some((n, m)) => number_atom(&atom, n, m, width),
                None => {
                    assert(start + Seq::<u8>::empty() =~= start);
                    return Ok(());
                },
            }
        },
        Some(Mp4Slot::Integer(atom, width)) => {
            if g.values.len() == 0 {
                assert(start + Seq::<u8>::empty() =~= start);
                return Ok(());
            }
            let limit: u16 = if width == 1 {
                0xff
            } else {
                0xffff
            };
            match read_number16(g.values[0].as_str().as_bytes()) {
                Some(n) => {
                    if n > limit {
                        assert(start + Seq::<u8>::empty() =~= start);
                        return Ok(());
                    }
                    integer_atom(&atom, n, width)
                },
                None => {
                    assert(start + Seq::<u8>::empty() =~= start);
                    return Ok(());
                },
            }
        },
        Some(Mp4Slot::Freeform(mean, name)) => freeform_atom(mean, name, &g.values),
        None => freeform_atom(ITUNES_MEAN, g.key.as_str(), &g.values),
    };
    match made {
        Ok(v) => {
            append(out, v.as_slice());
            Ok(())
        },
        Err(e) => Err(e),
    }
}

/// The text atoms of tags.
pub open spec fn tag_atoms(tags: Seq<TagInput>) -> Seq<u8> {
    group_atoms(groups_of(tags, false))
}

/// The text atoms of tags: values of one key that follow each other share an atom.
fn build_tag_atoms(tags: &[TagInput]) -> (r: Result<Vec<u8>>)
    ensures
        match r {
            Ok(v) => v@ == tag_atoms(tags@),
            Err(e) => e == FormatError::TooLarge && tag_atoms(tags@).len() > MAX_BOX,
        },
{
    let groups = group_tags(tags, false);
    let ghost all = group_views(groups@);
    let mut out: Vec<u8> = Vec::new();
    let mut i: usize = 0;
    assert(out@ =~= group_atoms(all.take(0)));
    while i < groups.len()
        invariant
            i <= groups@.len(),
            all == group_views(groups@),
            all == groups_of(tags@, false),
            out@ == group_atoms(all.take(i as int)),
        decreases groups@.len() - i,
    {
        assert(all.take(i + 1).drop_last() =~= all.take(i as int));
        assert(all.take(i + 1).last() == (
            groups@[i as int].key@,
            texts(groups@[i as int].values@),
        ));
        match push_group_atom(&mut out, &groups[i]) {
            Ok(_) => {},
            Err(e) => {
                proof {
                    group_atoms_grow(all, i + 1);
                }
                return Err(e);
            },
        }
        i = i + 1;
    }
    assert(all.take(i as int) =~= all);
    Ok(out)
}

/// The mean and the name of a key `----:<mean>:<name>`, given its UTF-8 bytes. The name may
/// hold further colons.
pub open spec fn freeform_parts(b: Seq<u8>) -> Option<(Seq<char>, Seq<char>)> {
    let rest = b.skip(5);
    let colon = find_byte(rest, 0x3a, 0);
    if b.len() >= 5 && b.subrange(0, 4) == FREEFORM@ && b[4] == 0x3a && colon < rest.len() {
        Some(
            (
                decode_utf8(rest.subrange(0, colon)),
                decode_utf8(rest.subrange(colon + 1, rest.len() as int)),
            ),
        )
    } else {
        None
    }
}

/// Parse a `----:<mean>:<name>` opaque key back into `(mean, name)`. `name` may
/// contain `:` (only the first separator splits). `None` if not a freeform key.
pub fn parse_freeform_key(key: &str) -> (r: Option<(&str, &str)>)
    ensures
        match r {
            Some((m, n)) => freeform_parts(utf8(key@)) == Some((m@, n@)),
            None => freeform_parts(utf8(key@)) is None,
        },
{
    let b = key.as_bytes();
    let len: usize = b.len();
    if len < 5 || !same_bytes(slice_subrange(b, 0, 4), FREEFORM.as_slice()) || b[4] != 0x3a {
        return None;
    }
    let rest = slice_subrange(b, 5, len);
    assert(rest@ =~= b@.skip(5));
    let colon = position_of(rest, 0x3a);
    if colon == rest.len() {
        return None;
    }
    proof {
        encode_utf8_valid_utf8(key@);
        utf8_splits_at_ascii(b@, 4);
        assert(b@.subrange(5, b@.len() as int) =~= rest@);
        crate::bytes::find_byte_finds(rest@, 0x3a, 0);
        utf8_splits_at_ascii(rest@, colon as int);
    }
    match (
        utf8_text(slice_subrange(rest, 0, colon)),
        utf8_text(slice_subrange(rest, colon + 1, rest.len())),
    ) {
        (Some(m), Some(n)) => Some((m, n)),
        _ => None,
    }
}

/// What stands before the `n` bytes of a binary freeform value.
pub open spec fn binary_front(mean: Seq<char>, name: Seq<char>, n: int) -> Seq<u8> {
    let head = freeform_head(mean, name);
    be32_bytes(8 + head.len() + 16 + n) + FREEFORM@ + head + be32_bytes(16 + n) + DATA@
        + be32_bytes(0) + be32_bytes(0)
}

/// Inline framing for an opaque binary `----` atom whose `data` value
/// (`payload_len` bytes) streams next:
/// `[---- size][----][mean box][name box][data size][data][type 0][locale 0]`.
/// Mirrors a text freeform atom but has type code 0 (binary) and no value bytes: the
/// value is served from the store as a `Segment::BinaryTag`.
pub fn freeform_binary_prefix(mean: &str, name: &str, payload_len: u64) -> (r: Result<Vec<u8>>)
    ensures
        ({
            let size = binary_front(mean@, name@, payload_len as int).len() + payload_len;
            match r {
                Ok(v) => size <= MAX_BOX && v@ == binary_front(mean@, name@, payload_len as int),
                Err(e) => e == FormatError::TooLarge && size > MAX_BOX,
            }
        }),
{
    let head = match freeform_front(mean, name) {
        Ok(v) => v,
        Err(e) => {
            return Err(e);
        },
    };
    let n: u64 = head.len() as u64;
    if n > MAX_BOX - 24 || payload_len > MAX_BOX - 24 - n {
        return Err(FormatError::TooLarge);
    }
    let mut out: Vec<u8> = Vec::new();
    push_u32_be(&mut out, (8 + n + 16 + payload_len) as u32);
    append(&mut out, FREEFORM.as_slice());
    append(&mut out, head.as_slice());
    push_u32_be(&mut out, (16 + payload_len) as u32);
    append(&mut out, DATA.as_slice());
    push_u32_be(&mut out, 0);
    push_u32_be(&mut out, 0);
    assert(out@ =~= binary_front(mean@, name@, payload_len as int));
    Ok(out)
}

/// A draft followed by the binary freeform values. One whose key is not a freeform key, or
/// that is empty, is left out.
pub open spec fn with_binary_atoms(d: DraftModel, tags: Seq<BinaryTagInput>) -> DraftModel
    decreases tags.len(),
{
    if tags.len() == 0 {
        d
    } else {
        let before = with_binary_atoms(d, tags.drop_last());
        let bt = tags.last();
        match freeform_parts(utf8(bt.key@)) {
            Some((mean, name)) if bt.len > 0 => with_stream(
                with_bytes(before, binary_front(mean, name, bt.len as int)),
                SegView::BinaryTag { payload_id: bt.payload_id, len: bt.len as int },
            ),
            _ => before,
        }
    }
}

/// How many bytes the images of arts come to, each with its `data` header.
pub open spec fn art_bytes(arts: Seq<ArtInput>) -> int
    decreases arts.len(),
{
    if arts.len() == 0 {
        0
    } else {
        art_bytes(arts.drop_last()) + if arts.last().data_len > 0 {
            16 + arts.last().data_len
        } else {
            0
        }
    }
}

/// The `data` type code of an image.
pub open spec fn art_type(mime: Seq<char>) -> int {
    if mime == "image/png"@ {
        14
    } else {
        13
    }
}

/// What stands before an image.
pub open spec fn art_front(art: ArtInput) -> Seq<u8> {
    be32_bytes(16 + art.data_len) + DATA@ + be32_bytes(art_type(art.mime@)) + be32_bytes(0)
}

/// A draft followed by images, each behind its `data` header. An empty image is left out.
pub open spec fn with_art_datas(d: DraftModel, arts: Seq<ArtInput>) -> DraftModel
    decreases arts.len(),
{
    if arts.len() == 0 {
        d
    } else {
        let before = with_art_datas(d, arts.drop_last());
        let art = arts.last();
        if art.data_len > 0 {
            with_stream(
                with_bytes(before, art_front(art)),
                SegView::ArtImage { art_id: art.art_id, len: art.data_len as int },
            )
        } else {
            before
        }
    }
}

/// A draft followed by the `covr` atom, if there is any image.
pub open spec fn with_covr(d: DraftModel, arts: Seq<ArtInput>) -> DraftModel {
    if art_bytes(arts) == 0 {
        d
    } else {
        with_art_datas(with_bytes(d, be32_bytes(8 + art_bytes(arts)) + COVR@), arts)
    }
}

/// A draft followed by the contents of an `ilst`: text atoms, binary values, images.
pub open spec fn with_ilst(
    d: DraftModel,
    tags: Seq<TagInput>,
    binary_tags: Seq<BinaryTagInput>,
    arts: Seq<ArtInput>,
) -> DraftModel {
    with_covr(with_binary_atoms(with_bytes(d, tag_atoms(tags)), binary_tags), arts)
}

/// How many bytes the contents of an `ilst` come to.
pub open spec fn ilst_bytes(
    tags: Seq<TagInput>,
    binary_tags: Seq<BinaryTagInput>,
    arts: Seq<ArtInput>,
) -> int {
    draft_bytes(with_ilst(empty_draft(), tags, binary_tags, arts))
}

/// The handler box of iTunes metadata.
pub open spec fn itunes_hdlr() -> Seq<u8> {
    boxed_bytes(
        HDLR@,
        Seq::new(8, |i: int| 0u8) + MDIR@ + APPL@ + Seq::new(9, |i: int| 0u8),
    )
}

/// What stands before the contents of the `ilst`, for contents of `n` bytes and `tail` bytes
/// of user data behind the `meta`.
pub open spec fn udta_front(n: int, tail: int) -> Seq<u8> {
    be32_bytes(8 + (8 + (4 + 33 + (8 + n))) + tail) + UDTA@ + be32_bytes(8 + (4 + 33 + (8 + n)))
        + META@ + be32_bytes(0) + itunes_hdlr() + be32_bytes(8 + n) + ILST@
}

/// How many bytes the user data comes to.
pub open spec fn udta_bytes(
    tags: Seq<TagInput>,
    binary_tags: Seq<BinaryTagInput>,
    arts: Seq<ArtInput>,
    chapters: Seq<u8>,
) -> int {
    61 + ilst_bytes(tags, binary_tags, arts) + chapters.len()
}

/// A draft followed by the user data: `meta` with its `ilst`, then the chapter list, if
/// there is one.
pub open spec fn with_udta(
    d: DraftModel,
    tags: Seq<TagInput>,
    binary_tags: Seq<BinaryTagInput>,
    arts: Seq<ArtInput>,
    chapters: Seq<u8>,
) -> DraftModel {
    with_bytes(
        with_ilst(
            with_bytes(
                d,
                udta_front(ilst_bytes(tags, binary_tags, arts), chapters.len() as int),
            ),
            tags,
            binary_tags,
            arts,
        ),
        chapters,
    )
}

/// The binary values add the same number of bytes to any draft, and more of them add more.
proof fn binary_atoms_add(d: DraftModel, e: DraftModel, tags: Seq<BinaryTagInput>)
    ensures
        draft_bytes(with_binary_atoms(d, tags)) - draft_bytes(d) == draft_bytes(
            with_binary_atoms(e, tags),
        ) - draft_bytes(e),
        draft_bytes(with_binary_atoms(d, tags)) >= draft_bytes(d),
    decreases tags.len(),
{
    if tags.len() > 0 {
        binary_atoms_add(d, e, tags.drop_last());
        let bt = tags.last();
        let s = SegView::BinaryTag { payload_id: bt.payload_id, len: bt.len as int };
        if let Some((mean, name)) = freeform_parts(utf8(bt.key@)) {
            let f = binary_front(mean, name, bt.len as int);
            let x = with_binary_atoms(d, tags.drop_last());
            let y = with_binary_atoms(e, tags.drop_last());
            draft_bytes_add_up(x, f, s);
            draft_bytes_add_up(with_bytes(x, f), f, s);
            draft_bytes_add_up(y, f, s);
            draft_bytes_add_up(with_bytes(y, f), f, s);
        }
    }
}

proof fn binary_atoms_grow(d: DraftModel, tags: Seq<BinaryTagInput>, n: int)
    requires
        0 <= n <= tags.len(),
    ensures
        draft_bytes(with_binary_atoms(d, tags.take(n))) <= draft_bytes(with_binary_atoms(d, tags)),
    decreases tags.len(),
{
    if n == tags.len() {
        assert(tags.take(n) =~= tags);
    } else {
        binary_atoms_grow(d, tags.drop_last(), n);
        assert(tags.drop_last().take(n) =~= tags.take(n));
        let bt = tags.last();
        let s = SegView::BinaryTag { payload_id: bt.payload_id, len: bt.len as int };
        if let Some((mean, name)) = freeform_parts(utf8(bt.key@)) {
            let f = binary_front(mean, name, bt.len as int);
            let x = with_binary_atoms(d, tags.drop_last());
            draft_bytes_add_up(x, f, s);
            draft_bytes_add_up(with_bytes(x, f), f, s);
        }
    }
}

/// Images add their bytes to a draft.
proof fn art_datas_add(d: DraftModel, arts: Seq<ArtInput>)
    ensures
        draft_bytes(with_art_datas(d, arts)) == draft_bytes(d) + art_bytes(arts),
        art_bytes(arts) >= 0,
    decreases arts.len(),
{
    if arts.len() > 0 {
        art_datas_add(d, arts.drop_last());
        let art = arts.last();
        let f = art_front(art);
        let s = SegView::ArtImage { art_id: art.art_id, len: art.data_len as int };
        let x = with_art_datas(d, arts.drop_last());
        draft_bytes_add_up(x, f, s);
        draft_bytes_add_up(with_bytes(x, f), f, s);
    }
}

/// How many bytes the `covr` atom comes to.
pub open spec fn covr_bytes(arts: Seq<ArtInput>) -> int {
    if art_bytes(arts) == 0 {
        0
    } else {
        8 + art_bytes(arts)
    }
}

/// How many bytes the binary values come to.
pub open spec fn binary_atom_bytes(tags: Seq<BinaryTagInput>) -> int {
    draft_bytes(with_binary_atoms(empty_draft(), tags))
}

/// The contents of an `ilst` add the same number of bytes to any draft: those of the text
/// atoms, of the binary values and of the `covr` atom.
pub proof fn ilst_adds(
    d: DraftModel,
    tags: Seq<TagInput>,
    binary_tags: Seq<BinaryTagInput>,
    arts: Seq<ArtInput>,
)
    ensures
        draft_bytes(with_ilst(d, tags, binary_tags, arts)) == draft_bytes(d) + ilst_bytes(
            tags,
            binary_tags,
            arts,
        ),
        ilst_bytes(tags, binary_tags, arts) == tag_atoms(tags).len() + binary_atom_bytes(
            binary_tags,
        ) + covr_bytes(arts),
        binary_atom_bytes(binary_tags) >= 0,
        art_bytes(arts) >= 0,
{
    let t = tag_atoms(tags);
    let s = SegView::Inline(t);
    draft_bytes_add_up(d, t, s);
    draft_bytes_add_up(empty_draft(), t, s);
    binary_atoms_add(with_bytes(d, t), empty_draft(), binary_tags);
    binary_atoms_add(with_bytes(empty_draft(), t), empty_draft(), binary_tags);
    binary_atoms_add(empty_draft(), empty_draft(), binary_tags);
    let x = with_binary_atoms(with_bytes(d, t), binary_tags);
    let y = with_binary_atoms(with_bytes(empty_draft(), t), binary_tags);
    let c = be32_bytes(8 + art_bytes(arts)) + COVR@;
    assert(COVR@.len() == 4);
    draft_bytes_add_up(x, c, s);
    draft_bytes_add_up(y, c, s);
    art_datas_add(with_bytes(x, c), arts);
    art_datas_add(with_bytes(y, c), arts);
}

/// The user data adds its bytes to any draft.
pub proof fn udta_adds(
    d: DraftModel,
    tags: Seq<TagInput>,
    binary_tags: Seq<BinaryTagInput>,
    arts: Seq<ArtInput>,
    chapters: Seq<u8>,
)
    ensures
        draft_bytes(with_udta(d, tags, binary_tags, arts, chapters)) == draft_bytes(d) + udta_bytes(
            tags,
            binary_tags,
            arts,
            chapters,
        ),
        udta_bytes(tags, binary_tags, arts, chapters) >= 61,
{
    let f = udta_front(ilst_bytes(tags, binary_tags, arts), chapters.len() as int);
    let s = SegView::Inline(f);
    assert(f.len() == 61) by {
        assert(UDTA@.len() == 4 && META@.len() == 4 && HDLR@.len() == 4 && MDIR@.len() == 4
            && APPL@.len() == 4 && ILST@.len() == 4);
    }
    draft_bytes_add_up(d, f, s);
    ilst_adds(with_bytes(d, f), tags, binary_tags, arts);
    draft_bytes_add_up(with_ilst(with_bytes(d, f), tags, binary_tags, arts), chapters, s);
}

/// Draft the binary freeform values, and check what they come to.
fn draft_binary_atoms(draft: &mut Draft, tags: &[BinaryTagInput]) -> (r: Result<()>)
    ensures
        match r {
            Ok(_) => final(draft).model() == with_binary_atoms(old(draft).model(), tags@),
            Err(e) => e == FormatError::TooLarge && binary_atom_bytes(tags@) > MAX_BOX,
        },
{
    let ghost start = draft.model();
    let ghost none = empty_draft();
    let mut i: usize = 0;
    while i < tags.len()
        invariant
            none == empty_draft(),
            i <= tags@.len(),
            draft.model() == with_binary_atoms(start, tags@.take(i as int)),
        decreases tags@.len() - i,
    {
        assert(tags@.take(i + 1).drop_last() =~= tags@.take(i as int));
        let bt = &tags[i];
        if let Some(len) = BlobLen::new(bt.len) {
            if let Some((mean, name)) = parse_freeform_key(bt.key.as_str()) {
                let front = match freeform_binary_prefix(mean, name, bt.len) {
                    Ok(v) => v,
                    Err(e) => {
                        proof {
                            let f = binary_front(mean@, name@, bt.len as int);
                            let s = SegView::BinaryTag {
                                payload_id: bt.payload_id,
                                len: bt.len as int,
                            };
                            let x = with_binary_atoms(none, tags@.take(i as int));
                            binary_atoms_add(none, none, tags@.take(i as int));
                            draft_bytes_add_up(none, f, s);
                            draft_bytes_add_up(x, f, s);
                            draft_bytes_add_up(with_bytes(x, f), f, s);
                            binary_atoms_grow(none, tags@, i + 1);
                        }
                        return Err(e);
                    },
                };
                draft.bytes(front.as_slice());
                draft.stream(Segment::BinaryTag { payload_id: bt.payload_id, len });
            }
        }
        i = i + 1;
    }
    assert(tags@.take(i as int) =~= tags@);
    Ok(())
}

proof fn art_bytes_grow(arts: Seq<ArtInput>, n: int)
    requires
        0 <= n <= arts.len(),
    ensures
        0 <= art_bytes(arts.take(n)) <= art_bytes(arts),
    decreases arts.len(),
{
    if n == arts.len() {
        assert(arts.take(n) =~= arts);
        art_datas_add(empty_draft(), arts);
    } else {
        art_bytes_grow(arts.drop_last(), n);
        assert(arts.drop_last().take(n) =~= arts.take(n));
    }
}

/// How many bytes the images of arts come to.
fn count_art_bytes(arts: &[ArtInput]) -> (r: Result<u64>)
    ensures
        match r {
            Ok(n) => n == art_bytes(arts@) && n <= MAX_BOX - 8,
            Err(e) => e == FormatError::TooLarge && art_bytes(arts@) > MAX_BOX - 8,
        },
{
    let mut total: u64 = 0;
    let mut i: usize = 0;
    while i < arts.len()
        invariant
            i <= arts@.len(),
            total == art_bytes(arts@.take(i as int)),
            total <= MAX_BOX - 8,
        decreases arts@.len() - i,
    {
        assert(arts@.take(i + 1).drop_last() =~= arts@.take(i as int));
        let n = arts[i].data_len;
        if n > 0 {
            if n > MAX_BOX - 8 - 16 || total > MAX_BOX - 8 - 16 - n {
                proof {
                    art_bytes_grow(arts@, i + 1);
                }
                return Err(FormatError::TooLarge);
            }
            total = total + 16 + n;
        }
        i = i + 1;
    }
    assert(arts@.take(i as int) =~= arts@);
    Ok(total)
}

/// Draft the images.
fn draft_art_datas(draft: &mut Draft, arts: &[ArtInput])
    requires
        art_bytes(arts@) <= MAX_BOX - 8,
    ensures
        final(draft).model() == with_art_datas(old(draft).model(), arts@),
{
    let ghost start = draft.model();
    let mut i: usize = 0;
    while i < arts.len()
        invariant
            i <= arts@.len(),
            art_bytes(arts@) <= MAX_BOX - 8,
            draft.model() == with_art_datas(start, arts@.take(i as int)),
        decreases arts@.len() - i,
    {
        assert(arts@.take(i + 1).drop_last() =~= arts@.take(i as int));
        let art = &arts[i];
        if let Some(len) = BlobLen::new(art.data_len) {
            proof {
                art_bytes_grow(arts@, i + 1);
                art_bytes_grow(arts@, i as int);
            }
            let type_code: u32 = if same_text(art.mime.as_str(), "image/png") {
                14
            } else {
                13
            };
            let mut front: Vec<u8> = Vec::new();
            push_u32_be(&mut front, (16 + art.data_len) as u32);
            append(&mut front, DATA.as_slice());
            push_u32_be(&mut front, type_code);
            push_u32_be(&mut front, 0);
            assert(front@ =~= art_front(*art));
            draft.bytes(front.as_slice());
            draft.stream(Segment::ArtImage { art_id: art.art_id, len });
        }
        i = i + 1;
    }
    assert(arts@.take(i as int) =~= arts@);
}

/// How many bytes the binary values come to.
fn count_binary_atoms(tags: &[BinaryTagInput]) -> (r: Result<u64>)
    ensures
        match r {
            Ok(n) => n == binary_atom_bytes(tags@) && n <= MAX_BOX,
            Err(e) => e == FormatError::TooLarge && binary_atom_bytes(tags@) > MAX_BOX,
        },
{
    let ghost none = empty_draft();
    let mut total: u64 = 0;
    let mut i: usize = 0;
    proof {
        draft_bytes_add_up(none, Seq::empty(), SegView::Inline(Seq::empty()));
    }
    while i < tags.len()
        invariant
            none == empty_draft(),
            i <= tags@.len(),
            total == draft_bytes(with_binary_atoms(none, tags@.take(i as int))),
            total <= MAX_BOX,
        decreases tags@.len() - i,
    {
        assert(tags@.take(i + 1).drop_last() =~= tags@.take(i as int));
        let bt = &tags[i];
        if bt.len > 0 {
            if let Some((mean, name)) = parse_freeform_key(bt.key.as_str()) {
                let ghost f = binary_front(mean@, name@, bt.len as int);
                proof {
                    let s = SegView::BinaryTag { payload_id: bt.payload_id, len: bt.len as int };
                    let x = with_binary_atoms(none, tags@.take(i as int));
                    draft_bytes_add_up(x, f, s);
                    draft_bytes_add_up(with_bytes(x, f), f, s);
                    binary_atoms_grow(none, tags@, i + 1);
                }
                let front = match freeform_binary_prefix(mean, name, bt.len) {
                    Ok(v) => v,
                    Err(e) => {
                        return Err(e);
                    },
                };
                let more: u64 = front.len() as u64 + bt.len;
                if more > MAX_BOX - total {
                    return Err(FormatError::TooLarge);
                }
                total = total + more;
            }
        }
        i = i + 1;
    }
    assert(tags@.take(i as int) =~= tags@);
    Ok(total)
}

/// What stands before the contents of the `ilst`.
fn build_udta_front(n: u64, tail: u64) -> (r: Vec<u8>)
    requires
        61 + n + tail <= MAX_BOX,
    ensures
        r@ == udta_front(n as int, tail as int),
{
    let mut hdlr: Vec<u8> = Vec::new();
    push_u32_be(&mut hdlr, 33);
    append(&mut hdlr, HDLR.as_slice());
    push_u32_be(&mut hdlr, 0);
    push_u32_be(&mut hdlr, 0);
    append(&mut hdlr, MDIR.as_slice());
    append(&mut hdlr, APPL.as_slice());
    push_u32_be(&mut hdlr, 0);
    push_u32_be(&mut hdlr, 0);
    hdlr.push(0);
    assert(hdlr@ =~= itunes_hdlr());
    let mut out: Vec<u8> = Vec::new();
    push_u32_be(&mut out, (61 + n + tail) as u32);
    append(&mut out, UDTA.as_slice());
    push_u32_be(&mut out, (53 + n) as u32);
    append(&mut out, META.as_slice());
    push_u32_be(&mut out, 0);
    append(&mut out, hdlr.as_slice());
    push_u32_be(&mut out, (8 + n) as u32);
    append(&mut out, ILST.as_slice());
    assert(out@ =~= udta_front(n as int, tail as int));
    out
}

/// Draft the user data: all box framing inline, with each opaque `----` value and each
/// cover image streamed. Box sizes are 32-bit, and `udta` encloses all inner boxes: oversized
/// metadata is refused rather than written with a truncated size.
pub(crate) fn draft_udta(
    draft: &mut Draft,
    tags: &[TagInput],
    binary_tags: &[BinaryTagInput],
    arts: &[ArtInput],
    chapters: &[u8],
) -> (r: Result<u64>)
    ensures
        match r {
            Ok(n) => n == udta_bytes(tags@, binary_tags@, arts@, chapters@) && n <= MAX_BOX
                && final(draft).model() == with_udta(
                old(draft).model(),
                tags@,
                binary_tags@,
                arts@,
                chapters@,
            ),
            Err(e) => e == FormatError::TooLarge && udta_bytes(
                tags@,
                binary_tags@,
                arts@,
                chapters@,
            ) > MAX_BOX,
        },
{
    proof {
        ilst_adds(empty_draft(), tags@, binary_tags@, arts@);
    }
    let text = match build_tag_atoms(tags) {
        Ok(v) => v,
        Err(e) => {
            return Err(e);
        },
    };
    let binary_len = match count_binary_atoms(binary_tags) {
        Ok(n) => n,
        Err(e) => {
            return Err(e);
        },
    };
    let art_len = match count_art_bytes(arts) {
        Ok(n) => n,
        Err(e) => {
            return Err(e);
        },
    };
    let covr_len: u64 = if art_len == 0 {
        0
    } else {
        art_len + 8
    };
    let text_len: u64 = text.len() as u64;
    let tail: u64 = chapters.len() as u64;
    if text_len > MAX_BOX || tail > MAX_BOX {
        return Err(FormatError::TooLarge);
    }
    let ilst_len: u64 = text_len + binary_len + covr_len;
    if 61 + ilst_len + tail > MAX_BOX {
        return Err(FormatError::TooLarge);
    }
    let front = build_udta_front(ilst_len, tail);
    draft.bytes(front.as_slice());
    draft.bytes(text.as_slice());
    match draft_binary_atoms(draft, binary_tags) {
        Ok(_) => {},
        Err(e) => {
            return Err(e);
        },
    }
    if art_len > 0 {
        let mut head: Vec<u8> = Vec::new();
        push_u32_be(&mut head, (art_len + 8) as u32);
        append(&mut head, COVR.as_slice());
        assert(head@ =~= be32_bytes(8 + art_bytes(arts@)) + COVR@);
        draft.bytes(head.as_slice());
        draft_art_datas(draft, arts);
    }
    draft.bytes(chapters);
    Ok(61 + ilst_len + tail)
}

/// The bytes that are streamed into user data: binary values and images.
pub open spec fn streamed_bytes(binary_tags: Seq<BinaryTagInput>, arts: Seq<ArtInput>) -> int {
    streamed_binary(binary_tags) + streamed_art(arts)
}

/// The bytes of the binary values that are written.
pub open spec fn streamed_binary(tags: Seq<BinaryTagInput>) -> int
    decreases tags.len(),
{
    if tags.len() == 0 {
        0
    } else {
        streamed_binary(tags.drop_last()) + if freeform_parts(utf8(tags.last().key@)) is Some {
            tags.last().len as int
        } else {
            0
        }
    }
}

/// The bytes of the images.
pub open spec fn streamed_art(arts: Seq<ArtInput>) -> int
    decreases arts.len(),
{
    if arts.len() == 0 {
        0
    } else {
        streamed_art(arts.drop_last()) + arts.last().data_len
    }
}

/// What is streamed is part of what the user data comes to.
proof fn streamed_is_part(binary_tags: Seq<BinaryTagInput>, arts: Seq<ArtInput>)
    ensures
        0 <= streamed_binary(binary_tags) <= binary_atom_bytes(binary_tags),
        0 <= streamed_art(arts) <= art_bytes(arts),
    decreases binary_tags.len() + arts.len(),
{
    let none = empty_draft();
    if binary_tags.len() > 0 {
        let front = binary_tags.drop_last();
        streamed_is_part(front, arts);
        let bt = binary_tags.last();
        let s = SegView::BinaryTag { payload_id: bt.payload_id, len: bt.len as int };
        if let Some((mean, name)) = freeform_parts(utf8(bt.key@)) {
            let f = binary_front(mean, name, bt.len as int);
            let x = with_binary_atoms(none, front);
            draft_bytes_add_up(x, f, s);
            draft_bytes_add_up(with_bytes(x, f), f, s);
        }
    } else if arts.len() > 0 {
        streamed_is_part(binary_tags, arts.drop_last());
    } else {
        draft_bytes_add_up(none, Seq::empty(), SegView::Inline(Seq::empty()));
    }
}

/// A prefix streams no more than the whole.
proof fn streamed_grows(binary_tags: Seq<BinaryTagInput>, arts: Seq<ArtInput>, m: int, n: int)
    requires
        0 <= m <= binary_tags.len(),
        0 <= n <= arts.len(),
    ensures
        0 <= streamed_binary(binary_tags.take(m)) <= streamed_binary(binary_tags),
        0 <= streamed_art(arts.take(n)) <= streamed_art(arts),
    decreases binary_tags.len() + arts.len(),
{
    if m < binary_tags.len() {
        streamed_grows(binary_tags.drop_last(), arts, m, n);
        assert(binary_tags.drop_last().take(m) =~= binary_tags.take(m));
    } else {
        assert(binary_tags.take(m) =~= binary_tags);
        if n < arts.len() {
            streamed_grows(binary_tags, arts.drop_last(), m, n);
            assert(arts.drop_last().take(n) =~= arts.take(n));
        } else {
            assert(arts.take(n) =~= arts);
            streamed_is_part(binary_tags, arts);
        }
    }
}

/// The bytes that are streamed into user data that fits.
fn count_streamed(binary_tags: &[BinaryTagInput], arts: &[ArtInput]) -> (r: u64)
    requires
        streamed_bytes(binary_tags@, arts@) <= MAX_BOX,
    ensures
        r == streamed_bytes(binary_tags@, arts@),
{
    let mut total: u64 = 0;
    let mut i: usize = 0;
    proof {
        streamed_is_part(binary_tags@, arts@);
    }
    while i < binary_tags.len()
        invariant
            i <= binary_tags@.len(),
            streamed_bytes(binary_tags@, arts@) <= MAX_BOX,
            streamed_art(arts@) >= 0,
            total == streamed_binary(binary_tags@.take(i as int)),
        decreases binary_tags@.len() - i,
    {
        assert(binary_tags@.take(i + 1).drop_last() =~= binary_tags@.take(i as int));
        proof {
            streamed_grows(binary_tags@, arts@, i + 1, 0);
        }
        if parse_freeform_key(binary_tags[i].key.as_str()).is_some() {
            total = total + binary_tags[i].len;
        }
        i = i + 1;
    }
    assert(binary_tags@.take(i as int) =~= binary_tags@);
    let mut j: usize = 0;
    while j < arts.len()
        invariant
            j <= arts@.len(),
            streamed_bytes(binary_tags@, arts@) <= MAX_BOX,
            total == streamed_binary(binary_tags@) + streamed_art(arts@.take(j as int)),
        decreases arts@.len() - j,
    {
        assert(arts@.take(j + 1).drop_last() =~= arts@.take(j as int));
        proof {
            streamed_grows(binary_tags@, arts@, 0, j + 1);
        }
        total = total + arts[j].data_len;
        j = j + 1;
    }
    assert(arts@.take(j as int) =~= arts@);
    total
}

/// The chapter list, or nothing.
pub open spec fn chapters_or_none(c: Option<&[u8]>) -> Seq<u8> {
    match c {
        Some(b) => b@,
        None => Seq::empty(),
    }
}

/// Build the `udta` box as an ordered segment list: `Segment::Inline` for all box
/// framing, with each opaque `----` value and each cover image streamed
/// (`Segment::BinaryTag`/`Segment::ArtImage`) rather than materialized. Returns
/// `(segments, streamed_total)` where `streamed_total` sums every streamed payload
/// length (binary `----` values + art). Every enclosing box size
/// (`----`/`ilst`/`meta`/`udta`) accounts for `streamed_total` at the right nesting
/// depth, so the streamed bytes splice in correctly at read time. A chapter list is carried
/// behind the `meta` as it is.
pub fn build_udta(
    tags: &[TagInput],
    binary_tags: &[BinaryTagInput],
    arts: &[ArtInput],
    chapters: Option<&[u8]>,
) -> (r: Result<(Vec<Segment>, u64)>)
    ensures
        ({
            let c = chapters_or_none(chapters);
            match r {
                Ok((segs, n)) => udta_bytes(tags@, binary_tags@, arts@, c) <= MAX_BOX && seg_views(
                    segs@,
                ) == drafted(with_udta(empty_draft(), tags@, binary_tags@, arts@, c)) && n
                    == streamed_bytes(binary_tags@, arts@),
                Err(e) => e == FormatError::TooLarge && udta_bytes(tags@, binary_tags@, arts@, c)
                    > MAX_BOX,
            }
        }),
{
    let none: [u8; 0] = [];
    let c: &[u8] = match chapters {
        Some(b) => b,
        None => none.as_slice(),
    };
    assert(c@ =~= chapters_or_none(chapters));
    let mut draft = Draft::new();
    match draft_udta(&mut draft, tags, binary_tags, arts, c) {
        Ok(_) => {
            proof {
                ilst_adds(empty_draft(), tags@, binary_tags@, arts@);
                streamed_is_part(binary_tags@, arts@);
            }
            let streamed = count_streamed(binary_tags, arts);
            Ok((draft.finish(), streamed))
        },
        Err(e) => Err(e),
    }
}

} // verus!
