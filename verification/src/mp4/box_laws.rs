//! Boxes as written by anyone, and how they are told apart.

use crate::bytes::be32;
use crate::bytes::be32_bytes;
use crate::bytes::be32_round_trip;
use crate::bytes::be64;
use crate::bytes::be64_bytes;
use crate::bytes::be64_round_trip;
use crate::error::FormatError;
use crate::error::Result;
use crate::mp4::atoms::boxed_bytes;
use crate::mp4::boxes::box_at;
use crate::mp4::boxes::box_header;
use crate::mp4::boxes::BoxHeader;
use crate::mp4::boxes::child_payloads;
use crate::mp4::boxes::find_payload;
use crate::mp4::boxes::slice_views;
use crate::mp4::kids::bodies;
use crate::mp4::kids::first_body;
use crate::mp4::kids::first_payload_is_first_body;
use crate::mp4::kids::kids;
use crate::mp4::kids::kids_concat;
use crate::mp4::kids::kids_of_box;
use crate::mp4::kids::no_kids;
use crate::mp4::kids::payloads_are_bodies;
use crate::mp4::kids::sealed;
use crate::mp4::kids::sealed_concat;
use crate::mp4::value_laws::big_endian;
use vstd::prelude::*;

verus! {

/// A box: its size in four bytes, its type, its payload.
pub open spec fn a_box(kind: Seq<u8>, payload: Seq<u8>) -> Seq<u8> {
    big_endian(8 + payload.len() as int, 4) + kind + payload
}

/// Boxes in a row.
pub open spec fn in_boxes(list: Seq<(Seq<u8>, Seq<u8>)>) -> Seq<u8>
    decreases list.len(),
{
    if list.len() == 0 {
        Seq::empty()
    } else {
        in_boxes(list.drop_last()) + a_box(list.last().0, list.last().1)
    }
}

/// Every box can be written: a type of four bytes, a size of 32 bits.
pub open spec fn can_be_boxed(list: Seq<(Seq<u8>, Seq<u8>)>) -> bool {
    forall|i: int|
        0 <= i < list.len() ==> (#[trigger] list[i]).0.len() == 4 && 8 + list[i].1.len()
            <= u32::MAX
}

/// The big-endian bytes of a 32-bit number.
pub(crate) proof fn four_big_endian(v: int)
    requires
        0 <= v <= u32::MAX,
    ensures
        big_endian(v, 4) == be32_bytes(v),
        big_endian(v, 4).len() == 4,
{
    reveal_with_fuel(big_endian, 5);
    assert(big_endian(v, 4) =~= seq![
        (v / 256 / 256 / 256 % 256) as u8,
        (v / 256 / 256 % 256) as u8,
        (v / 256 % 256) as u8,
        (v % 256) as u8,
    ]);
    assert(big_endian(v, 4) =~= be32_bytes(v));
}

proof fn eight_big_endian(v: int)
    requires
        0 <= v <= u64::MAX,
    ensures
        big_endian(v, 8) == be64_bytes(v),
        big_endian(v, 8).len() == 8,
{
    reveal_with_fuel(big_endian, 9);
    assert(v / 256 / 256 / 256 / 256 == v / 0x1_0000_0000);
    four_big_endian(v / 0x1_0000_0000);
    four_big_endian(v % 0x1_0000_0000);
    let h = v / 0x1_0000_0000;
    let l = v % 0x1_0000_0000;
    assert(v % 256 == l % 256);
    assert(v / 256 % 256 == l / 256 % 256);
    assert(v / 256 / 256 % 256 == l / 256 / 256 % 256);
    assert(v / 256 / 256 / 256 % 256 == l / 256 / 256 / 256 % 256);
    assert(big_endian(v, 8) =~= big_endian(h, 4) + big_endian(l, 4));
    assert(be64_bytes(v) =~= be32_bytes(h) + be32_bytes(l));
}

/// A header of eight bytes holds the size, of sixteen a size of 64 bits behind a one; a size of
/// zero is all that is left. A size that is less than the header, or more than is left, is
/// malformed, and so is a header that is cut.
pub proof fn headers_are_read(
    hdr: &[u8],
    remaining: u64,
    size: int,
    kind: Seq<u8>,
    after: Seq<u8>,
    r: Result<BoxHeader>,
)
    requires
        kind.len() == 4,
        0 <= size <= u64::MAX,
        call_ensures(box_header, (hdr, remaining), r),
    ensures
        hdr@ == big_endian(size, 4) + kind + after && 2 <= size <= u32::MAX ==> if 8 <= size
            <= remaining {
            r is Ok && r->Ok_0.header_len == 8 && r->Ok_0.total_len == size && r->Ok_0.kind@ == kind
        } else {
            r == Err::<BoxHeader, FormatError>(FormatError::Malformed)
        },
        hdr@ == big_endian(1, 4) + kind + big_endian(size, 8) + after ==> if 16 <= size
            <= remaining {
            r is Ok && r->Ok_0.header_len == 16 && r->Ok_0.total_len == size && r->Ok_0.kind@
                == kind
        } else {
            r == Err::<BoxHeader, FormatError>(FormatError::Malformed)
        },
        hdr@ == big_endian(0, 4) + kind + after ==> if remaining >= 8 {
            r is Ok && r->Ok_0.header_len == 8 && r->Ok_0.total_len == remaining && r->Ok_0.kind@
                == kind
        } else {
            r == Err::<BoxHeader, FormatError>(FormatError::Malformed)
        },
        hdr@.len() < 8 ==> r == Err::<BoxHeader, FormatError>(FormatError::Malformed),
        hdr@ == big_endian(1, 4) + kind + after && after.len() < 8 ==> r == Err::<
            BoxHeader,
            FormatError,
        >(FormatError::Malformed),
{
    let h = hdr@;
    four_big_endian(0);
    four_big_endian(1);
    be32_round_trip(0);
    be32_round_trip(1);
    eight_big_endian(size);
    be64_round_trip(size);
    if h == big_endian(size, 4) + kind + after && size <= u32::MAX {
        four_big_endian(size);
        be32_round_trip(size);
        let s = be32_bytes(size);
        assert(h[0] == s[0] && h[1] == s[1] && h[2] == s[2] && h[3] == s[3]);
        assert(be32(h, 0) == size);
        assert(h.subrange(4, 8) =~= kind);
    }
    if h == big_endian(1, 4) + kind + big_endian(size, 8) + after {
        let s = be32_bytes(1);
        let t = be64_bytes(size);
        assert(h[0] == s[0] && h[1] == s[1] && h[2] == s[2] && h[3] == s[3]);
        assert(h[8] == t[0] && h[9] == t[1] && h[10] == t[2] && h[11] == t[3] && h[12] == t[4]
            && h[13] == t[5] && h[14] == t[6] && h[15] == t[7]);
        assert(be32(h, 0) == 1);
        assert(be64(h, 8) == size);
        assert(h.subrange(4, 8) =~= kind);
    }
    if h == big_endian(0, 4) + kind + after {
        let s = be32_bytes(0);
        assert(h[0] == s[0] && h[1] == s[1] && h[2] == s[2] && h[3] == s[3]);
        assert(be32(h, 0) == 0);
        assert(h.subrange(4, 8) =~= kind);
    }
    if h == big_endian(1, 4) + kind + after {
        let s = be32_bytes(1);
        assert(h[0] == s[0] && h[1] == s[1] && h[2] == s[2] && h[3] == s[3]);
        assert(be32(h, 0) == 1);
    }
}

/// Boxes in a row are the children there, in order.
pub(crate) proof fn boxes_stand(list: Seq<(Seq<u8>, Seq<u8>)>)
    requires
        can_be_boxed(list),
    ensures
        kids(in_boxes(list)) == list,
        sealed(in_boxes(list)),
    decreases list.len(),
{
    if list.len() == 0 {
        let d = in_boxes(list);
        no_kids(d);
        assert(kids(d) =~= list);
    } else {
        let front = list.drop_last();
        let b = list.last();
        assert(can_be_boxed(front)) by {
            assert forall|i: int| 0 <= i < front.len() implies (#[trigger] front[i]).0.len() == 4
                && 8 + front[i].1.len() <= u32::MAX by {
                assert(front[i] == list[i]);
            }
        }
        boxes_stand(front);
        assert(list[list.len() - 1].0.len() == 4);
        four_big_endian(8 + b.1.len() as int);
        assert(a_box(b.0, b.1) =~= boxed_bytes(b.0, b.1));
        kids_of_box(b.0, b.1);
        kids_concat(in_boxes(front), a_box(b.0, b.1));
        sealed_concat(in_boxes(front), a_box(b.0, b.1));
        assert(front + seq![b] =~= list);
    }
}

/// Boxes that are followed by others are children too.
pub(crate) proof fn boxes_go_on(list: Seq<(Seq<u8>, Seq<u8>)>, after: Seq<u8>)
    requires
        can_be_boxed(list),
    ensures
        kids(in_boxes(list) + after) == list + kids(after),
{
    boxes_stand(list);
    kids_concat(in_boxes(list), after);
}

/// The payloads of the boxes of one type, in order.
pub open spec fn payloads_among(list: Seq<(Seq<u8>, Seq<u8>)>, kind: Seq<u8>) -> Seq<Seq<u8>> {
    list.filter(|b: (Seq<u8>, Seq<u8>)| b.0 == kind).map_values(|b: (Seq<u8>, Seq<u8>)| b.1)
}

pub(crate) proof fn bodies_filtered(list: Seq<(Seq<u8>, Seq<u8>)>, kind: Seq<u8>)
    ensures
        bodies(list, kind) == payloads_among(list, kind),
    decreases list.len(),
{
    reveal(Seq::filter);
    if list.len() > 0 {
        bodies_filtered(list.drop_last(), kind);
    }
    assert(bodies(list, kind) =~= payloads_among(list, kind));
}

/// The first of a kind stands at `i`.
pub open spec fn first_is_at(list: Seq<(Seq<u8>, Seq<u8>)>, kind: Seq<u8>, i: int) -> bool {
    &&& 0 <= i < list.len()
    &&& list[i].0 == kind
    &&& forall|j: int| 0 <= j < i ==> (#[trigger] list[j]).0 != kind
}

pub(crate) proof fn first_body_is_at(list: Seq<(Seq<u8>, Seq<u8>)>, kind: Seq<u8>, i: int)
    ensures
        first_is_at(list, kind, i) ==> first_body(list, kind) == Some(list[i].1),
        (forall|j: int| 0 <= j < list.len() ==> (#[trigger] list[j]).0 != kind) ==> first_body(
            list,
            kind,
        ) is None,
    decreases list.len(),
{
    if list.len() > 0 {
        let rest = list.drop_first();
        first_body_is_at(rest, kind, i - 1);
        if first_is_at(list, kind, i) && i > 0 {
            assert(list[0].0 != kind);
            assert forall|j: int| 0 <= j < i - 1 implies (#[trigger] rest[j]).0 != kind by {
                assert(rest[j] == list[j + 1]);
            }
            assert(rest[i - 1] == list[i]);
            assert(first_is_at(rest, kind, i - 1));
        }
        if forall|j: int| 0 <= j < list.len() ==> (#[trigger] list[j]).0 != kind {
            assert(list[0].0 != kind);
            assert forall|j: int| 0 <= j < rest.len() implies (#[trigger] rest[j]).0 != kind by {
                assert(rest[j] == list[j + 1]);
            }
        }
    }
}

/// Of boxes in a row, those of one type give their payloads, in order; the first gives the
/// one that is looked for. What no box begins ends the row.
pub proof fn children_are_found(
    buf: &[u8],
    list: Seq<(Seq<u8>, Seq<u8>)>,
    after: Seq<u8>,
    kind: &[u8; 4],
    i: int,
    all: Vec<&[u8]>,
    one: Option<&[u8]>,
)
    requires
        can_be_boxed(list),
        buf@ == in_boxes(list) + after,
        after.len() < 8,
        call_ensures(child_payloads, (buf, kind), all),
        call_ensures(find_payload, (buf, kind), one),
    ensures
        slice_views(all@) == payloads_among(list, kind@),
        first_is_at(list, kind@, i) ==> one is Some && one->0@ == list[i].1,
        (forall|j: int| 0 <= j < list.len() ==> (#[trigger] list[j]).0 != kind@) ==> one is None,
{
    boxes_go_on(list, after);
    assert(box_at(after, 0) is None);
    no_kids(after);
    assert(list + kids(after) =~= list);
    payloads_are_bodies(buf@, kind@);
    first_payload_is_first_body(buf@, kind@);
    bodies_filtered(list, kind@);
    first_body_is_at(list, kind@, i);
}

} // verus!
