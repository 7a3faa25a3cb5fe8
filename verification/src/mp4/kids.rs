//! Boxes in a row: what a list of boxes parses as when it is put together of parts.

use crate::bytes::be32;
use crate::bytes::be32_bytes;
use crate::bytes::be64;
use crate::bytes::be64_bytes;
use crate::mp4::atoms::boxed_bytes;
use crate::mp4::boxes::box_at;
use crate::mp4::boxes::boxes;
use crate::mp4::boxes::boxes_end;
use crate::mp4::boxes::boxes_from;
use crate::mp4::boxes::declared;
use crate::mp4::boxes::first_of;
use crate::mp4::boxes::first_payload;
use crate::mp4::boxes::of_kind;
use crate::mp4::boxes::payloads;
use crate::mp4::boxes::payloads_of;
use crate::mp4::boxes::BoxModel;
use crate::mp4::strip::resized;
use crate::mp4::strip::MAX_BOX;
use vstd::prelude::*;

verus! {

/// The child boxes of `d`: type and payload.
#[verifier::opaque]
pub open spec fn kids(d: Seq<u8>) -> Seq<(Seq<u8>, Seq<u8>)> {
    kids_among(boxes(d), d)
}

/// Boxes of `d` as type and payload.
pub open spec fn kids_among(s: Seq<BoxModel>, d: Seq<u8>) -> Seq<(Seq<u8>, Seq<u8>)> {
    Seq::new(s.len(), |i: int| (s[i].kind, s[i].payload(d)))
}

/// From `p` on there are boxes up to the very end, each of which says its size.
pub open spec fn sealed_from(d: Seq<u8>, p: int) -> bool
    decreases d.len() - p,
{
    if p == d.len() {
        true
    } else {
        match box_at(d, p) {
            Some(b) if b.total > 0 => be32(d, p) != 0 && sealed_from(d, b.end()),
            _ => false,
        }
    }
}

/// `d` is boxes up to the very end, each of which says its size.
#[verifier::opaque]
pub open spec fn sealed(d: Seq<u8>) -> bool {
    sealed_from(d, 0)
}

/// A box further back by `k`.
pub open spec fn moved(b: BoxModel, k: int) -> BoxModel {
    BoxModel { kind: b.kind, start: b.start + k, header: b.header, total: b.total }
}

/// Boxes further back by `k`.
pub open spec fn all_moved(s: Seq<BoxModel>, k: int) -> Seq<BoxModel> {
    Seq::new(s.len(), |i: int| moved(s[i], k))
}

/// A box in the second part of two is found there.
proof fn box_in_second(a: Seq<u8>, b: Seq<u8>, q: int)
    requires
        0 <= q,
    ensures
        box_at(a + b, a.len() + q) == match box_at(b, q) {
            Some(x) => Some(moved(x, a.len() as int)),
            None => None,
        },
{
    let d = a + b;
    if q <= b.len() {
        assert(d.skip(a.len() + q) =~= b.skip(q));
        if q + 8 <= b.len() {
            assert(d.subrange(a.len() + q + 4, a.len() + q + 8) =~= b.subrange(q + 4, q + 8));
        }
    }
}

/// A box in the first part of two that says its size is found there.
proof fn box_in_first(a: Seq<u8>, b: Seq<u8>, p: int)
    requires
        0 <= p,
        box_at(a, p) is Some,
        be32(a, p) != 0,
    ensures
        box_at(a + b, p) == box_at(a, p),
{
    let d = a + b;
    let x = a.skip(p);
    let y = d.skip(p);
    assert(x[0] == y[0] && x[1] == y[1] && x[2] == y[2] && x[3] == y[3]);
    assert(x[0] == a[p] && x[1] == a[p + 1] && x[2] == a[p + 2] && x[3] == a[p + 3]);
    if be32(x, 0) == 1 {
        assert(x[8] == y[8] && x[9] == y[9] && x[10] == y[10] && x[11] == y[11] && x[12] == y[12]
            && x[13] == y[13] && x[14] == y[14] && x[15] == y[15]);
    }
    assert(d.subrange(p + 4, p + 8) =~= a.subrange(p + 4, p + 8));
}

/// The boxes of the second part of two.
proof fn boxes_in_second(a: Seq<u8>, b: Seq<u8>, q: int)
    requires
        0 <= q,
    ensures
        boxes_from(a + b, a.len() + q) == all_moved(boxes_from(b, q), a.len() as int),
    decreases b.len() - q,
{
    box_in_second(a, b, q);
    match box_at(b, q) {
        Some(x) if x.total > 0 => {
            boxes_in_second(a, b, x.end());
            assert(boxes_from(a + b, a.len() + q) =~= all_moved(
                boxes_from(b, q),
                a.len() as int,
            ));
        },
        _ => {
            assert(boxes_from(a + b, a.len() + q) =~= all_moved(
                boxes_from(b, q),
                a.len() as int,
            ));
        },
    }
}

/// The boxes of a sealed first part come first.
proof fn boxes_in_first(a: Seq<u8>, b: Seq<u8>, p: int)
    requires
        0 <= p <= a.len(),
        sealed_from(a, p),
    ensures
        boxes_from(a + b, p) == boxes_from(a, p) + boxes_from(a + b, a.len() as int),
        boxes_end(a, p) == a.len(),
    decreases a.len() - p,
{
    if p == a.len() {
        assert(boxes_from(a, p) =~= Seq::empty());
        assert(Seq::<BoxModel>::empty() + boxes_from(a + b, p) =~= boxes_from(a + b, p));
    } else {
        let x = box_at(a, p)->0;
        box_in_first(a, b, p);
        boxes_in_first(a, b, x.end());
        let rest = boxes_from(a, x.end());
        let more = boxes_from(a + b, a.len() as int);
        assert(seq![x] + (rest + more) =~= seq![x] + rest + more);
    }
}

/// Sealed boxes end at the end.
pub proof fn sealed_end(d: Seq<u8>)
    requires
        sealed(d),
    ensures
        boxes_end(d, 0) == d.len(),
{
    reveal(sealed);
    boxes_in_first(d, Seq::empty(), 0);
}

/// Where the boxes of the second part of two end.
proof fn end_in_second(a: Seq<u8>, b: Seq<u8>, q: int)
    requires
        0 <= q,
    ensures
        boxes_end(a + b, a.len() + q) == a.len() + boxes_end(b, q),
    decreases b.len() - q,
{
    box_in_second(a, b, q);
    match box_at(b, q) {
        Some(x) if x.total > 0 => {
            end_in_second(a, b, x.end());
        },
        _ => {},
    }
}

proof fn end_in_first(a: Seq<u8>, b: Seq<u8>, p: int)
    requires
        0 <= p <= a.len(),
        sealed_from(a, p),
    ensures
        boxes_end(a + b, p) == boxes_end(a + b, a.len() as int),
    decreases a.len() - p,
{
    if p < a.len() {
        let x = box_at(a, p)->0;
        box_in_first(a, b, p);
        end_in_first(a, b, x.end());
    }
}

/// A sealed part followed by another ends where the other ends.
pub proof fn end_concat(a: Seq<u8>, b: Seq<u8>)
    requires
        sealed(a),
    ensures
        boxes_end(a + b, 0) == a.len() + boxes_end(b, 0),
{
    reveal(sealed);
    end_in_first(a, b, 0);
    end_in_second(a, b, 0);
}

/// The boxes of a sealed part and of what follows it.
pub proof fn boxes_concat(a: Seq<u8>, b: Seq<u8>)
    requires
        sealed(a),
    ensures
        boxes(a + b) == boxes(a) + all_moved(boxes(b), a.len() as int),
{
    reveal(sealed);
    boxes_in_first(a, b, 0);
    boxes_in_second(a, b, 0);
}

/// A sealed part followed by another: the children of the one, then those of the other.
pub proof fn kids_concat(a: Seq<u8>, b: Seq<u8>)
    requires
        sealed(a),
    ensures
        kids(a + b) == kids(a) + kids(b),
{
    reveal(kids);
    reveal(sealed);
    let d = a + b;
    boxes_in_first(a, b, 0);
    boxes_in_second(a, b, 0);
    crate::mp4::boxes::boxes_lie_inside(a, 0);
    crate::mp4::boxes::boxes_lie_inside(b, 0);
    let n = boxes(a).len() as int;
    assert(boxes(d).len() == n + boxes(b).len());
    assert forall|i: int| 0 <= i < boxes(d).len() implies kids(d)[i] == (kids(a) + kids(b))[i] by {
        if i < n {
            let x = boxes(a)[i];
            assert(boxes(d)[i] == x);
            assert(x.inside(a));
            assert(x.payload(d) =~= x.payload(a));
        } else {
            let x = boxes(b)[i - n];
            assert(boxes(d)[i] == moved(x, a.len() as int));
            assert(x.inside(b));
            assert(moved(x, a.len() as int).payload(d) =~= x.payload(b));
        }
    }
    assert(kids(d) =~= kids(a) + kids(b));
}

/// Sealed parts in a row are sealed.
pub proof fn sealed_concat(a: Seq<u8>, b: Seq<u8>)
    requires
        sealed(a),
        sealed(b),
    ensures
        sealed(a + b),
{
    reveal(sealed);
    sealed_second(a, b, 0);
    sealed_first(a, b, 0);
}

proof fn sealed_second(a: Seq<u8>, b: Seq<u8>, q: int)
    requires
        0 <= q <= b.len(),
        sealed_from(b, q),
    ensures
        sealed_from(a + b, a.len() + q),
    decreases b.len() - q,
{
    if q < b.len() {
        box_in_second(a, b, q);
        let x = box_at(b, q)->0;
        let d = a + b;
        assert(d[a.len() + q] == b[q] && d[a.len() + q + 1] == b[q + 1] && d[a.len() + q + 2]
            == b[q + 2] && d[a.len() + q + 3] == b[q + 3]);
        sealed_second(a, b, x.end());
    }
}

proof fn sealed_first(a: Seq<u8>, b: Seq<u8>, p: int)
    requires
        0 <= p <= a.len(),
        sealed_from(a, p),
        sealed_from(a + b, a.len() as int),
    ensures
        sealed_from(a + b, p),
    decreases a.len() - p,
{
    if p < a.len() {
        box_in_first(a, b, p);
        let x = box_at(a, p)->0;
        let d = a + b;
        assert(d[p] == a[p] && d[p + 1] == a[p + 1] && d[p + 2] == a[p + 2] && d[p + 3] == a[p
            + 3]);
        sealed_first(a, b, x.end());
    }
}

/// Nothing has no children.
pub proof fn no_kids(d: Seq<u8>)
    requires
        box_at(d, 0) is None,
    ensures
        kids(d) == Seq::<(Seq<u8>, Seq<u8>)>::empty(),
        d.len() == 0 ==> sealed(d),
{
    reveal(kids);
    reveal(sealed);
    assert(kids(d) =~= Seq::empty());
}

/// A box whose header declares the whole of `d` is the one child of `d`.
proof fn one_kid(d: Seq<u8>, header: int)
    requires
        declared(d, d.len() as int) == Some((header, d.len() as int)),
        8 <= header <= d.len(),
        be32(d, 0) != 0,
    ensures
        kids(d) == seq![(d.subrange(4, 8), d.skip(header))],
        boxes(d) == seq![
            BoxModel { kind: d.subrange(4, 8), start: 0, header, total: d.len() as int },
        ],
        sealed(d),
{
    reveal(kids);
    reveal(sealed);
    assert(d.skip(0) =~= d);
    let b = BoxModel { kind: d.subrange(4, 8), start: 0, header, total: d.len() as int };
    assert(box_at(d, 0) == Some(b));
    assert(box_at(d, d.len() as int) is None) by {
        assert(d.skip(d.len() as int).len() == 0);
    }
    assert(boxes_from(d, d.len() as int) =~= Seq::empty());
    assert(boxes(d) =~= seq![b]);
    assert(b.payload(d) =~= d.skip(header));
    assert(kids(d) =~= seq![(d.subrange(4, 8), d.skip(header))]);
    assert(sealed_from(d, d.len() as int));
}

/// A box around a payload has that payload, and is sealed.
pub proof fn kids_of_box(kind: Seq<u8>, payload: Seq<u8>)
    requires
        kind.len() == 4,
        8 + payload.len() <= MAX_BOX,
    ensures
        kids(boxed_bytes(kind, payload)) == seq![(kind, payload)],
        boxes(boxed_bytes(kind, payload)) == seq![
            BoxModel { kind, start: 0, header: 8, total: (8 + payload.len()) as int },
        ],
        sealed(boxed_bytes(kind, payload)),
{
    let d = boxed_bytes(kind, payload);
    let n = (8 + payload.len()) as int;
    let s = be32_bytes(n);
    crate::bytes::be32_round_trip(n);
    assert(d[0] == s[0] && d[1] == s[1] && d[2] == s[2] && d[3] == s[3]);
    assert(be32(d, 0) == be32(s, 0));
    assert(d.subrange(4, 8) =~= kind);
    assert(d.skip(8) =~= payload);
    one_kid(d, 8);
}

/// A box with a header of either form has its body for a payload, and is sealed.
pub proof fn kids_of_resized(header: int, kind: Seq<u8>, body: Seq<u8>)
    requires
        kind.len() == 4,
        resized(header, kind, body).len() <= MAX_BOX,
    ensures
        kids(resized(header, kind, body)) == seq![(kind, body)],
        sealed(resized(header, kind, body)),
{
    let d = resized(header, kind, body);
    if header == 16 {
        let n = (16 + body.len()) as int;
        let one = be32_bytes(1);
        let s = be64_bytes(n);
        crate::bytes::be32_round_trip(1);
        crate::bytes::be64_round_trip(n);
        assert(d[0] == one[0] && d[1] == one[1] && d[2] == one[2] && d[3] == one[3]);
        assert(be32(d, 0) == be32(one, 0));
        assert(d[8] == s[0] && d[9] == s[1] && d[10] == s[2] && d[11] == s[3] && d[12] == s[4]
            && d[13] == s[5] && d[14] == s[6] && d[15] == s[7]);
        assert(be64(d, 8) == be64(s, 0));
        assert(d.subrange(4, 8) =~= kind);
        assert(d.skip(16) =~= body);
        one_kid(d, 16);
    } else {
        assert(d =~= boxed_bytes(kind, body));
        kids_of_box(kind, body);
    }
}

/// The payloads of the children of type `kind`.
pub open spec fn bodies(s: Seq<(Seq<u8>, Seq<u8>)>, kind: Seq<u8>) -> Seq<Seq<u8>>
    decreases s.len(),
{
    if s.len() == 0 {
        Seq::empty()
    } else if s.last().0 == kind {
        bodies(s.drop_last(), kind).push(s.last().1)
    } else {
        bodies(s.drop_last(), kind)
    }
}

/// The payload of the first child of type `kind`.
pub open spec fn first_body(s: Seq<(Seq<u8>, Seq<u8>)>, kind: Seq<u8>) -> Option<Seq<u8>>
    decreases s.len(),
{
    if s.len() == 0 {
        None
    } else if s[0].0 == kind {
        Some(s[0].1)
    } else {
        first_body(s.drop_first(), kind)
    }
}

/// Payloads by type, over children.
pub proof fn payloads_are_bodies(d: Seq<u8>, kind: Seq<u8>)
    ensures
        payloads(d, kind) == bodies(kids(d), kind),
{
    reveal(kids);
    payloads_among(boxes(d), d, kind);
}

proof fn payloads_among(s: Seq<BoxModel>, d: Seq<u8>, kind: Seq<u8>)
    ensures
        payloads_of(of_kind(s, kind), d) == bodies(kids_among(s, d), kind),
    decreases s.len(),
{
    let k = kids_among(s, d);
    if s.len() > 0 {
        let front = s.drop_last();
        payloads_among(front, d, kind);
        assert(k.drop_last() =~= kids_among(front, d));
        assert(k.last() == (s.last().kind, s.last().payload(d)));
        assert(payloads_of(of_kind(s, kind), d) =~= bodies(k, kind));
    } else {
        assert(payloads_of(of_kind(s, kind), d) =~= bodies(k, kind));
    }
}

/// The first payload of a type, over children.
pub proof fn first_payload_is_first_body(d: Seq<u8>, kind: Seq<u8>)
    ensures
        first_payload(d, kind) == first_body(kids(d), kind),
{
    reveal(kids);
    first_among(boxes(d), d, kind);
}

proof fn first_among(s: Seq<BoxModel>, d: Seq<u8>, kind: Seq<u8>)
    ensures
        (match first_of(s, kind) {
            Some(b) => Some(b.payload(d)),
            None => None,
        }) == first_body(kids_among(s, d), kind),
    decreases s.len(),
{
    if s.len() > 0 {
        let rest = s.drop_first();
        first_among(rest, d, kind);
        assert(kids_among(s, d).drop_first() =~= kids_among(rest, d));
    }
}

/// Bodies of joined lists.
pub proof fn bodies_concat(
    a: Seq<(Seq<u8>, Seq<u8>)>,
    b: Seq<(Seq<u8>, Seq<u8>)>,
    kind: Seq<u8>,
)
    ensures
        bodies(a + b, kind) == bodies(a, kind) + bodies(b, kind),
    decreases b.len(),
{
    if b.len() == 0 {
        assert(a + b =~= a);
        assert(bodies(a, kind) + Seq::<Seq<u8>>::empty() =~= bodies(a, kind));
    } else {
        assert((a + b).drop_last() =~= a + b.drop_last());
        bodies_concat(a, b.drop_last(), kind);
        assert(bodies(a + b, kind) =~= bodies(a, kind) + bodies(b, kind));
    }
}

/// The first body of joined lists.
pub proof fn first_body_concat(
    a: Seq<(Seq<u8>, Seq<u8>)>,
    b: Seq<(Seq<u8>, Seq<u8>)>,
    kind: Seq<u8>,
)
    ensures
        first_body(a + b, kind) == match first_body(a, kind) {
            Some(p) => Some(p),
            None => first_body(b, kind),
        },
    decreases a.len(),
{
    if a.len() == 0 {
        assert(a + b =~= b);
    } else {
        assert((a + b).drop_first() =~= a.drop_first() + b);
        first_body_concat(a.drop_first(), b, kind);
    }
}

/// A list of one child.
pub proof fn single_body(kind: Seq<u8>, payload: Seq<u8>, k: Seq<u8>)
    ensures
        bodies(seq![(kind, payload)], k) == if kind == k {
            seq![payload]
        } else {
            Seq::empty()
        },
        first_body(seq![(kind, payload)], k) == if kind == k {
            Some(payload)
        } else {
            None
        },
{
    let one = seq![(kind, payload)];
    assert(one.drop_last() =~= Seq::empty());
    assert(one.drop_first() =~= Seq::empty());
    assert(bodies(one.drop_last(), k) =~= Seq::empty());
    assert(first_body(one.drop_first(), k) is None);
    assert(one[0] == (kind, payload));
    assert(one.last() == (kind, payload));
    if kind == k {
        assert(bodies(one, k) =~= seq![payload]);
    }
}

} // verus!
