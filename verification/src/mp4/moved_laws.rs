//! A track whose chunk offsets have moved is read as before, but for those offsets.

use crate::bytes::be32;
use crate::mp4::boxes::boxes;
use crate::mp4::boxes::boxes_lie_inside;
use crate::mp4::boxes::first_of;
use crate::mp4::boxes::path_end;
use crate::mp4::boxes::path_from;
use crate::mp4::boxes::PathEnd;
use crate::mp4::boxes::CO64;
use crate::mp4::boxes::HDLR;
use crate::mp4::boxes::MDIA;
use crate::mp4::boxes::MINF;
use crate::mp4::boxes::STBL;
use crate::mp4::boxes::STCO;
use crate::mp4::offsets::chunk_table;
use crate::mp4::offsets::entry_pos;
use crate::mp4::offsets::first_is_inside;
use crate::mp4::offsets::offset_at;
use crate::mp4::offsets::path_stays_inside;
use crate::mp4::offsets::run_is_ordered;
use crate::mp4::offsets::table_is_inside;
use crate::mp4::relocation::track_offsets;
use crate::mp4::retag_laws::agree_outside;
use crate::mp4::retag_laws::first_index;
use crate::mp4::retag_laws::kids_outside;
use crate::mp4::retag_laws::same_but_table;
use crate::mp4::retag_laws::table_is_in_minf;
use crate::mp4::structure::track_handler;
use vstd::prelude::*;

verus! {

/// `x` is `d` but for the bytes from `s` to `e`.
spec fn same_but(d: Seq<u8>, x: Seq<u8>, s: int, e: int) -> bool {
    &&& d.len() == x.len()
    &&& forall|q: int| 0 <= q < d.len() && (q < s || q >= e) ==> #[trigger] x[q] == d[q]
}

/// Where the payload of the first box of a type is all that differs, the boxes are the same.
proof fn same_first(d: Seq<u8>, x: Seq<u8>, kind: Seq<u8>, s: int, e: int)
    requires
        first_of(boxes(d), kind) is Some,
        same_but(d, x, s, e),
        first_of(boxes(d), kind)->0.body() <= s,
        e <= first_of(boxes(d), kind)->0.end(),
    ensures
        boxes(x) == boxes(d),
        crate::mp4::boxes::well_boxed(x) == crate::mp4::boxes::well_boxed(d),
        same_but(
            first_of(boxes(d), kind)->0.payload(d),
            first_of(boxes(d), kind)->0.payload(x),
            s - first_of(boxes(d), kind)->0.body(),
            e - first_of(boxes(d), kind)->0.body(),
        ),
        first_of(boxes(d), kind)->0.inside(d),
{
    let b = first_of(boxes(d), kind)->0;
    boxes_lie_inside(d, 0);
    first_is_inside(boxes(d), kind, d);
    let i = first_index(boxes(d), kind);
    assert(agree_outside(d, x, boxes(d)[i]));
    kids_outside(d, x, i);
    let u = b.payload(d);
    let v = b.payload(x);
    assert forall|q: int| 0 <= q < u.len() && (q < s - b.body() || q >= e - b.body()) implies
        #[trigger] v[q] == u[q] by {
        assert(x[b.body() + q] == d[b.body() + q]);
    }
}

/// A path leads to the same place when nothing but what it leads to has changed.
proof fn path_same(d: Seq<u8>, x: Seq<u8>, base: int, path: Seq<Seq<u8>>, at: PathEnd, s: int, n: int)
    requires
        path.len() > 0,
        path_from(d, base, path, at) == PathEnd::At(s, n),
        same_but(d, x, s - base, s - base + n),
    ensures
        path_from(x, base, path, at) == PathEnd::At(s, n),
    decreases path.len(),
{
    path_stays_inside(d, base, path, at);
    boxes_lie_inside(d, 0);
    first_is_inside(boxes(d), path[0], d);
    let b = first_of(boxes(d), path[0])->0;
    let next = PathEnd::At(base + b.body(), b.total - b.header);
    let rest = path.drop_first();
    if path.len() > 1 {
        path_stays_inside(b.payload(d), base + b.body(), rest, next);
        same_first(d, x, path[0], s - base, s - base + n);
        path_same(b.payload(d), b.payload(x), base + b.body(), rest, next, s, n);
    } else {
        assert(path_from(b.payload(d), base + b.body(), rest, next) == next);
        same_first(d, x, path[0], s - base, s - base + n);
        assert(path_from(b.payload(x), base + b.body(), rest, next) == next);
    }
}

/// A box missing beside the one that a path leads to is missing still when nothing but that
/// one has changed.
proof fn missing_same(
    d: Seq<u8>,
    x: Seq<u8>,
    base: int,
    path: Seq<Seq<u8>>,
    found: Seq<u8>,
    missing: Seq<u8>,
    at: PathEnd,
    s: int,
    n: int,
)
    requires
        path_from(d, base, path.push(found), at) == PathEnd::At(s, n),
        path_from(d, base, path.push(missing), at) is Nowhere,
        same_but(d, x, s - base, s - base + n),
    ensures
        path_from(x, base, path.push(missing), at) is Nowhere,
    decreases path.len(),
{
    let p = path.push(found);
    let q = path.push(missing);
    path_stays_inside(d, base, p, at);
    boxes_lie_inside(d, 0);
    first_is_inside(boxes(d), p[0], d);
    let b = first_of(boxes(d), p[0])->0;
    let next = PathEnd::At(base + b.body(), b.total - b.header);
    if path.len() > 0 {
        let rest = path.drop_first();
        assert(p.drop_first() =~= rest.push(found));
        assert(q.drop_first() =~= rest.push(missing));
        assert(p[0] == path[0] && q[0] == path[0]);
        path_stays_inside(b.payload(d), base + b.body(), rest.push(found), next);
        same_first(d, x, p[0], s - base, s - base + n);
        missing_same(
            b.payload(d),
            b.payload(x),
            base + b.body(),
            rest,
            found,
            missing,
            next,
            s,
            n,
        );
    } else {
        assert(p.drop_first() =~= Seq::empty());
        assert(q.drop_first() =~= Seq::empty());
        assert(q[0] == missing && p[0] == found);
        assert(path_from(b.payload(d), base + b.body(), p.drop_first(), next) == next);
        same_first(d, x, found, s - base, s - base + n);
        if let Some(c) = first_of(boxes(d), missing) {
            let there = PathEnd::At(base + c.body(), c.total - c.header);
            assert(path_from(c.payload(d), base + c.body(), q.drop_first(), there) == there);
        }
    }
}

/// A track whose chunk offsets have changed has its chunk-offset table where it was, and the
/// same handler.
pub proof fn moved_track_reads(t: Seq<u8>, y: Seq<u8>)
    requires
        chunk_table(t) is Some,
        same_but_table(t, y),
    ensures
        chunk_table(y) == chunk_table(t),
        track_handler(y) == track_handler(t),
{
    let (s, n, wide) = chunk_table(t)->0;
    let narrow_path = seq![MDIA@, MINF@, STBL@, STCO@];
    let wide_path = seq![MDIA@, MINF@, STBL@, CO64@];
    assert(same_but(t, y, s, s + n));
    if wide {
        let front = seq![MDIA@, MINF@, STBL@];
        assert(front.push(STCO@) =~= narrow_path);
        assert(front.push(CO64@) =~= wide_path);
        path_same(t, y, 0, wide_path, PathEnd::Nowhere, s, n);
        missing_same(t, y, 0, front, CO64@, STCO@, PathEnd::Nowhere, s, n);
    } else {
        path_same(t, y, 0, narrow_path, PathEnd::Nowhere, s, n);
    }
    handler_stays(t, y);
}

/// The handler of a track does not change with its chunk offsets.
proof fn handler_stays(t: Seq<u8>, y: Seq<u8>)
    requires
        chunk_table(t) is Some,
        same_but_table(t, y),
    ensures
        track_handler(y) == track_handler(t),
{
    let (s, n, _) = chunk_table(t)->0;
    table_is_in_minf(t);
    let b = first_of(boxes(t), MDIA@)->0;
    let m = b.payload(t);
    let c = first_of(boxes(m), MINF@)->0;
    same_first(t, y, MDIA@, s, s + n);
    let m2 = b.payload(y);
    same_first(m, m2, MINF@, s - b.body(), s + n - b.body());
    let path = seq![MDIA@, HDLR@];
    let rest = path.drop_first();
    assert(rest =~= seq![HDLR@]);
    let at = PathEnd::At(b.body(), b.total - b.header);
    assert(path_end(t, path) == path_from(m, b.body(), rest, at));
    assert(path_end(y, path) == path_from(m2, b.body(), rest, at));
    assert(rest.drop_first() =~= Seq::empty());
    boxes_lie_inside(m, 0);
    first_is_inside(boxes(m), HDLR@, m);
    run_is_ordered(m, 0);
    if let Some(h) = first_of(boxes(m), HDLR@) {
        assert(HDLR@[0] == 0x68 && MINF@[0] == 0x6d);
        let there = PathEnd::At(b.body() + h.body(), h.total - h.header);
        let none = rest.drop_first();
        assert(path_from(h.payload(m), b.body() + h.body(), none, there) == there);
        assert(path_from(h.payload(m2), b.body() + h.body(), none, there) == there);
        let i = first_index(boxes(m), HDLR@);
        let j = first_index(boxes(m), MINF@);
        assert(i != j);
        if i < j {
            assert(boxes(m)[i].end() <= boxes(m)[j].start);
        } else {
            assert(boxes(m)[j].end() <= boxes(m)[i].start);
        }
        if h.total - h.header >= 12 {
            let p = b.body() + h.body();
            assert(t.subrange(p + 8, p + 12) =~= y.subrange(p + 8, p + 12));
        }
    }
}

/// Offsets moved by `delta`.
pub open spec fn shifted(s: Seq<int>, delta: int) -> Seq<int> {
    Seq::new(s.len(), |i: int| s[i] + delta)
}

/// A track whose table's entries are all moved by `delta` has its chunk offsets moved so.
pub proof fn moved_track_offsets(t: Seq<u8>, y: Seq<u8>, delta: int)
    requires
        same_but_table(t, y),
        match chunk_table(t) {
            Some((s, n, wide)) => {
                &&& entry_pos(s, be32(t, s + 4), wide) <= s + n
                &&& forall|i: int|
                    0 <= i < be32(t, s + 4) ==> #[trigger] offset_at(
                        y,
                        entry_pos(s, i, wide),
                        wide,
                    ) == offset_at(t, entry_pos(s, i, wide), wide) + delta
            },
            None => false,
        },
    ensures
        track_offsets(t) is Some,
        track_offsets(y) == Some(shifted(track_offsets(t)->0, delta)),
{
    let (s, n, wide) = chunk_table(t)->0;
    table_is_inside(t);
    moved_track_reads(t, y);
    assert(y[s + 4] == t[s + 4] && y[s + 5] == t[s + 5] && y[s + 6] == t[s + 6] && y[s + 7] == t[s
        + 7]);
    assert(track_offsets(y)->0 =~= shifted(track_offsets(t)->0, delta));
}

} // verus!
