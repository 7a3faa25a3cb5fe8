//! The box layer: headers, child lists and paths.

use crate::bytes::be32;
use crate::bytes::be64;
use crate::bytes::read_u32_be;
use crate::bytes::read_u64_be;
use crate::bytes::same_bytes;
use crate::error::FormatError;
use crate::error::Result;
use vstd::prelude::*;
use vstd::slice::slice_subrange;

verus! {

/// `ftyp`.
pub const FTYP: [u8; 4] = [0x66, 0x74, 0x79, 0x70];

/// `moov`.
pub const MOOV: [u8; 4] = [0x6d, 0x6f, 0x6f, 0x76];

/// `mdat`.
pub const MDAT: [u8; 4] = [0x6d, 0x64, 0x61, 0x74];

/// `moof`.
pub const MOOF: [u8; 4] = [0x6d, 0x6f, 0x6f, 0x66];

/// `mvex`.
pub const MVEX: [u8; 4] = [0x6d, 0x76, 0x65, 0x78];

/// `trak`.
pub const TRAK: [u8; 4] = [0x74, 0x72, 0x61, 0x6b];

/// `mdia`.
pub const MDIA: [u8; 4] = [0x6d, 0x64, 0x69, 0x61];

/// `hdlr`.
pub const HDLR: [u8; 4] = [0x68, 0x64, 0x6c, 0x72];

/// `minf`.
pub const MINF: [u8; 4] = [0x6d, 0x69, 0x6e, 0x66];

/// `stbl`.
pub const STBL: [u8; 4] = [0x73, 0x74, 0x62, 0x6c];

/// `stco`.
pub const STCO: [u8; 4] = [0x73, 0x74, 0x63, 0x6f];

/// `co64`.
pub const CO64: [u8; 4] = [0x63, 0x6f, 0x36, 0x34];

/// `udta`.
pub const UDTA: [u8; 4] = [0x75, 0x64, 0x74, 0x61];

/// `meta`.
pub const META: [u8; 4] = [0x6d, 0x65, 0x74, 0x61];

/// `ilst`.
pub const ILST: [u8; 4] = [0x69, 0x6c, 0x73, 0x74];

/// `keys`.
pub const KEYS: [u8; 4] = [0x6b, 0x65, 0x79, 0x73];

/// `data`.
pub const DATA: [u8; 4] = [0x64, 0x61, 0x74, 0x61];

/// `name`.
pub const NAME: [u8; 4] = [0x6e, 0x61, 0x6d, 0x65];

/// `mean`.
pub const MEAN: [u8; 4] = [0x6d, 0x65, 0x61, 0x6e];

/// `covr`.
pub const COVR: [u8; 4] = [0x63, 0x6f, 0x76, 0x72];

/// `chpl`.
pub const CHPL: [u8; 4] = [0x63, 0x68, 0x70, 0x6c];

/// `soun`.
pub const SOUN: [u8; 4] = [0x73, 0x6f, 0x75, 0x6e];

/// `text`.
pub const TEXT: [u8; 4] = [0x74, 0x65, 0x78, 0x74];

/// `sbtl`.
pub const SBTL: [u8; 4] = [0x73, 0x62, 0x74, 0x6c];

/// `mdta`.
pub const MDTA: [u8; 4] = [0x6d, 0x64, 0x74, 0x61];

/// `mdir`.
pub const MDIR: [u8; 4] = [0x6d, 0x64, 0x69, 0x72];

/// `appl`.
pub const APPL: [u8; 4] = [0x61, 0x70, 0x70, 0x6c];

/// `trkn`.
pub const TRKN: [u8; 4] = [0x74, 0x72, 0x6b, 0x6e];

/// `disk`.
pub const DISK: [u8; 4] = [0x64, 0x69, 0x73, 0x6b];

/// `----`.
pub const FREEFORM: [u8; 4] = [0x2d, 0x2d, 0x2d, 0x2d];

/// Are the two box types the same?
pub fn same_kind(a: &[u8; 4], b: &[u8; 4]) -> (r: bool)
    ensures
        r == (a@ == b@),
{
    same_bytes(a.as_slice(), b.as_slice())
}

/// A located box header within some buffer. `start` is relative to that buffer.
#[derive(Debug, Clone, Copy, PartialEq, Eq)]
pub struct BoxRef {
    pub kind: [u8; 4],
    pub start: usize,
    /// 8, or 16 for 64-bit largesize.
    pub header_len: usize,
    /// Header + payload.
    pub total_len: usize,
}

/// A located box: its type, where it starts, and the lengths of its header and of the
/// whole.
pub ghost struct BoxModel {
    pub kind: Seq<u8>,
    pub start: int,
    pub header: int,
    pub total: int,
}

impl BoxModel {
    /// Where the box ends.
    pub open spec fn end(self) -> int {
        self.start + self.total
    }

    /// Where the payload starts.
    pub open spec fn body(self) -> int {
        self.start + self.header
    }

    /// The payload, out of the buffer that holds the box.
    pub open spec fn payload(self, d: Seq<u8>) -> Seq<u8> {
        d.subrange(self.body(), self.end())
    }

    /// The whole box, out of the buffer that holds it.
    pub open spec fn bytes(self, d: Seq<u8>) -> Seq<u8> {
        d.subrange(self.start, self.end())
    }

    /// The box lies in `d`, header and payload.
    pub open spec fn inside(self, d: Seq<u8>) -> bool {
        &&& 0 <= self.start
        &&& 8 <= self.header <= 16
        &&& self.header <= self.total
        &&& self.end() <= d.len()
        &&& self.kind == d.subrange(self.start + 4, self.start + 8)
    }
}

/// What a box reference stands for.
pub open spec fn box_view(b: BoxRef) -> BoxModel {
    BoxModel {
        kind: b.kind@,
        start: b.start as int,
        header: b.header_len as int,
        total: b.total_len as int,
    }
}

/// What box references stand for.
pub open spec fn box_views(s: Seq<BoxRef>) -> Seq<BoxModel> {
    Seq::new(s.len(), |i: int| box_view(s[i]))
}

/// Every box lies in `d`.
pub open spec fn all_inside(s: Seq<BoxModel>, d: Seq<u8>) -> bool {
    forall|i: int| 0 <= i < s.len() ==> (#[trigger] s[i]).inside(d)
}

impl BoxRef {
    /// Where the payload starts.
    pub fn payload_start(&self) -> (r: usize)
        requires
            self.start + self.header_len <= usize::MAX,
        ensures
            r == box_view(*self).body(),
    {
        self.start + self.header_len
    }

    /// Where the box ends.
    pub fn end(&self) -> (r: usize)
        requires
            self.start + self.total_len <= usize::MAX,
        ensures
            r == box_view(*self).end(),
    {
        self.start + self.total_len
    }

    /// The payload. `buf` must be the same buffer `read_box` parsed this header from.
    pub fn payload<'a>(&self, buf: &'a [u8]) -> (r: &'a [u8])
        requires
            box_view(*self).inside(buf@),
        ensures
            r@ == box_view(*self).payload(buf@),
    {
        let n: usize = buf.len();
        assert(self.start + self.total_len <= n);
        slice_subrange(buf, self.start + self.header_len, self.start + self.total_len)
    }
}

/// A parsed box header (the payload need not be in memory). Public so a
/// reader can reason about box bounds while seeking.
#[derive(Debug, Clone, Copy, PartialEq, Eq)]
pub struct BoxHeader {
    /// The 4-byte box type, e.g. `*b"moov"`.
    pub kind: [u8; 4],
    /// 8, or 16 for a 64-bit largesize.
    pub header_len: u64,
    /// Total box length: header + payload.
    pub total_len: u64,
}

/// The lengths of header and whole that the header `h` declares, where `remaining` bytes
/// are left from its start on; `None` where `h` is cut short or the box does not fit.
pub open spec fn declared(h: Seq<u8>, remaining: int) -> Option<(int, int)> {
    if h.len() < 8 || (be32(h, 0) == 1 && h.len() < 16) {
        None
    } else {
        let header = if be32(h, 0) == 1 {
            16int
        } else {
            8
        };
        let total = if be32(h, 0) == 1 {
            be64(h, 8)
        } else if be32(h, 0) == 0 {
            remaining
        } else {
            be32(h, 0)
        };
        if total < header || total > remaining {
            None
        } else {
            Some((header, total))
        }
    }
}

/// Parse a box header from `hdr` (>= 8 bytes; >= 16 if it uses a 64-bit
/// largesize). `remaining` is the byte count from this box's start to EOF, used
/// to resolve a `size == 0` ("extends to end") box.
pub fn box_header(hdr: &[u8], remaining: u64) -> (r: Result<BoxHeader>)
    ensures
        match r {
            Ok(b) => declared(hdr@, remaining as int) == Some(
                (b.header_len as int, b.total_len as int),
            ) && b.kind@ == hdr@.subrange(4, 8),
            Err(e) => e == FormatError::Malformed && declared(hdr@, remaining as int) is None,
        },
{
    if hdr.len() < 8 {
        return Err(FormatError::Malformed);
    }
    let size32 = match read_u32_be(hdr, 0) {
        Ok(v) => v,
        Err(e) => {
            return Err(e);
        },
    };
    let kind: [u8; 4] = [hdr[4], hdr[5], hdr[6], hdr[7]];
    assert(kind@ =~= hdr@.subrange(4, 8));
    let mut header_len: u64 = 8;
    let mut total_len: u64 = size32 as u64;
    if size32 == 1 {
        header_len = 16;
        total_len = match read_u64_be(hdr, 8) {
            Ok(v) => v,
            Err(e) => {
                return Err(e);
            },
        };
    } else if size32 == 0 {
        total_len = remaining;
    }
    if total_len < header_len || total_len > remaining {
        return Err(FormatError::Malformed);
    }
    Ok(BoxHeader { kind, header_len, total_len })
}

/// The box at `p`; `None` where none fits there.
pub open spec fn box_at(d: Seq<u8>, p: int) -> Option<BoxModel> {
    if p > d.len() {
        None
    } else {
        match declared(d.skip(p), d.len() - p) {
            Some((header, total)) => Some(
                BoxModel { kind: d.subrange(p + 4, p + 8), start: p, header, total },
            ),
            None => None,
        }
    }
}

/// The box that starts at `pos`.
pub fn read_box(buf: &[u8], pos: usize) -> (r: Result<BoxRef>)
    ensures
        match r {
            Ok(b) => box_at(buf@, pos as int) == Some(box_view(b)) && box_view(b).inside(buf@),
            Err(e) => e == FormatError::Malformed && box_at(buf@, pos as int) is None,
        },
{
    let n: usize = buf.len();
    if pos > n {
        return Err(FormatError::Malformed);
    }
    let rest = slice_subrange(buf, pos, n);
    assert(rest@ =~= buf@.skip(pos as int));
    match box_header(rest, (n - pos) as u64) {
        Ok(b) => {
            assert(rest@.subrange(4, 8) =~= buf@.subrange(pos + 4, pos + 8));
            Ok(
                BoxRef {
                    kind: b.kind,
                    start: pos,
                    header_len: b.header_len as usize,
                    total_len: b.total_len as usize,
                },
            )
        },
        Err(e) => Err(e),
    }
}

/// The run of boxes from `p` on, up to the first place where none fits.
pub open spec fn boxes_from(d: Seq<u8>, p: int) -> Seq<BoxModel>
    decreases d.len() - p,
{
    match box_at(d, p) {
        Some(b) if b.total > 0 => seq![b] + boxes_from(d, b.end()),
        _ => Seq::empty(),
    }
}

/// Where the run of boxes from `p` on ends.
pub open spec fn boxes_end(d: Seq<u8>, p: int) -> int
    decreases d.len() - p,
{
    match box_at(d, p) {
        Some(b) if b.total > 0 => boxes_end(d, b.end()),
        _ => p,
    }
}

/// The child boxes in `d`, up to the first that is unreadable.
pub open spec fn boxes(d: Seq<u8>) -> Seq<BoxModel> {
    boxes_from(d, 0)
}

/// `d` is boxes throughout: fewer than eight bytes are left behind the last.
pub open spec fn well_boxed(d: Seq<u8>) -> bool {
    boxes_end(d, 0) + 8 > d.len()
}

/// Boxes of a run lie in the buffer.
pub proof fn boxes_lie_inside(d: Seq<u8>, p: int)
    requires
        0 <= p,
    ensures
        all_inside(boxes_from(d, p), d),
        p <= d.len() ==> p <= boxes_end(d, p) <= d.len(),
        p > d.len() ==> boxes_end(d, p) == p,
    decreases d.len() - p,
{
    match box_at(d, p) {
        Some(b) if b.total > 0 => {
            boxes_lie_inside(d, b.end());
            let s = boxes_from(d, p);
            assert forall|i: int| 0 <= i < s.len() implies (#[trigger] s[i]).inside(d) by {
                if i > 0 {
                    assert(s[i] == boxes_from(d, b.end())[i - 1]);
                }
            }
        },
        _ => {},
    }
}

/// The child boxes of `buf`; `Malformed` where one is unreadable.
pub fn child_boxes(buf: &[u8]) -> (r: Result<Vec<BoxRef>>)
    ensures
        match r {
            Ok(v) => well_boxed(buf@) && box_views(v@) == boxes(buf@) && all_inside(
                box_views(v@),
                buf@,
            ),
            Err(e) => e == FormatError::Malformed && !well_boxed(buf@),
        },
{
    let (out, end) = walk_boxes(buf);
    if buf.len() - end >= 8 {
        return Err(FormatError::Malformed);
    }
    Ok(out)
}

/// The run of readable boxes at the front of `buf`, and where it ends.
pub fn walk_boxes(buf: &[u8]) -> (r: (Vec<BoxRef>, usize))
    ensures
        box_views(r.0@) == boxes(buf@),
        all_inside(box_views(r.0@), buf@),
        r.1 == boxes_end(buf@, 0),
        r.1 <= buf@.len(),
{
    let ghost d = buf@;
    let mut out: Vec<BoxRef> = Vec::new();
    let mut pos: usize = 0;
    let n: usize = buf.len();
    proof {
        boxes_lie_inside(d, 0);
        assert(box_views(out@) + boxes_from(d, 0) =~= boxes(d));
    }
    loop
        invariant_except_break
            box_views(out@) + boxes_from(d, pos as int) == boxes(d),
            boxes_end(d, pos as int) == boxes_end(d, 0),
        invariant
            d == buf@,
            n == d.len(),
            pos <= d.len(),
        ensures
            box_views(out@) == boxes(d),
            pos == boxes_end(d, 0),
        decreases d.len() - pos,
    {
        match read_box(buf, pos) {
            Ok(b) => {
                let ghost before = box_views(out@);
                out.push(b);
                proof {
                    let v = box_view(b);
                    assert(box_views(out@) =~= before.push(v));
                    assert(before + (seq![v] + boxes_from(d, v.end())) =~= before.push(v)
                        + boxes_from(d, v.end()));
                }
                pos = b.end();
            },
            Err(_) => {
                assert(box_views(out@) + Seq::<BoxModel>::empty() =~= box_views(out@));
                break;
            },
        }
    }
    (out, pos)
}

/// Like [`child_boxes`] but lenient: stops at the first unreadable box and
/// returns the well-formed ones parsed so far, rather than discarding the whole
/// list. Box sizes chain, so a malformed box leaves no reliable way to find the
/// next: the prefix is the most that can be recovered. Used by the metadata
/// extractors, whose contract is to seed what they can and skip the rest.
pub fn child_boxes_lenient(buf: &[u8]) -> (r: Vec<BoxRef>)
    ensures
        box_views(r@) == boxes(buf@),
        all_inside(box_views(r@), buf@),
{
    walk_boxes(buf).0
}

/// The first box of type `kind`.
pub open spec fn first_of(s: Seq<BoxModel>, kind: Seq<u8>) -> Option<BoxModel>
    decreases s.len(),
{
    if s.len() == 0 {
        None
    } else if s[0].kind == kind {
        Some(s[0])
    } else {
        first_of(s.drop_first(), kind)
    }
}

/// The boxes of type `kind`.
pub open spec fn of_kind(s: Seq<BoxModel>, kind: Seq<u8>) -> Seq<BoxModel>
    decreases s.len(),
{
    if s.len() == 0 {
        Seq::empty()
    } else if s.last().kind == kind {
        of_kind(s.drop_last(), kind).push(s.last())
    } else {
        of_kind(s.drop_last(), kind)
    }
}

/// What an optional box reference stands for.
pub open spec fn opt_box_view(b: Option<BoxRef>) -> Option<BoxModel> {
    match b {
        Some(b) => Some(box_view(b)),
        None => None,
    }
}

/// The first box of a list that has type `kind`.
pub fn first_box(list: &Vec<BoxRef>, kind: &[u8; 4]) -> (r: Option<BoxRef>)
    ensures
        opt_box_view(r) == first_of(box_views(list@), kind@),
        match r {
            Some(b) => exists|i: int| 0 <= i < list@.len() && b == #[trigger] list@[i],
            None => true,
        },
{
    let ghost all = box_views(list@);
    let mut i: usize = 0;
    assert(all.skip(0) =~= all);
    while i < list.len()
        invariant
            i <= list@.len(),
            all == box_views(list@),
            first_of(all.skip(i as int), kind@) == first_of(all, kind@),
        decreases list@.len() - i,
    {
        assert(all.skip(i as int).drop_first() =~= all.skip(i + 1));
        if same_kind(&list[i].kind, kind) {
            return Some(list[i]);
        }
        i = i + 1;
    }
    None
}

/// The first child box of type `kind`; `Malformed` where a child is unreadable.
pub fn find_box(buf: &[u8], kind: &[u8; 4]) -> (r: Result<Option<BoxRef>>)
    ensures
        match r {
            Ok(o) => well_boxed(buf@) && opt_box_view(o) == first_of(boxes(buf@), kind@) && (
            o is Some ==> box_view(o->0).inside(buf@)),
            Err(e) => e == FormatError::Malformed && !well_boxed(buf@),
        },
{
    match child_boxes(buf) {
        Ok(list) => {
            let r = first_box(&list, kind);
            proof {
                listed_box_is_inside(list@, r, buf@);
            }
            Ok(r)
        },
        Err(e) => Err(e),
    }
}

/// A box taken out of a list of boxes in `d` lies in `d`.
pub proof fn listed_box_is_inside(list: Seq<BoxRef>, b: Option<BoxRef>, d: Seq<u8>)
    requires
        all_inside(box_views(list), d),
        b is Some ==> exists|i: int| 0 <= i < list.len() && b->0 == #[trigger] list[i],
    ensures
        b is Some ==> box_view(b->0).inside(d),
{
    if b is Some {
        let i = choose|i: int| 0 <= i < list.len() && b->0 == #[trigger] list[i];
        assert(box_views(list)[i].inside(d));
    }
}

/// Like [`find_box`] but lenient: scans only the well-formed prefix
/// ([`child_boxes_lenient`]), so a malformed trailing child of a `----` atom
/// can't drop a valid `name`/`mean` that precedes it.
pub fn find_box_lenient(buf: &[u8], kind: &[u8; 4]) -> (r: Option<BoxRef>)
    ensures
        opt_box_view(r) == first_of(boxes(buf@), kind@),
        r is Some ==> box_view(r->0).inside(buf@),
{
    let list = child_boxes_lenient(buf);
    let r = first_box(&list, kind);
    proof {
        listed_box_is_inside(list@, r, buf@);
    }
    r
}

/// The payload of the first child box of type `kind`, lenient.
pub open spec fn first_payload(d: Seq<u8>, kind: Seq<u8>) -> Option<Seq<u8>> {
    match first_of(boxes(d), kind) {
        Some(b) => Some(b.payload(d)),
        None => None,
    }
}

/// The payload of the first child box of type `kind`, lenient.
pub fn find_payload<'a>(buf: &'a [u8], kind: &[u8; 4]) -> (r: Option<&'a [u8]>)
    ensures
        match r {
            Some(p) => first_payload(buf@, kind@) == Some(p@),
            None => first_payload(buf@, kind@) is None,
        },
{
    match find_box_lenient(buf, kind) {
        Some(b) => Some(b.payload(buf)),
        None => None,
    }
}

/// The payloads of boxes.
pub open spec fn payloads_of(s: Seq<BoxModel>, d: Seq<u8>) -> Seq<Seq<u8>> {
    Seq::new(s.len(), |i: int| s[i].payload(d))
}

/// The payloads of the well-formed child boxes of type `kind`, in order.
pub open spec fn payloads(d: Seq<u8>, kind: Seq<u8>) -> Seq<Seq<u8>> {
    payloads_of(of_kind(boxes(d), kind), d)
}

/// What byte slices hold.
pub open spec fn slice_views(s: Seq<&[u8]>) -> Seq<Seq<u8>> {
    Seq::new(s.len(), |i: int| s[i]@)
}

/// The payloads of `buf`'s well-formed child boxes of type `kind`, in order.
pub fn child_payloads<'a>(buf: &'a [u8], kind: &[u8; 4]) -> (r: Vec<&'a [u8]>)
    ensures
        slice_views(r@) == payloads(buf@, kind@),
{
    let list = child_boxes_lenient(buf);
    let ghost all = box_views(list@);
    let mut out: Vec<&'a [u8]> = Vec::new();
    let mut i: usize = 0;
    assert(slice_views(out@) =~= payloads_of(of_kind(all.take(0), kind@), buf@));
    while i < list.len()
        invariant
            i <= list@.len(),
            all == box_views(list@),
            all_inside(all, buf@),
            slice_views(out@) == payloads_of(of_kind(all.take(i as int), kind@), buf@),
        decreases list@.len() - i,
    {
        let ghost before = slice_views(out@);
        assert(all.take(i + 1).drop_last() =~= all.take(i as int));
        assert(all[i as int].inside(buf@));
        if same_kind(&list[i].kind, kind) {
            let p = list[i].payload(buf);
            out.push(p);
            assert(slice_views(out@) =~= before.push(p@));
            assert(slice_views(out@) =~= payloads_of(of_kind(all.take(i + 1), kind@), buf@));
        }
        i = i + 1;
    }
    assert(all.take(i as int) =~= all);
    out
}

/// Where a path leads.
pub ghost enum PathEnd {
    /// A box list on the way is unreadable.
    Broken,
    /// A step is missing.
    Nowhere,
    /// Payload start and length of the last box.
    At(int, int),
}

/// Box types as sequences.
pub open spec fn kinds_view(path: Seq<&[u8; 4]>) -> Seq<Seq<u8>> {
    Seq::new(path.len(), |i: int| path[i]@)
}

/// Where `path` leads in `d`, which stands at `base`. Each step takes the first box of its
/// type in the payload of the one before.
pub open spec fn path_from(d: Seq<u8>, base: int, path: Seq<Seq<u8>>, at: PathEnd) -> PathEnd
    decreases path.len(),
{
    if path.len() == 0 {
        at
    } else if !well_boxed(d) {
        PathEnd::Broken
    } else {
        match first_of(boxes(d), path[0]) {
            Some(b) => path_from(
                b.payload(d),
                base + b.body(),
                path.drop_first(),
                PathEnd::At(base + b.body(), b.total - b.header),
            ),
            None => PathEnd::Nowhere,
        }
    }
}

/// Where `path` leads.
pub open spec fn path_end(d: Seq<u8>, path: Seq<Seq<u8>>) -> PathEnd {
    path_from(d, 0, path, PathEnd::Nowhere)
}

/// Descend a path of box types; return `(payload_start, payload_len)` relative to
/// `buf` for the box at the end of the path, or None if any step is missing.
pub fn find_path(buf: &[u8], path: &[&[u8; 4]]) -> (r: Result<Option<(usize, usize)>>)
    ensures
        match r {
            Ok(Some((s, n))) => path_end(buf@, kinds_view(path@)) == PathEnd::At(s as int, n as int)
                && s + n <= buf@.len(),
            Ok(None) => path_end(buf@, kinds_view(path@)) is Nowhere,
            Err(e) => e == FormatError::Malformed && path_end(buf@, kinds_view(path@)) is Broken,
        },
{
    let ghost d = buf@;
    let ghost all = kinds_view(path@);
    let n: usize = buf.len();
    let mut region: &[u8] = buf;
    let mut base: usize = 0;
    let mut last: Option<(usize, usize)> = None;
    let mut i: usize = 0;
    let ghost mut at = PathEnd::Nowhere;
    assert(all.skip(0) =~= all);
    while i < path.len()
        invariant
            d == buf@,
            n == d.len(),
            all == kinds_view(path@),
            i <= path@.len(),
            base + region@.len() <= n,
            match last {
                Some((s, m)) => at == PathEnd::At(s as int, m as int) && s + m <= n,
                None => at is Nowhere,
            },
            path_from(region@, base as int, all.skip(i as int), at) == path_end(d, all),
        decreases path@.len() - i,
    {
        assert(all.skip(i as int).drop_first() =~= all.skip(i + 1));
        assert(all.skip(i as int)[0] == path@[i as int]@);
        match find_box(region, path[i]) {
            Err(e) => {
                return Err(e);
            },
            Ok(None) => {
                return Ok(None);
            },
            Ok(Some(b)) => {
                let ps: usize = base + b.payload_start();
                let len: usize = b.total_len - b.header_len;
                proof {
                    at = PathEnd::At(ps as int, len as int);
                }
                last = Some((ps, len));
                base = ps;
                region = b.payload(region);
            },
        }
        i = i + 1;
    }
    Ok(last)
}

} // verus!
