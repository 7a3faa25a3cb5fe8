//! The supported file shape: which boxes a file must have, where its audio lies, and what
//! synthesis needs of it.

use crate::bytes::be32;
use crate::bytes::copy_range;
use crate::bytes::read_u32_be;
use crate::error::FormatError;
use crate::error::Result;
use crate::mp4::boxes::all_inside;
use crate::mp4::boxes::box_at;
use crate::mp4::boxes::box_header;
use crate::mp4::boxes::box_view;
use crate::mp4::boxes::box_views;
use crate::mp4::boxes::boxes;
use crate::mp4::boxes::boxes_end;
use crate::mp4::boxes::boxes_from;
use crate::mp4::boxes::child_boxes;
use crate::mp4::boxes::declared;
use crate::mp4::boxes::find_path;
use crate::mp4::boxes::first_box;
use crate::mp4::boxes::first_of;
use crate::mp4::boxes::kinds_view;
use crate::mp4::boxes::of_kind;
use crate::mp4::boxes::path_end;
use crate::mp4::boxes::payloads;
use crate::mp4::boxes::same_kind;
use crate::mp4::boxes::well_boxed;
use crate::mp4::boxes::BoxHeader;
use crate::mp4::boxes::BoxModel;
use crate::mp4::boxes::BoxRef;
use crate::mp4::boxes::PathEnd;
use crate::mp4::boxes::FTYP;
use crate::mp4::boxes::HDLR;
use crate::mp4::boxes::MDAT;
use crate::mp4::boxes::MDIA;
use crate::mp4::boxes::MOOF;
use crate::mp4::boxes::MOOV;
use crate::mp4::boxes::MVEX;
use crate::mp4::boxes::SBTL;
use crate::mp4::boxes::SOUN;
use crate::mp4::boxes::TEXT;
use crate::mp4::boxes::TRAK;
use crate::text::lossy_text;
use crate::text::utf8_text_lossy;
use vstd::prelude::*;
use vstd::slice::slice_subrange;
use vstd::string::*;

verus! {

/// The largest `ftyp` or `moov` box that a seeking reader loads.
pub const MAX_MP4_METADATA_BYTES: u64 = 0x1000_0000;

/// Audio payload bounds within the backing file (the verbatim `mdat` payload).
#[derive(Debug, Clone, Copy, PartialEq, Eq)]
pub struct Mp4Bounds {
    pub audio_offset: u64,
    pub audio_length: u64,
}

/// Everything `synthesize_layout` needs, read from the backing file once.
#[derive(Debug, Clone, PartialEq, Eq)]
pub struct Mp4Scan {
    pub ftyp: Vec<u8>,
    pub moov: Vec<u8>,
    pub mdat_header: Vec<u8>,
    pub mdat_payload_offset: u64,
    pub mdat_payload_len: u64,
}

/// Why a seeking read of the structure fails, other than for I/O.
#[derive(Debug, PartialEq, Eq)]
pub enum Mp4ScanError {
    /// A structural/format problem.
    Format(FormatError),
    /// A metadata box exceeds the cap.
    MetadataTooLarge { box_kind: &'static str, size: u64, cap: u64 },
}

/// The handler type of a track: `None` where its boxes are unreadable, `Some(None)` where
/// there is no readable `hdlr`.
pub open spec fn track_handler(trak: Seq<u8>) -> Option<Option<Seq<u8>>> {
    match path_end(trak, seq![MDIA@, HDLR@]) {
        PathEnd::Broken => None,
        PathEnd::Nowhere => Some(None),
        PathEnd::At(s, n) => if n >= 12 {
            Some(Some(trak.subrange(s + 8, s + 12)))
        } else {
            Some(None)
        },
    }
}

/// The handler types of tracks; `None` where the boxes of one are unreadable.
pub open spec fn track_handlers(traks: Seq<Seq<u8>>) -> Option<Seq<Option<Seq<u8>>>>
    decreases traks.len(),
{
    if traks.len() == 0 {
        Some(Seq::empty())
    } else {
        match (track_handlers(traks.drop_last()), track_handler(traks.last())) {
            (Some(s), Some(h)) => Some(s.push(h)),
            _ => None,
        }
    }
}

/// An audio track.
pub open spec fn is_audio_handler(h: Option<Seq<u8>>) -> bool {
    h == Some(SOUN@)
}

/// A track that may stand in a served file: audio, or a QuickTime-style chapter track,
/// carried as a second `text` (or `sbtl`) track.
pub open spec fn supported_handler(h: Option<Seq<u8>>) -> bool {
    h == Some(SOUN@) || h == Some(TEXT@) || h == Some(SBTL@)
}

/// How many tracks are audio.
pub open spec fn audio_tracks(hs: Seq<Option<Seq<u8>>>) -> int
    decreases hs.len(),
{
    if hs.len() == 0 {
        0
    } else {
        audio_tracks(hs.drop_last()) + if is_audio_handler(hs.last()) {
            1int
        } else {
            0
        }
    }
}

/// Every track may stand in a served file.
pub open spec fn all_supported(hs: Seq<Option<Seq<u8>>>) -> bool {
    forall|i: int| 0 <= i < hs.len() ==> supported_handler(#[trigger] hs[i])
}

/// A handler type as text.
pub open spec fn handler_name(h: Option<Seq<u8>>) -> Seq<char> {
    match h {
        Some(k) => lossy_text(k),
        None => "<no hdlr>"@,
    }
}

/// Handler types as text, separated by commas.
pub open spec fn handler_list(hs: Seq<Option<Seq<u8>>>) -> Seq<char>
    decreases hs.len(),
{
    if hs.len() == 0 {
        Seq::empty()
    } else if hs.len() == 1 {
        handler_name(hs[0])
    } else {
        handler_list(hs.drop_last()) + ", "@ + handler_name(hs.last())
    }
}

/// What is said of tracks that are not supported.
pub open spec fn tracks_message(hs: Seq<Option<Seq<u8>>>) -> Seq<char> {
    "expected one audio (soun) track, optionally with text/sbtl chapter tracks; found ["@
        + handler_list(hs) + "]"@
}

/// What is to be said of a `moov`.
pub ghost enum MoovVerdict {
    Good,
    Malformed,
    NotMp4,
    Tracks(Seq<char>),
}

/// The verdict on a `moov` payload.
pub open spec fn moov_verdict(p: Seq<u8>) -> MoovVerdict {
    if !well_boxed(p) {
        MoovVerdict::Malformed
    } else if first_of(boxes(p), MVEX@) is Some {
        MoovVerdict::NotMp4
    } else {
        match track_handlers(payloads(p, TRAK@)) {
            None => MoovVerdict::Malformed,
            Some(hs) => if audio_tracks(hs) == 1 && all_supported(hs) {
                MoovVerdict::Good
            } else {
                MoovVerdict::Tracks(tracks_message(hs))
            },
        }
    }
}

/// The error says what the verdict says.
pub open spec fn reports(e: FormatError, v: MoovVerdict) -> bool {
    match v {
        MoovVerdict::Good => false,
        MoovVerdict::Malformed => e == FormatError::Malformed,
        MoovVerdict::NotMp4 => e == FormatError::NotMp4,
        MoovVerdict::Tracks(m) => match e {
            FormatError::Mp4Tracks(s) => s@ == m,
            _ => false,
        },
    }
}

/// The handler type of a track.
fn read_handler(trak: &[u8]) -> (r: Result<Option<[u8; 4]>>)
    ensures
        match r {
            Ok(Some(h)) => track_handler(trak@) == Some(Some(h@)),
            Ok(None) => track_handler(trak@) == Some(None::<Seq<u8>>),
            Err(e) => e == FormatError::Malformed && track_handler(trak@) is None,
        },
{
    let path: [&[u8; 4]; 2] = [&MDIA, &HDLR];
    assert(kinds_view(path@) =~= seq![MDIA@, HDLR@]);
    match find_path(trak, path.as_slice()) {
        Err(e) => Err(e),
        Ok(None) => Ok(None),
        Ok(Some((s, n))) => {
            let len: usize = trak.len();
            assert(s + n <= len);
            if n < 12 {
                return Ok(None);
            }
            let h: [u8; 4] = [trak[s + 8], trak[s + 9], trak[s + 10], trak[s + 11]];
            assert(h@ =~= trak@.subrange(s + 8, s + 12));
            Ok(Some(h))
        },
    }
}

/// Tracks whose boxes one cannot read spoil any longer list.
proof fn handlers_of_prefix(traks: Seq<Seq<u8>>, n: int)
    requires
        0 <= n <= traks.len(),
        track_handlers(traks.take(n)) is None,
    ensures
        track_handlers(traks) is None,
    decreases traks.len(),
{
    if n == traks.len() {
        assert(traks.take(n) =~= traks);
    } else {
        assert(traks.drop_last().take(n) =~= traks.take(n));
        handlers_of_prefix(traks.drop_last(), n);
    }
}

/// Validate the internal `moov` shape: no fragmentation (`mvex`), exactly one
/// audio (`soun`) track, and every other track a chapter track (`text` or `sbtl`).
/// `moov_payload` is the bytes inside the `moov` box (after its header).
///
/// On rejection the error names the handler types found, so a skipped file
/// explains itself.
pub fn validate_moov(moov_payload: &[u8]) -> (r: Result<()>)
    ensures
        match r {
            Ok(_) => moov_verdict(moov_payload@) is Good,
            Err(e) => reports(e, moov_verdict(moov_payload@)),
        },
{
    let list = match child_boxes(moov_payload) {
        Ok(v) => v,
        Err(e) => {
            return Err(e);
        },
    };
    if first_box(&list, &MVEX).is_some() {
        return Err(FormatError::NotMp4);
    }
    let traks = crate::mp4::boxes::child_payloads(moov_payload, &TRAK);
    let ghost all = payloads(moov_payload@, TRAK@);
    let ghost mut hs: Seq<Option<Seq<u8>>> = Seq::empty();
    let mut names: String = String::new();
    let mut soun: usize = 0;
    let mut unsupported = false;
    let mut i: usize = 0;
    assert(names@ =~= handler_list(hs));
    assert(all.take(0) =~= Seq::empty());
    proof {
        reveal_strlit(", ");
    }
    while i < traks.len()
        invariant
            i <= traks@.len(),
            all == crate::mp4::boxes::slice_views(traks@),
            all == payloads(moov_payload@, TRAK@),
            well_boxed(moov_payload@),
            first_of(boxes(moov_payload@), MVEX@) is None,
            track_handlers(all.take(i as int)) == Some(hs),
            hs.len() == i,
            names@ == handler_list(hs),
            soun == audio_tracks(hs),
            soun <= i,
            unsupported == !all_supported(hs),
        decreases traks@.len() - i,
    {
        assert(all.take(i + 1).drop_last() =~= all.take(i as int));
        assert(all.take(i + 1).last() == traks@[i as int]@);
        // A `trak` with no readable `hdlr` cannot be classified; describe it and
        // let the tally below reject, rather than erroring with no explanation.
        let handler = match read_handler(traks[i]) {
            Ok(h) => h,
            Err(e) => {
                proof {
                    handlers_of_prefix(all, i + 1);
                }
                return Err(e);
            },
        };
        let ghost before = hs;
        let ghost h: Option<Seq<u8>> = match handler {
            Some(k) => Some(k@),
            None => None,
        };
        proof {
            hs = before.push(h);
            assert(hs.drop_last() =~= before);
            assert(hs.last() == h);
            assert(all_supported(hs) == (all_supported(before) && supported_handler(h))) by {
                assert(hs[i as int] == h);
                if all_supported(hs) {
                    assert forall|j: int| 0 <= j < before.len() implies supported_handler(
                        #[trigger] before[j],
                    ) by {
                        assert(before[j] == hs[j]);
                    }
                }
            }
        }
        if i > 0 {
            names.append(", ");
        }
        match handler {
            Some(k) => {
                if same_kind(&k, &SOUN) {
                    soun = soun + 1;
                } else if !same_kind(&k, &TEXT) && !same_kind(&k, &SBTL) {
                    unsupported = true;
                }
                let name = utf8_text_lossy(k.as_slice());
                names.append(name.as_str());
            },
            None => {
                unsupported = true;
                names.append("<no hdlr>");
            },
        }
        assert(names@ =~= handler_list(hs));
        i = i + 1;
    }
    assert(all.take(i as int) =~= all);
    if soun != 1 || unsupported {
        let mut message: String =
            "expected one audio (soun) track, optionally with text/sbtl chapter tracks; found [".to_owned();
        message.append(names.as_str());
        message.append("]");
        assert(message@ =~= tracks_message(hs));
        return Err(FormatError::Mp4Tracks(message));
    }
    Ok(())
}

/// The three boxes that a supported file has once each.
pub ghost struct Shape {
    pub ftyp: BoxModel,
    pub moov: BoxModel,
    pub mdat: BoxModel,
}

/// There is one box of type `kind`.
pub open spec fn just_one(s: Seq<BoxModel>, kind: Seq<u8>) -> bool {
    of_kind(s, kind).len() == 1
}

/// The shape of a file: `None` where a box is unreadable, where there is a fragment, or
/// where one of the three boxes is missing or repeated.
pub open spec fn shape(d: Seq<u8>) -> Option<Shape> {
    let top = boxes(d);
    if well_boxed(d) && of_kind(top, MOOF@).len() == 0 && just_one(top, FTYP@) && just_one(
        top,
        MOOV@,
    ) && just_one(top, MDAT@) {
        Some(
            Shape {
                ftyp: of_kind(top, FTYP@)[0],
                moov: of_kind(top, MOOV@)[0],
                mdat: of_kind(top, MDAT@)[0],
            },
        )
    } else {
        None
    }
}

/// The boxes of one type among boxes of `d` lie in `d`.
pub proof fn of_kind_inside(s: Seq<BoxModel>, d: Seq<u8>, kind: Seq<u8>)
    requires
        all_inside(s, d),
    ensures
        all_inside(of_kind(s, kind), d),
        forall|i: int|
            0 <= i < of_kind(s, kind).len() ==> (#[trigger] of_kind(s, kind)[i]).kind == kind,
    decreases s.len(),
{
    if s.len() > 0 {
        let front = s.drop_last();
        assert forall|i: int| 0 <= i < front.len() implies (#[trigger] front[i]).inside(d) by {
            assert(front[i] == s[i]);
        }
        of_kind_inside(front, d, kind);
        assert(s[s.len() - 1].inside(d));
    }
}

/// The boxes of type `kind` in a list.
pub fn boxes_of(list: &Vec<BoxRef>, kind: &[u8; 4]) -> (r: Vec<BoxRef>)
    ensures
        box_views(r@) == of_kind(box_views(list@), kind@),
{
    let ghost all = box_views(list@);
    let mut out: Vec<BoxRef> = Vec::new();
    let mut i: usize = 0;
    assert(box_views(out@) =~= of_kind(all.take(0), kind@));
    while i < list.len()
        invariant
            i <= list@.len(),
            all == box_views(list@),
            box_views(out@) == of_kind(all.take(i as int), kind@),
        decreases list@.len() - i,
    {
        let ghost before = box_views(out@);
        assert(all.take(i + 1).drop_last() =~= all.take(i as int));
        if same_kind(&list[i].kind, kind) {
            out.push(list[i]);
            assert(box_views(out@) =~= before.push(box_view(list@[i as int])));
        }
        i = i + 1;
    }
    assert(all.take(i as int) =~= all);
    out
}

/// The one box of type `kind` in a list.
fn only(list: &Vec<BoxRef>, kind: &[u8; 4]) -> (r: Option<BoxRef>)
    ensures
        match r {
            Some(b) => just_one(box_views(list@), kind@) && box_view(b) == of_kind(
                box_views(list@),
                kind@,
            )[0],
            None => !just_one(box_views(list@), kind@),
        },
{
    let found = boxes_of(list, kind);
    assert(found@.len() == box_views(found@).len());
    if found.len() != 1 {
        return None;
    }
    assert(box_views(found@)[0] == box_view(found@[0]));
    Some(found[0])
}

/// Validate the supported shape; return the ftyp/moov/mdat boxes (absolute offsets
/// in `buf`). Rejects fragmented, video, and multi-`mdat` files; accepts one audio
/// track plus any number of chapter tracks (see [`validate_moov`]).
pub fn locate(buf: &[u8]) -> (r: Result<(BoxRef, BoxRef, BoxRef)>)
    ensures
        match r {
            Ok((f, m, a)) => shape(buf@) == Some(
                Shape { ftyp: box_view(f), moov: box_view(m), mdat: box_view(a) },
            ) && moov_verdict(box_view(m).payload(buf@)) is Good && box_view(f).inside(buf@)
                && box_view(m).inside(buf@) && box_view(a).inside(buf@),
            Err(e) => match shape(buf@) {
                Some(s) => reports(e, moov_verdict(s.moov.payload(buf@))),
                None => e == FormatError::NotMp4,
            },
        },
{
    let top = match child_boxes(buf) {
        Ok(v) => v,
        Err(_) => {
            return Err(FormatError::NotMp4);
        },
    };
    let fragments = boxes_of(&top, &MOOF);
    assert(fragments@.len() == box_views(fragments@).len());
    if fragments.len() != 0 {
        return Err(FormatError::NotMp4);
    }
    match (only(&top, &FTYP), only(&top, &MOOV), only(&top, &MDAT)) {
        (Some(ftyp), Some(moov), Some(mdat)) => {
            proof {
                of_kind_inside(boxes(buf@), buf@, FTYP@);
                of_kind_inside(boxes(buf@), buf@, MOOV@);
                of_kind_inside(boxes(buf@), buf@, MDAT@);
                assert(of_kind(boxes(buf@), FTYP@)[0].inside(buf@));
                assert(of_kind(boxes(buf@), MOOV@)[0].inside(buf@));
                assert(of_kind(boxes(buf@), MDAT@)[0].inside(buf@));
            }
            match validate_moov(moov.payload(buf)) {
                Ok(_) => Ok((ftyp, moov, mdat)),
                Err(e) => Err(e),
            }
        },
        _ => Err(FormatError::NotMp4),
    }
}

/// Parse the file and return the `mdat` payload bounds, or an error to skip it.
pub fn locate_audio(buf: &[u8]) -> (r: Result<Mp4Bounds>)
    ensures
        match r {
            Ok(b) => match shape(buf@) {
                Some(s) => moov_verdict(s.moov.payload(buf@)) is Good && b.audio_offset
                    == s.mdat.body() && b.audio_length == s.mdat.total - s.mdat.header,
                None => false,
            },
            Err(e) => match shape(buf@) {
                Some(s) => reports(e, moov_verdict(s.moov.payload(buf@))),
                None => e == FormatError::NotMp4,
            },
        },
{
    let n: usize = buf.len();
    match locate(buf) {
        Ok((_, _, mdat)) => {
            assert(mdat.start + mdat.total_len <= n);
            Ok(
                Mp4Bounds {
                    audio_offset: mdat.payload_start() as u64,
                    audio_length: (mdat.total_len - mdat.header_len) as u64,
                },
            )
        },
        Err(e) => Err(e),
    }
}

/// The scan of a file of the given shape.
pub open spec fn is_scan_of(scan: Mp4Scan, s: Shape, d: Seq<u8>) -> bool {
    &&& scan.ftyp@ == s.ftyp.bytes(d)
    &&& scan.moov@ == s.moov.bytes(d)
    &&& scan.mdat_header@ == d.subrange(s.mdat.start, s.mdat.body())
    &&& scan.mdat_payload_offset == s.mdat.body()
    &&& scan.mdat_payload_len == s.mdat.total - s.mdat.header
}

/// Read what synthesis needs out of a file that is in memory.
pub fn read_structure(buf: &[u8]) -> (r: Result<Mp4Scan>)
    ensures
        match r {
            Ok(scan) => match shape(buf@) {
                Some(s) => moov_verdict(s.moov.payload(buf@)) is Good && is_scan_of(scan, s, buf@),
                None => false,
            },
            Err(e) => match shape(buf@) {
                Some(s) => reports(e, moov_verdict(s.moov.payload(buf@))),
                None => e == FormatError::NotMp4,
            },
        },
{
    let n: usize = buf.len();
    match locate(buf) {
        Ok((ftyp, moov, mdat)) => {
            assert(ftyp.start + ftyp.total_len <= n);
            assert(moov.start + moov.total_len <= n);
            assert(mdat.start + mdat.total_len <= n);
            Ok(
                Mp4Scan {
                    ftyp: copy_range(buf, ftyp.start, ftyp.end()),
                    moov: copy_range(buf, moov.start, moov.end()),
                    mdat_header: copy_range(buf, mdat.start, mdat.payload_start()),
                    mdat_payload_offset: mdat.payload_start() as u64,
                    mdat_payload_len: (mdat.total_len - mdat.header_len) as u64,
                },
            )
        },
        Err(e) => Err(e),
    }
}

/// How many bytes the box header takes that begins with `first8`: 16 where its 32-bit size
/// is 1 (a 64-bit largesize follows), else 8.
pub fn header_bytes(first8: &[u8]) -> (r: usize)
    ensures
        r == if first8@.len() >= 4 && be32(first8@, 0) == 1 {
            16int
        } else {
            8
        },
{
    match read_u32_be(first8, 0) {
        Ok(1) => 16,
        _ => 8,
    }
}

/// A box of a file that is not in memory: where it starts, and the lengths of its header
/// and of the whole.
pub ghost struct Spot {
    pub at: int,
    pub header: int,
    pub total: int,
}

/// How far a walk over the top-level boxes has come, and what it has found.
pub ghost struct WalkModel {
    pub pos: int,
    pub ftyp: Option<Spot>,
    pub moov: Option<Spot>,
    pub mdat: Option<Spot>,
    pub repeated: bool,
}

/// A walk that has not begun.
pub open spec fn walk_start() -> WalkModel {
    WalkModel { pos: 0, ftyp: None, moov: None, mdat: None, repeated: false }
}

/// The walk one box further.
pub open spec fn walk_step(w: WalkModel, kind: Seq<u8>, header: int, total: int) -> WalkModel {
    let s = Spot { at: w.pos, header, total };
    let w = if kind == FTYP@ {
        WalkModel { ftyp: Some(s), repeated: w.repeated || w.ftyp is Some, ..w }
    } else if kind == MOOV@ {
        WalkModel { moov: Some(s), repeated: w.repeated || w.moov is Some, ..w }
    } else if kind == MDAT@ {
        WalkModel { mdat: Some(s), repeated: w.repeated || w.mdat is Some, ..w }
    } else {
        w
    };
    WalkModel { pos: w.pos + total, ..w }
}

/// The three boxes that a finished walk has found once each.
pub open spec fn walk_found(w: WalkModel) -> Option<(Spot, Spot, Spot)> {
    match (w.ftyp, w.moov, w.mdat) {
        (Some(f), Some(m), Some(a)) if !w.repeated => Some((f, m, a)),
        _ => None,
    }
}

/// A walk over the top-level boxes of a file that is read by seeking. It asks for box
/// headers alone, never for a payload: for audiobooks the `mdat` payload is hundreds
/// of MB and is served from the backing file at read time.
#[derive(Debug, Clone, Copy, PartialEq, Eq)]
pub struct StructureWalk {
    file_len: u64,
    pos: u64,
    ftyp: Option<(u64, BoxHeader)>,
    moov: Option<(u64, BoxHeader)>,
    mdat: Option<(u64, BoxHeader)>,
    repeated: bool,
}

/// What a found box stands for.
pub closed spec fn spot_view(b: Option<(u64, BoxHeader)>) -> Option<Spot> {
    match b {
        Some((at, h)) => Some(
            Spot { at: at as int, header: h.header_len as int, total: h.total_len as int },
        ),
        None => None,
    }
}

/// A found box ends inside the file.
pub closed spec fn spot_fits(b: Option<(u64, BoxHeader)>, file_len: u64) -> bool {
    match b {
        Some((at, h)) => h.header_len <= h.total_len && at + h.total_len <= file_len,
        None => true,
    }
}

impl View for StructureWalk {
    type V = WalkModel;

    closed spec fn view(&self) -> WalkModel {
        WalkModel {
            pos: self.pos as int,
            ftyp: spot_view(self.ftyp),
            moov: spot_view(self.moov),
            mdat: spot_view(self.mdat),
            repeated: self.repeated,
        }
    }
}

/// What a finished walk asks to be read: the whole `ftyp` and `moov` boxes and the header
/// of `mdat`.
#[derive(Debug, Clone, Copy, PartialEq, Eq)]
pub struct StructurePlan {
    pub ftyp_at: u64,
    pub ftyp_len: u64,
    pub moov_at: u64,
    pub moov_len: u64,
    pub moov_header_len: u64,
    pub mdat_at: u64,
    pub mdat_header_len: u64,
    pub mdat_payload_offset: u64,
    pub mdat_payload_len: u64,
}

/// The plan asks for the boxes found.
pub open spec fn is_plan_of(p: StructurePlan, f: Spot, m: Spot, a: Spot) -> bool {
    &&& p.ftyp_at == f.at
    &&& p.ftyp_len == f.total
    &&& p.moov_at == m.at
    &&& p.moov_len == m.total
    &&& p.moov_header_len == m.header
    &&& p.mdat_at == a.at
    &&& p.mdat_header_len == a.header
    &&& p.mdat_payload_offset == a.at + a.header
    &&& p.mdat_payload_len == a.total - a.header
}

impl StructureWalk {
    /// The length of the file.
    pub closed spec fn len(self) -> int {
        self.file_len as int
    }

    #[verifier::type_invariant]
    pub closed spec fn wf(self) -> bool {
        &&& self.pos <= self.file_len
        &&& spot_fits(self.ftyp, self.file_len)
        &&& spot_fits(self.moov, self.file_len)
        &&& spot_fits(self.mdat, self.file_len)
    }

    /// A walk over a file of `file_len` bytes.
    pub fn new(file_len: u64) -> (r: StructureWalk)
        ensures
            r@ == walk_start(),
            r.len() == file_len,
    {
        StructureWalk { file_len, pos: 0, ftyp: None, moov: None, mdat: None, repeated: false }
    }

    /// Where the next box header is to be read; `None` when the walk is over, with fewer
    /// than eight bytes left.
    pub fn next_header(&self) -> (r: Option<u64>)
        ensures
            match r {
                Some(at) => at == self@.pos && at + 8 <= self.len(),
                None => self@.pos + 8 > self.len(),
            },
    {
        proof {
            use_type_invariant(*self);
        }
        if self.file_len - self.pos >= 8 {
            Some(self.pos)
        } else {
            None
        }
    }

    /// Take the box header `hdr` that stands at the walk's place, and go on behind its box.
    /// A header that does not fit the rest of the file is `Malformed`, a fragment `NotMp4`.
    pub fn step(&mut self, hdr: &[u8]) -> (r: Result<()>)
        ensures
            final(self).len() == old(self).len(),
            match r {
                Ok(_) => match declared(hdr@, old(self).len() - old(self)@.pos) {
                    Some((header, total)) => hdr@.subrange(4, 8) != MOOF@ && final(self)@
                        == walk_step(old(self)@, hdr@.subrange(4, 8), header, total),
                    None => false,
                },
                Err(e) => *final(self) == *old(self) && match declared(
                    hdr@,
                    old(self).len() - old(self)@.pos,
                ) {
                    Some(_) => e == FormatError::NotMp4 && hdr@.subrange(4, 8) == MOOF@,
                    None => e == FormatError::Malformed,
                },
            },
    {
        proof {
            use_type_invariant(&*self);
        }
        let bh = match box_header(hdr, self.file_len - self.pos) {
            Ok(b) => b,
            Err(e) => {
                return Err(e);
            },
        };
        if same_kind(&bh.kind, &MOOF) {
            return Err(FormatError::NotMp4);
        }
        let here = Some((self.pos, bh));
        let mut w = StructureWalk {
            file_len: self.file_len,
            pos: self.pos,
            ftyp: self.ftyp,
            moov: self.moov,
            mdat: self.mdat,
            repeated: self.repeated,
        };
        if same_kind(&bh.kind, &FTYP) {
            w = StructureWalk {
                file_len: self.file_len,
                pos: self.pos,
                ftyp: here,
                moov: self.moov,
                mdat: self.mdat,
                repeated: self.repeated || self.ftyp.is_some(),
            };
        } else if same_kind(&bh.kind, &MOOV) {
            w = StructureWalk {
                file_len: self.file_len,
                pos: self.pos,
                ftyp: self.ftyp,
                moov: here,
                mdat: self.mdat,
                repeated: self.repeated || self.moov.is_some(),
            };
        } else if same_kind(&bh.kind, &MDAT) {
            w = StructureWalk {
                file_len: self.file_len,
                pos: self.pos,
                ftyp: self.ftyp,
                moov: self.moov,
                mdat: here,
                repeated: self.repeated || self.mdat.is_some(),
            };
        }
        *self = StructureWalk {
            file_len: w.file_len,
            pos: w.pos + bh.total_len,
            ftyp: w.ftyp,
            moov: w.moov,
            mdat: w.mdat,
            repeated: w.repeated,
        };
        Ok(())
    }

    /// What is to be read now that the walk is over. `NotMp4` where one of the three boxes
    /// is missing or repeated; a `ftyp` or `moov` over the cap is refused.
    pub fn finish(&self) -> (r: std::result::Result<StructurePlan, Mp4ScanError>)
        ensures
            match walk_found(self@) {
                None => r == Err::<StructurePlan, _>(Mp4ScanError::Format(FormatError::NotMp4)),
                Some((f, m, a)) => if f.total > MAX_MP4_METADATA_BYTES {
                    match r {
                        Err(Mp4ScanError::MetadataTooLarge { box_kind, size, cap }) => box_kind@
                            == "ftyp"@ && size == f.total && cap == MAX_MP4_METADATA_BYTES,
                        _ => false,
                    }
                } else if m.total > MAX_MP4_METADATA_BYTES {
                    match r {
                        Err(Mp4ScanError::MetadataTooLarge { box_kind, size, cap }) => box_kind@
                            == "moov"@ && size == m.total && cap == MAX_MP4_METADATA_BYTES,
                        _ => false,
                    }
                } else {
                    match r {
                        Ok(p) => is_plan_of(p, f, m, a),
                        Err(_) => false,
                    }
                },
            },
    {
        proof {
            use_type_invariant(*self);
        }
        if self.repeated {
            return Err(Mp4ScanError::Format(FormatError::NotMp4));
        }
        match (self.ftyp, self.moov, self.mdat) {
            (Some((ftyp_at, ftyp)), Some((moov_at, moov)), Some((mdat_at, mdat))) => {
                if ftyp.total_len > MAX_MP4_METADATA_BYTES {
                    return Err(
                        Mp4ScanError::MetadataTooLarge {
                            box_kind: "ftyp",
                            size: ftyp.total_len,
                            cap: MAX_MP4_METADATA_BYTES,
                        },
                    );
                }
                if moov.total_len > MAX_MP4_METADATA_BYTES {
                    return Err(
                        Mp4ScanError::MetadataTooLarge {
                            box_kind: "moov",
                            size: moov.total_len,
                            cap: MAX_MP4_METADATA_BYTES,
                        },
                    );
                }
                Ok(
                    StructurePlan {
                        ftyp_at,
                        ftyp_len: ftyp.total_len,
                        moov_at,
                        moov_len: moov.total_len,
                        moov_header_len: moov.header_len,
                        mdat_at,
                        mdat_header_len: mdat.header_len,
                        mdat_payload_offset: mdat_at + mdat.header_len,
                        mdat_payload_len: mdat.total_len - mdat.header_len,
                    },
                )
            },
            _ => Err(Mp4ScanError::Format(FormatError::NotMp4)),
        }
    }
}

impl StructurePlan {
    /// The scan made of what the plan asked for, once the `moov` is found to be good. A
    /// `moov` shorter than its own header is `Malformed`.
    pub fn scan(&self, ftyp: Vec<u8>, moov: Vec<u8>, mdat_header: Vec<u8>) -> (r: Result<Mp4Scan>)
        ensures
            ({
                let body = moov@.skip(self.moov_header_len as int);
                match r {
                    Ok(s) => self.moov_header_len <= moov@.len() && moov_verdict(body) is Good
                        && s.ftyp@ == ftyp@ && s.moov@ == moov@ && s.mdat_header@ == mdat_header@
                        && s.mdat_payload_offset == self.mdat_payload_offset && s.mdat_payload_len
                        == self.mdat_payload_len,
                    Err(e) => if self.moov_header_len <= moov@.len() {
                        reports(e, moov_verdict(body))
                    } else {
                        e == FormatError::Malformed
                    },
                }
            }),
    {
        let n: usize = moov.len();
        if self.moov_header_len > n as u64 {
            return Err(FormatError::Malformed);
        }
        let body = slice_subrange(moov.as_slice(), self.moov_header_len as usize, n);
        assert(body@ =~= moov@.skip(self.moov_header_len as int));
        match validate_moov(body) {
            Ok(_) => Ok(
                Mp4Scan {
                    ftyp,
                    moov,
                    mdat_header,
                    mdat_payload_offset: self.mdat_payload_offset,
                    mdat_payload_len: self.mdat_payload_len,
                },
            ),
            Err(e) => Err(e),
        }
    }
}

/// The walk over the file `d` from `w` on, each header taken from `d`; `None` where a
/// header does not fit or a fragment comes.
pub open spec fn walked(d: Seq<u8>, w: WalkModel) -> Option<WalkModel>
    decreases d.len() - w.pos,
{
    if w.pos + 8 > d.len() {
        Some(w)
    } else {
        match box_at(d, w.pos) {
            Some(b) if b.total > 0 && b.kind != MOOF@ => walked(
                d,
                walk_step(w, b.kind, b.header, b.total),
            ),
            _ => None,
        }
    }
}

/// A header cut to its own length declares what the file from there on declares.
pub proof fn header_suffices(d: Seq<u8>, p: int)
    requires
        0 <= p,
        p + 8 <= d.len(),
    ensures
        ({
            let n = if be32(d, p) == 1 {
                16int
            } else {
                8
            };
            p + n <= d.len() ==> {
                let h = d.subrange(p, p + n);
                declared(h, d.len() - p) == declared(d.skip(p), d.len() - p) && h.subrange(4, 8)
                    == d.subrange(p + 4, p + 8)
            }
        }),
{
    let n = if be32(d, p) == 1 {
        16int
    } else {
        8
    };
    if p + n <= d.len() {
        assert(d.subrange(p, p + n).subrange(4, 8) =~= d.subrange(p + 4, p + 8));
    }
}

/// What boxes already walked over leave in the walk.
spec fn walk_is(w: WalkModel, s: Seq<BoxModel>, p: int) -> bool {
    &&& w.pos == p
    &&& spot_is(w.ftyp, of_kind(s, FTYP@))
    &&& spot_is(w.moov, of_kind(s, MOOV@))
    &&& spot_is(w.mdat, of_kind(s, MDAT@))
    &&& w.repeated == (of_kind(s, FTYP@).len() > 1 || of_kind(s, MOOV@).len() > 1 || of_kind(
        s,
        MDAT@,
    ).len() > 1)
    &&& of_kind(s, MOOF@).len() == 0
}

/// The last box of a list, if any.
spec fn spot_is(o: Option<Spot>, s: Seq<BoxModel>) -> bool {
    match o {
        Some(x) => s.len() > 0 && x == (Spot {
            at: s.last().start,
            header: s.last().header,
            total: s.last().total,
        }),
        None => s.len() == 0,
    }
}

proof fn of_kind_none(s: Seq<BoxModel>, t: Seq<BoxModel>, kind: Seq<u8>)
    ensures
        of_kind(s + t, kind).len() == of_kind(s, kind).len() + of_kind(t, kind).len(),
    decreases t.len(),
{
    if t.len() > 0 {
        of_kind_none(s, t.drop_last(), kind);
        assert((s + t).drop_last() =~= s + t.drop_last());
    } else {
        assert(s + t =~= s);
    }
}

proof fn walk_finds(d: Seq<u8>, w: WalkModel, s: Seq<BoxModel>)
    requires
        0 <= w.pos <= d.len(),
        walk_is(w, s, w.pos),
        s + boxes_from(d, w.pos) == boxes(d),
        boxes_end(d, w.pos) == boxes_end(d, 0),
    ensures
        match walked(d, w) {
            Some(v) => well_boxed(d) && walk_is(v, boxes(d), boxes_end(d, 0)),
            None => !well_boxed(d) || of_kind(boxes(d), MOOF@).len() > 0,
        },
    decreases d.len() - w.pos,
{
    match box_at(d, w.pos) {
        Some(b) if b.total > 0 => {
            let rest = boxes_from(d, b.end());
            assert(s.push(b) + rest =~= s + (seq![b] + rest));
            assert(s.push(b).drop_last() =~= s);
            if b.kind != MOOF@ {
                assert(FTYP@[0] != MOOV@[0]);
                assert(FTYP@[0] != MDAT@[0]);
                assert(MOOV@[1] != MDAT@[1]);
                walk_finds(d, walk_step(w, b.kind, b.header, b.total), s.push(b));
            } else {
                of_kind_none(s.push(b), rest, MOOF@);
            }
        },
        _ => {
            assert(s + Seq::<BoxModel>::empty() =~= s);
        },
    }
}

/// A walk by seeking finds in a file exactly what reading it whole finds: the same three
/// boxes where the file has the supported shape, and nothing where it has not.
pub proof fn walk_agrees_with_whole(d: Seq<u8>)
    ensures
        match (walked(d, walk_start()), shape(d)) {
            (Some(w), Some(s)) => walk_found(w) == Some(
                (
                    Spot { at: s.ftyp.start, header: s.ftyp.header, total: s.ftyp.total },
                    Spot { at: s.moov.start, header: s.moov.header, total: s.moov.total },
                    Spot { at: s.mdat.start, header: s.mdat.header, total: s.mdat.total },
                ),
            ),
            (Some(w), None) => walk_found(w) is None,
            (None, Some(_)) => false,
            (None, None) => true,
        },
{
    let e = Seq::<BoxModel>::empty();
    assert(e + boxes(d) =~= boxes(d));
    walk_finds(d, walk_start(), e);
}

/// The scan that a plan makes of what it asked for is the scan of the whole file, and the
/// `moov` is judged alike.
pub proof fn planned_scan_is_whole_scan(d: Seq<u8>, s: Shape, plan: StructurePlan, scan: Mp4Scan)
    requires
        shape(d) == Some(s),
        is_plan_of(
            plan,
            Spot { at: s.ftyp.start, header: s.ftyp.header, total: s.ftyp.total },
            Spot { at: s.moov.start, header: s.moov.header, total: s.moov.total },
            Spot { at: s.mdat.start, header: s.mdat.header, total: s.mdat.total },
        ),
        scan.ftyp@ == d.subrange(plan.ftyp_at as int, plan.ftyp_at + plan.ftyp_len),
        scan.moov@ == d.subrange(plan.moov_at as int, plan.moov_at + plan.moov_len),
        scan.mdat_header@ == d.subrange(
            plan.mdat_at as int,
            plan.mdat_at + plan.mdat_header_len,
        ),
        scan.mdat_payload_offset == plan.mdat_payload_offset,
        scan.mdat_payload_len == plan.mdat_payload_len,
    ensures
        is_scan_of(scan, s, d),
        scan.moov@.skip(plan.moov_header_len as int) == s.moov.payload(d),
{
    crate::mp4::boxes::boxes_lie_inside(d, 0);
    of_kind_inside(boxes(d), d, MOOV@);
    assert(of_kind(boxes(d), MOOV@)[0].inside(d));
    assert(scan.moov@.skip(plan.moov_header_len as int) =~= s.moov.payload(d));
}

} // verus!
