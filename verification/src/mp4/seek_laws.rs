//! Reading a file's structure by seeking comes to what reading the whole file comes to.

use crate::mp4::boxes::boxes;
use crate::mp4::boxes::boxes_lie_inside;
use crate::mp4::boxes::of_kind;
use crate::mp4::boxes::MOOV;
use crate::mp4::structure::is_scan_of;
use crate::mp4::structure::moov_verdict;
use crate::mp4::structure::of_kind_inside;
use crate::mp4::structure::shape;
use crate::mp4::structure::walk_agrees_with_whole;
use crate::mp4::structure::walk_found;
use crate::mp4::structure::walk_start;
use crate::mp4::structure::walked;
use crate::mp4::structure::MoovVerdict;
use crate::mp4::structure::Mp4Scan;
use crate::mp4::structure::Spot;
use crate::mp4::structure::MAX_MP4_METADATA_BYTES;
use vstd::prelude::*;

verus! {

/// What reading a structure by seeking comes to.
pub ghost enum Sought {
    /// The walk over the top-level boxes fails, or does not find the three boxes.
    NotFound,
    /// A metadata box exceeds the cap.
    TooLarge { box_kind: Seq<char>, size: int },
    /// The `moov` is not a good one.
    Rejected(MoovVerdict),
    /// What was read.
    Read { ftyp: Seq<u8>, moov: Seq<u8>, mdat_header: Seq<u8>, offset: int, len: int },
}

/// What a box of a file holds.
pub open spec fn at_spot(d: Seq<u8>, s: Spot) -> Seq<u8> {
    d.subrange(s.at, s.at + s.total)
}

/// What the walk over the headers of the file `d`, the plan it makes and the scan of what the
/// plan asks for come to together, for a reader that hands out the bytes of `d`.
pub open spec fn sought(d: Seq<u8>) -> Sought {
    match walked(d, walk_start()) {
        None => Sought::NotFound,
        Some(w) => match walk_found(w) {
            None => Sought::NotFound,
            Some((f, m, a)) => if f.total > MAX_MP4_METADATA_BYTES {
                Sought::TooLarge { box_kind: "ftyp"@, size: f.total }
            } else if m.total > MAX_MP4_METADATA_BYTES {
                Sought::TooLarge { box_kind: "moov"@, size: m.total }
            } else {
                match moov_verdict(at_spot(d, m).skip(m.header)) {
                    MoovVerdict::Good => Sought::Read {
                        ftyp: at_spot(d, f),
                        moov: at_spot(d, m),
                        mdat_header: d.subrange(a.at, a.at + a.header),
                        offset: a.at + a.header,
                        len: a.total - a.header,
                    },
                    v => Sought::Rejected(v),
                }
            },
        },
    }
}

/// Where the whole file reads, seeking reads the same, byte for byte, unless a metadata box
/// exceeds the cap, which is then named; and where the whole file does not read, neither does
/// seeking.
pub proof fn seeking_reads_as_the_whole(d: Seq<u8>)
    ensures
        match shape(d) {
            None => sought(d) is NotFound,
            Some(s) => if s.ftyp.total > MAX_MP4_METADATA_BYTES {
                sought(d) == (Sought::TooLarge { box_kind: "ftyp"@, size: s.ftyp.total })
            } else if s.moov.total > MAX_MP4_METADATA_BYTES {
                sought(d) == (Sought::TooLarge { box_kind: "moov"@, size: s.moov.total })
            } else if moov_verdict(s.moov.payload(d)) is Good {
                match sought(d) {
                    Sought::Read { ftyp, moov, mdat_header, offset, len } => forall|scan: Mp4Scan|
                        #[trigger]
                        is_scan_of(scan, s, d) <==> scan.ftyp@ == ftyp && scan.moov@ == moov
                            && scan.mdat_header@ == mdat_header && scan.mdat_payload_offset
                            == offset && scan.mdat_payload_len == len,
                    _ => false,
                }
            } else {
                sought(d) == Sought::Rejected(moov_verdict(s.moov.payload(d)))
            },
        },
{
    walk_agrees_with_whole(d);
    if let Some(s) = shape(d) {
        boxes_lie_inside(d, 0);
        of_kind_inside(boxes(d), d, MOOV@);
        assert(of_kind(boxes(d), MOOV@)[0].inside(d));
        let m = Spot { at: s.moov.start, header: s.moov.header, total: s.moov.total };
        assert(at_spot(d, m).skip(m.header) =~= s.moov.payload(d));
    }
}

} // verus!
