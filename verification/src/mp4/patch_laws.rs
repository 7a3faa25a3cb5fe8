//! What is kept of a movie, and when its chunk offsets can be moved.

use crate::bytes::be32;
use crate::mp4::boxes::all_inside;
use crate::mp4::boxes::boxes;
use crate::mp4::boxes::of_kind;
use crate::mp4::boxes::path_end;
use crate::mp4::boxes::well_boxed;
use crate::mp4::boxes::BoxModel;
use crate::mp4::item_laws::box_codes;
use crate::mp4::item_laws::word;
use crate::mp4::kept_laws::kept_movie_kids;
use crate::mp4::kept_laws::media_kids;
use crate::mp4::kept_laws::movie_kids;
use crate::mp4::kept_laws::track_kids;
use crate::mp4::keyed::is_keyed;
use crate::mp4::kids::kids;
use crate::mp4::offsets::chunk_table;
use crate::mp4::offsets::entry_pos;
use crate::mp4::offsets::front_is_ordered;
use crate::mp4::offsets::of_kind_is_ordered;
use crate::mp4::offsets::offset_at;
use crate::mp4::offsets::ordered;
use crate::mp4::offsets::outside;
use crate::mp4::offsets::outside_is_off_tables;
use crate::mp4::offsets::patched;
use crate::mp4::offsets::table_is_inside;
use crate::mp4::offsets::table_moves;
use crate::mp4::offsets::table_patched;
use crate::mp4::offsets::track_patched;
use crate::mp4::offsets::tracks_keep;
use crate::mp4::offsets::tracks_patched;
use crate::mp4::offsets::Patched;
use crate::mp4::strip::kept_movie;
use crate::mp4::strip::stripped_media;
use crate::mp4::strip::stripped_track;
use crate::mp4::structure::of_kind_inside;
use crate::mp4::structure::Mp4ScanError;
use crate::mp4::structure::StructurePlan;
use crate::mp4::structure::StructureWalk;
use crate::mp4::structure::Mp4Scan;
use crate::mp4::strip::find_chapters;
use crate::mp4::synth::movie_of;
use crate::mp4::synth::new_moov_size;
use crate::error::FormatError;
use crate::mp4::synth::synthesize_layout;
use crate::error::Result;
use crate::input::ArtInput;
use crate::input::BinaryTagInput;
use crate::input::TagInput;
use crate::layout::empty_draft;
use crate::layout::with_bytes;
use crate::layout::with_stream;
use crate::layout::RegionLayout;
use crate::layout::SegView;
use crate::serving::served_bytes;
use crate::serving::served_draft;
use crate::serving::served_draft_adds_up;
use crate::serving::Sources;
use crate::slot_laws::code;
use vstd::prelude::*;
use vstd::string::*;

verus! {

/// The table of chunk offsets is the `stco` of the sample table, and the `co64` only where
/// there is no `stco`; it has eight bytes at least.
pub proof fn narrow_table_comes_first(trak: Seq<u8>)
    ensures
        ({
            let narrow = path_end(
                trak,
                seq![code("mdia"@), code("minf"@), code("stbl"@), code("stco"@)],
            );
            let wide = path_end(
                trak,
                seq![code("mdia"@), code("minf"@), code("stbl"@), code("co64"@)],
            );
            &&& narrow is At ==> chunk_table(trak) == if narrow->At_1 >= 8 {
                Some((narrow->At_0, narrow->At_1, false))
            } else {
                None
            }
            &&& narrow is Broken ==> chunk_table(trak) is None
            &&& narrow is Nowhere && wide is At ==> chunk_table(trak) == if wide->At_1 >= 8 {
                Some((wide->At_0, wide->At_1, true))
            } else {
                None
            }
            &&& narrow is Nowhere && !(wide is At) ==> chunk_table(trak) is None
        }),
{
    box_codes();
    reveal_strlit("minf");
    reveal_strlit("stbl");
    reveal_strlit("stco");
    reveal_strlit("co64");
    assert(code("minf"@) =~= crate::mp4::boxes::MINF@);
    assert(code("stbl"@) =~= crate::mp4::boxes::STBL@);
    assert(code("stco"@) =~= crate::mp4::boxes::STCO@);
    assert(code("co64"@) =~= crate::mp4::boxes::CO64@);
}

/// The offset `i` of a table whose payload begins at `at`: four bytes, or eight, behind the
/// version and the count.
pub open spec fn chunk_at(d: Seq<u8>, at: int, i: int, wide: bool) -> int {
    if wide {
        word(d, at + 8 + 8 * i) * 4294967296 + word(d, at + 12 + 8 * i)
    } else {
        word(d, at + 8 + 4 * i)
    }
}

/// The offsets that the table of a track counts are all there.
pub open spec fn table_is_whole(d: Seq<u8>, trak: BoxModel) -> bool {
    match chunk_table(trak.payload(d)) {
        Some((s, n, wide)) => 8 + word(d, trak.body() + s + 4) * (if wide {
            8int
        } else {
            4
        }) <= n,
        None => false,
    }
}

/// The offsets of a track can be moved by `delta`: each is still one of its width.
pub open spec fn can_move(d: Seq<u8>, trak: BoxModel, delta: int) -> bool {
    match chunk_table(trak.payload(d)) {
        Some((s, n, wide)) => {
            let at = trak.body() + s;
            forall|i: int|
                0 <= i < word(d, at + 4) ==> 0 <= #[trigger] chunk_at(d, at, i, wide) + delta <= (
                if wide {
                    0xffff_ffff_ffff_ffffint
                } else {
                    0xffff_ffff
                })
        },
        None => false,
    }
}

proof fn chunk_is(d: Seq<u8>, at: int, i: int, wide: bool)
    ensures
        offset_at(d, entry_pos(at, i, wide), wide) == chunk_at(d, at, i, wide),
{
}

/// A table whose offsets can be moved is patched.
proof fn table_succeeds(d: Seq<u8>, at: int, end: int, wide: bool, delta: int, n: int)
    requires
        0 <= at,
        at + 8 <= end <= d.len(),
        0 <= n,
        entry_pos(at, n, wide) <= end,
        forall|i: int|
            0 <= i < n ==> 0 <= #[trigger] chunk_at(d, at, i, wide) + delta <= (if wide {
                0xffff_ffff_ffff_ffffint
            } else {
                0xffff_ffff
            }),
    ensures
        table_patched(d, at, end, wide, delta, n) is Done,
    decreases n,
{
    if n > 0 {
        table_succeeds(d, at, end, wide, delta, n - 1);
        let y = table_patched(d, at, end, wide, delta, n - 1)->Done_0;
        table_moves(d, at, end, wide, delta, n - 1, y);
        let p = entry_pos(at, n - 1, wide);
        assert(0 <= chunk_at(d, at, n - 1, wide) + delta);
        assert(offset_at(y, p, wide) == chunk_at(d, at, n - 1, wide)) by {
            assert(y[p] == d[p] && y[p + 1] == d[p + 1] && y[p + 2] == d[p + 2] && y[p + 3] == d[p
                + 3]);
            if wide {
                assert(y[p + 4] == d[p + 4] && y[p + 5] == d[p + 5] && y[p + 6] == d[p + 6] && y[p
                    + 7] == d[p + 7]);
            }
        }
    }
}

/// A whole table that is not patched holds an offset that cannot be moved; of four-byte offsets
/// one is too large then.
proof fn table_fails(d: Seq<u8>, at: int, end: int, wide: bool, delta: int, n: int)
    requires
        0 <= at,
        at + 8 <= end <= d.len(),
        0 <= n,
        entry_pos(at, n, wide) <= end,
        !(table_patched(d, at, end, wide, delta, n) is Done),
    ensures
        exists|i: int|
            0 <= i < n && !(0 <= #[trigger] chunk_at(d, at, i, wide) + delta <= (if wide {
                0xffff_ffff_ffff_ffffint
            } else {
                0xffff_ffff
            })),
        !wide ==> table_patched(d, at, end, wide, delta, n) is TooLarge,
        wide ==> table_patched(d, at, end, wide, delta, n) is Malformed,
    decreases n,
{
    if n > 0 {
        if table_patched(d, at, end, wide, delta, n - 1) is Done {
            let y = table_patched(d, at, end, wide, delta, n - 1)->Done_0;
            table_moves(d, at, end, wide, delta, n - 1, y);
            let p = entry_pos(at, n - 1, wide);
            assert(offset_at(y, p, wide) == chunk_at(d, at, n - 1, wide)) by {
                assert(y[p] == d[p] && y[p + 1] == d[p + 1] && y[p + 2] == d[p + 2] && y[p + 3]
                    == d[p + 3]);
                if wide {
                    assert(y[p + 4] == d[p + 4] && y[p + 5] == d[p + 5] && y[p + 6] == d[p + 6]
                        && y[p + 7] == d[p + 7]);
                }
            }
        } else {
            table_fails(d, at, end, wide, delta, n - 1);
            let i = choose|i: int|
                0 <= i < n - 1 && !(0 <= #[trigger] chunk_at(d, at, i, wide) + delta <= (
                if wide {
                    0xffff_ffff_ffff_ffffint
                } else {
                    0xffff_ffff
                }));
            assert(0 <= i < n);
        }
    }
}

/// One track in a movie of which the tracks before it are patched.
proof fn track_tells(x: Seq<u8>, orig: Seq<u8>, b: BoxModel, delta: int)
    requires
        x.len() == orig.len(),
        b.inside(orig),
        forall|p: int| b.start <= p < b.end() ==> x[p] == orig[p],
        table_is_whole(orig, b),
    ensures
        can_move(orig, b, delta) ==> track_patched(x, orig, b, delta) is Done,
        !can_move(orig, b, delta) ==> !(track_patched(x, orig, b, delta) is Done),
        track_patched(x, orig, b, delta) is Malformed ==> match chunk_table(b.payload(orig)) {
            Some((_, _, wide)) => wide,
            None => false,
        },
{
    let t = b.payload(orig);
    table_is_inside(t);
    let (s, n, wide) = chunk_table(t)->0;
    let at = b.body() + s;
    let count = be32(orig, at + 4);
    assert(count == word(orig, at + 4));
    assert forall|i: int| 0 <= i < count implies #[trigger] chunk_at(x, at, i, wide) == chunk_at(
        orig,
        at,
        i,
        wide,
    ) by {
        let p = entry_pos(at, i, wide);
        assert(b.start <= p && p + (if wide {
            8int
        } else {
            4
        }) <= b.end()) by (nonlinear_arith)
            requires
                p == at + 8 + (if wide {
                    8 * i
                } else {
                    4 * i
                }),
                0 <= i < count,
                8 + count * (if wide {
                    8int
                } else {
                    4
                }) <= n,
                at == b.body() + s,
                0 <= s,
                b.start <= b.body(),
                at + n <= b.end(),
        {}
        assert(x[p] == orig[p] && x[p + 1] == orig[p + 1] && x[p + 2] == orig[p + 2] && x[p + 3]
            == orig[p + 3]);
        if wide {
            assert(x[p + 4] == orig[p + 4] && x[p + 5] == orig[p + 5] && x[p + 6] == orig[p + 6]
                && x[p + 7] == orig[p + 7]);
        }
    }
    if can_move(orig, b, delta) {
        assert forall|i: int| 0 <= i < count implies 0 <= #[trigger] chunk_at(x, at, i, wide)
            + delta <= (if wide {
            0xffff_ffff_ffff_ffffint
        } else {
            0xffff_ffff
        }) by {
            assert(0 <= chunk_at(orig, at, i, wide) + delta);
        }
        table_succeeds(x, at, at + n, wide, delta, count);
    } else if table_patched(x, at, at + n, wide, delta, count) is Done {
        let y = table_patched(x, at, at + n, wide, delta, count)->Done_0;
        table_moves(x, at, at + n, wide, delta, count, y);
        assert forall|i: int| 0 <= i < word(orig, at + 4) implies 0 <= #[trigger] chunk_at(
            orig,
            at,
            i,
            wide,
        ) + delta <= (if wide {
            0xffff_ffff_ffff_ffffint
        } else {
            0xffff_ffff
        }) by {
            assert(chunk_at(x, at, i, wide) == chunk_at(orig, at, i, wide));
            chunk_is(x, at, i, wide);
            assert(offset_at(y, entry_pos(at, i, wide), wide) == offset_at(
                x,
                entry_pos(at, i, wide),
                wide,
            ) + delta);
        }
    }
    if !(table_patched(x, at, at + n, wide, delta, count) is Done) {
        table_fails(x, at, at + n, wide, delta, count);
    }
}

proof fn tracks_tell(orig: Seq<u8>, traks: Seq<BoxModel>, delta: int)
    requires
        all_inside(traks, orig),
        ordered(traks),
        forall|k: int| 0 <= k < traks.len() ==> table_is_whole(orig, #[trigger] traks[k]),
    ensures
        tracks_patched(orig, traks, delta) is Done <==> forall|k: int|
            0 <= k < traks.len() ==> can_move(orig, #[trigger] traks[k], delta),
        tracks_patched(orig, traks, delta) is Malformed ==> exists|k: int|
            0 <= k < traks.len() && !can_move(orig, #[trigger] traks[k], delta) && chunk_table(
                traks[k].payload(orig),
            ) is Some && has_wide_table(orig, traks[k]),
    decreases traks.len(),
{
    if traks.len() > 0 {
        let front = traks.drop_last();
        let b = traks.last();
        let last = traks.len() - 1;
        front_is_ordered(traks, orig);
        assert forall|k: int| 0 <= k < front.len() implies table_is_whole(
            orig,
            #[trigger] front[k],
        ) by {
            assert(front[k] == traks[k]);
        }
        tracks_tell(orig, front, delta);
        assert(traks[last] == b);
        match tracks_patched(orig, front, delta) {
            Patched::Done(y) => {
                tracks_keep(orig, front, delta, y);
                assert forall|p: int| b.start <= p < b.end() implies y[p] == orig[p] by {
                    assert(b.inside(orig));
                    assert(outside(front, p));
                    outside_is_off_tables(orig, front, p);
                }
                assert(b.inside(orig));
                track_tells(y, orig, b, delta);
                assert forall|k: int| 0 <= k < traks.len() - 1 implies can_move(
                    orig,
                    #[trigger] traks[k],
                    delta,
                ) by {
                    assert(can_move(orig, front[k], delta));
                }
                if track_patched(y, orig, b, delta) is Done {
                    assert(can_move(orig, traks[last], delta));
                }
            },
            _ => {
                if forall|k: int|
                    0 <= k < traks.len() ==> can_move(orig, #[trigger] traks[k], delta) {
                    assert forall|k: int| 0 <= k < front.len() implies can_move(
                        orig,
                        #[trigger] front[k],
                        delta,
                    ) by {
                        assert(can_move(orig, traks[k], delta));
                    }
                }
                if tracks_patched(orig, front, delta) is Malformed {
                    let k = choose|k: int|
                        0 <= k < front.len() && !can_move(orig, #[trigger] front[k], delta)
                            && chunk_table(front[k].payload(orig)) is Some && has_wide_table(
                            orig,
                            front[k],
                        );
                    assert(traks[k] == front[k]);
                }
            },
        }
    }
}

/// The table of a track has offsets of eight bytes.
pub open spec fn has_wide_table(d: Seq<u8>, trak: BoxModel) -> bool {
    match chunk_table(trak.payload(d)) {
        Some((_, _, wide)) => wide,
        None => false,
    }
}

/// The offsets of a movie with whole tables are moved exactly where every one of them can be.
/// Where one cannot be and all tables have offsets of four bytes, it is too large. A movie
/// without tracks, or that is not boxes throughout, is malformed.
pub proof fn offsets_move_where_they_can(kept: Seq<u8>, delta: int)
    ensures
        ({
            let traks = of_kind(boxes(kept), code("trak"@));
            &&& !well_boxed(kept) || traks.len() == 0 ==> patched(kept, delta) is Malformed
            &&& well_boxed(kept) && traks.len() > 0 && (forall|k: int|
                0 <= k < traks.len() ==> table_is_whole(kept, #[trigger] traks[k])) ==> {
                &&& patched(kept, delta) is Done <==> forall|k: int|
                    0 <= k < traks.len() ==> can_move(kept, #[trigger] traks[k], delta)
                &&& !(patched(kept, delta) is Done) && (forall|k: int|
                    0 <= k < traks.len() ==> !has_wide_table(kept, #[trigger] traks[k]))
                    ==> patched(kept, delta) is TooLarge
            }
        }),
{
    box_codes();
    let s = boxes(kept);
    let traks = of_kind(s, code("trak"@));
    crate::mp4::offsets::run_is_ordered(kept, 0);
    crate::mp4::boxes::boxes_lie_inside(kept, 0);
    assert forall|i: int| 0 <= i < s.len() implies (#[trigger] s[i]).start <= s[i].end()
        <= kept.len() by {
        assert(s[i].inside(kept));
    }
    of_kind_is_ordered(s, code("trak"@), kept.len() as int);
    of_kind_inside(s, kept, code("trak"@));
    if forall|k: int| 0 <= k < traks.len() ==> table_is_whole(kept, #[trigger] traks[k]) {
        tracks_tell(kept, traks, delta);
    }
}

/// The child holds keyed metadata.
pub open spec fn is_keyed_child(k: (Seq<u8>, Seq<u8>)) -> bool {
    k.0 == code("meta"@) && is_keyed(k.1)
}

/// Of a movie, everything is kept but its user data and keyed metadata.
pub open spec fn stays_in_movie(k: (Seq<u8>, Seq<u8>)) -> bool {
    k.0 != code("udta"@) && !is_keyed_child(k)
}

/// What stays of a child of a movie: of a track its stripped form, of others all.
pub open spec fn movie_child_kept(k: (Seq<u8>, Seq<u8>)) -> (Seq<u8>, Seq<u8>) {
    (
        k.0,
        if k.0 == code("trak"@) {
            stripped_track(k.1)
        } else {
            k.1
        },
    )
}

/// What stays of a child of a track: of its media the stripped form, of others all.
pub open spec fn track_child_kept(k: (Seq<u8>, Seq<u8>)) -> (Seq<u8>, Seq<u8>) {
    (
        k.0,
        if k.0 == code("mdia"@) {
            stripped_media(k.1)
        } else {
            k.1
        },
    )
}

proof fn kids_filtered(s: Seq<(Seq<u8>, Seq<u8>)>)
    ensures
        movie_kids(s) == s.filter(|k: (Seq<u8>, Seq<u8>)| stays_in_movie(k)).map_values(
            |k: (Seq<u8>, Seq<u8>)| movie_child_kept(k),
        ),
        track_kids(s) == s.filter(|k: (Seq<u8>, Seq<u8>)| !is_keyed_child(k)).map_values(
            |k: (Seq<u8>, Seq<u8>)| track_child_kept(k),
        ),
        media_kids(s) == s.filter(|k: (Seq<u8>, Seq<u8>)| !is_keyed_child(k)),
    decreases s.len(),
{
    reveal(Seq::filter);
    box_codes();
    if s.len() > 0 {
        kids_filtered(s.drop_last());
    }
    assert(movie_kids(s) =~= s.filter(|k: (Seq<u8>, Seq<u8>)| stays_in_movie(k)).map_values(
        |k: (Seq<u8>, Seq<u8>)| movie_child_kept(k),
    ));
    assert(track_kids(s) =~= s.filter(|k: (Seq<u8>, Seq<u8>)| !is_keyed_child(k)).map_values(
        |k: (Seq<u8>, Seq<u8>)| track_child_kept(k),
    ));
    assert(media_kids(s) =~= s.filter(|k: (Seq<u8>, Seq<u8>)| !is_keyed_child(k)));
}

/// The children of a movie that are kept, in order: all but user data and keyed metadata, the
/// tracks without theirs.
pub proof fn children_of_a_movie_are_kept(movie: Seq<u8>)
    requires
        crate::mp4::file_laws::sized(movie),
        kept_movie(movie).len() <= crate::mp4::strip::MAX_BOX,
    ensures
        kids(kept_movie(movie)) == kids(movie).filter(
            |k: (Seq<u8>, Seq<u8>)| stays_in_movie(k),
        ).map_values(|k: (Seq<u8>, Seq<u8>)| movie_child_kept(k)),
{
    kept_movie_kids(movie);
    kids_filtered(kids(movie));
}

/// The `ftyp` and `moov` that are to be read have 256 MiB at most; a larger one is reported with
/// that limit, by its name and its size.
pub proof fn metadata_is_capped(
    walk: &StructureWalk,
    r: std::result::Result<StructurePlan, Mp4ScanError>,
)
    requires
        call_ensures(StructureWalk::finish, (walk,), r),
    ensures
        match r {
            Ok(p) => p.ftyp_len <= 256 * 1024 * 1024 && p.moov_len <= 256 * 1024 * 1024,
            Err(Mp4ScanError::MetadataTooLarge { box_kind, size, cap }) => {
                &&& cap == 256 * 1024 * 1024
                &&& size > cap
                &&& walk@.ftyp is Some && walk@.moov is Some
                &&& if walk@.ftyp->0.total > cap {
                    box_kind@ == "ftyp"@ && size == walk@.ftyp->0.total
                } else {
                    box_kind@ == "moov"@ && size == walk@.moov->0.total
                }
            },
            Err(Mp4ScanError::Format(_)) => walk@.ftyp is None || walk@.moov is None || walk@.mdat
                is None || walk@.repeated,
        },
{
}

/// The chapter list of the movie, if it has one, is carried over byte for byte: it ends the
/// movie, in front of the media data.
pub proof fn chapters_are_carried(
    scan: &Mp4Scan,
    movie: &[u8],
    chapters: Option<&[u8]>,
    tags: &[TagInput],
    binary_tags: &[BinaryTagInput],
    arts: &[ArtInput],
    src: Sources,
    r: Result<RegionLayout>,
)
    requires
        call_ensures(synthesize_layout, (scan, tags, binary_tags, arts), r),
        call_ensures(find_chapters, (movie,), chapters),
        movie_of(scan.moov@) == Some(movie@),
        r is Ok,
    ensures
        ({
            let file = served_bytes(src, r->Ok_0.views());
            let last = (match chapters {
                Some(c) => c@,
                None => Seq::empty(),
            }) + scan.mdat_header@ + src.backing.subrange(
                scan.mdat_payload_offset as int,
                scan.mdat_payload_offset + scan.mdat_payload_len,
            );
            &&& file.len() >= last.len()
            &&& file.skip(file.len() - last.len()) == last
        }),
{
    let m = movie@;
    let shift = crate::mp4::synth::audio_shift(*scan, m, tags@, binary_tags@, arts@);
    let kept = patched(kept_movie(m), shift)->Done_0;
    let c = crate::mp4::synth::carried_chapters(m);
    let head = scan.ftyp@ + crate::bytes::be32_bytes(
        crate::mp4::synth::new_moov_size(m, tags@, binary_tags@, arts@),
    ) + crate::mp4::boxes::MOOV@ + kept;
    let d0 = with_bytes(empty_draft(), head);
    let n = crate::mp4::atoms::ilst_bytes(tags@, binary_tags@, arts@);
    let d1 = crate::mp4::atoms::with_ilst(
        with_bytes(d0, crate::mp4::atoms::udta_front(n, c.len() as int)),
        tags@,
        binary_tags@,
        arts@,
    );
    let s = SegView::BackingAudio {
        offset: scan.mdat_payload_offset as int,
        len: scan.mdat_payload_len as int,
    };
    let e = Seq::<u8>::empty();
    let d2 = with_bytes(d1, c);
    let d3 = with_bytes(d2, scan.mdat_header@);
    served_draft_adds_up(src, d1, c, s);
    served_draft_adds_up(src, d2, scan.mdat_header@, s);
    served_draft_adds_up(src, d3, e, s);
    served_draft_adds_up(src, with_stream(d3, s), e, s);
    let file = served_bytes(src, r->Ok_0.views());
    let audio = src.backing.subrange(
        scan.mdat_payload_offset as int,
        scan.mdat_payload_offset + scan.mdat_payload_len,
    );
    let last = c + scan.mdat_header@ + audio;
    let f = served_draft(src, d1);
    assert(file =~= f + last);
    assert(file.skip(file.len() - last.len()) =~= last);
}

/// A movie is too large where its new box is over 32 bits, the audio lies beyond 63 bits, before
/// or after, or an offset cannot be moved for being too large; and only then. It is malformed
/// where it is not boxes throughout or its offsets are.
pub proof fn only_large_movies_are_refused(
    scan: &Mp4Scan,
    movie: Seq<u8>,
    tags: &[TagInput],
    binary_tags: &[BinaryTagInput],
    arts: &[ArtInput],
    r: Result<RegionLayout>,
)
    requires
        call_ensures(synthesize_layout, (scan, tags, binary_tags, arts), r),
    ensures
        movie_of(scan.moov@) is None ==> r == Err::<RegionLayout, FormatError>(
            FormatError::Malformed,
        ),
        movie_of(scan.moov@) == Some(movie) ==> {
            let size = new_moov_size(movie, tags@, binary_tags@, arts@);
            let audio = scan.ftyp@.len() + size + scan.mdat_header@.len();
            let moved = patched(kept_movie(movie), audio - scan.mdat_payload_offset);
            let large = size > 0xffff_ffff || audio > 0x7fff_ffff_ffff_ffff
                || scan.mdat_payload_offset > 0x7fff_ffff_ffff_ffff;
            &&& r == Err::<RegionLayout, FormatError>(FormatError::TooLarge) <==> large || moved
                is TooLarge
            &&& r == Err::<RegionLayout, FormatError>(FormatError::Malformed) <==> !large && moved
                is Malformed
        },
{
}

} // verus!
