//! The tags behind the audio, as they stand in a file.

use crate::error::FormatError;
use crate::error::Result;
use crate::id3v2::appended_start;
use crate::id3v2::footer_agrees;
use crate::id3v2::footer_at;
use crate::id3v2::synchsafe;
use crate::id3v2_laws::seven_bits;
use crate::mp3::trailer::locate_trailer;
use crate::mp3::trailer::walk_back;
use crate::mp3::trailer::Mp3Trailer;
use crate::mp3::trailer::Trailing;
use crate::mp3::trailer::TrailerModel;
use crate::probe::Extent;
use vstd::prelude::*;

verus! {

/// One tag behind the audio: an ID3v2.4 tag with a footer, given by the seven bytes that its
/// header and its footer share (version, flags, size) and its body; or an ID3v1 trailer, given
/// by what follows its mark.
pub ghost enum Behind {
    Appended(Seq<u8>, Seq<u8>),
    Id3v1(Seq<u8>),
}

/// The bytes of a tag behind the audio.
pub open spec fn behind_bytes(t: Behind) -> Seq<u8> {
    match t {
        Behind::Appended(v, body) => seq![0x49u8, 0x44u8, 0x33u8] + v + body + seq![
            0x33u8,
            0x44u8,
            0x49u8,
        ] + v,
        Behind::Id3v1(rest) => seq![0x54u8, 0x41u8, 0x47u8] + rest,
    }
}

/// The bytes end in what begins as a footer does.
pub open spec fn ends_as_footer(d: Seq<u8>) -> bool {
    d.len() >= 20 && d[d.len() - 10] == 0x33 && d[d.len() - 9] == 0x44 && d[d.len() - 8] == 0x49
}

/// The tag is well formed: version 4, a revision that is not 255, the footer flag, and the
/// size of its body; a trailer has 128 bytes, and does not end as a footer does.
pub open spec fn well_formed(t: Behind) -> bool {
    match t {
        Behind::Appended(v, body) => {
            &&& v.len() == 7
            &&& v[0] == 4
            &&& v[1] != 255
            &&& v[2] / 16 % 2 == 1
            &&& v[3] < 128 && v[4] < 128 && v[5] < 128 && v[6] < 128
            &&& body.len() == seven_bits(v[3], v[4], v[5], v[6])
        },
        Behind::Id3v1(rest) => rest.len() == 125 && !ends_as_footer(behind_bytes(t)),
    }
}

/// The tags in a row.
pub open spec fn all_behind(tags: Seq<Behind>) -> Seq<u8>
    decreases tags.len(),
{
    if tags.len() == 0 {
        Seq::empty()
    } else {
        all_behind(tags.drop_last()) + behind_bytes(tags.last())
    }
}

/// Their extents, the last first, where `start` bytes are in front of them.
pub open spec fn extents(start: int, tags: Seq<Behind>) -> Seq<Trailing>
    decreases tags.len(),
{
    if tags.len() == 0 {
        Seq::empty()
    } else {
        let s = start + all_behind(tags.drop_last()).len();
        let e = start + all_behind(tags).len();
        seq![Trailing { start: s as u64, end: e as u64, id3v2: tags.last() is Appended }]
            + extents(start, tags.drop_last())
    }
}

/// How many are appended ID3v2 tags.
pub open spec fn appended_count(tags: Seq<Behind>) -> int
    decreases tags.len(),
{
    if tags.len() == 0 {
        0
    } else {
        appended_count(tags.drop_last()) + if tags.last() is Appended {
            1int
        } else {
            0
        }
    }
}

/// How many are ID3v1 trailers.
pub open spec fn trailer_count(tags: Seq<Behind>) -> int {
    tags.len() - appended_count(tags)
}

/// No tag ends the bytes: no footer, and (where one may still come) no ID3v1 trailer.
pub open spec fn no_tag_ends(d: Seq<u8>, trailer_may_come: bool) -> bool {
    &&& !ends_as_footer(d)
    &&& trailer_may_come && d.len() >= 128 ==> !(d[d.len() - 128] == 0x54 && d[d.len() - 127]
        == 0x41 && d[d.len() - 126] == 0x47)
}

proof fn counts(tags: Seq<Behind>)
    ensures
        0 <= appended_count(tags) <= tags.len(),
    decreases tags.len(),
{
    if tags.len() > 0 {
        counts(tags.drop_last());
    }
}

/// A whole appended tag is found at its end.
proof fn appended_is_found(d: Seq<u8>, start: int, end: int, t: Behind)
    requires
        well_formed(t),
        t is Appended,
        0 <= start <= end,
        end <= d.len(),
        d.subrange(start, end) == behind_bytes(t),
    ensures
        appended_start(d, 0, end) == Ok::<Option<int>, int>(Some(start)),
        end >= start + 20,
{
    let w = behind_bytes(t);
    let v = t->Appended_0;
    let n = t->Appended_1.len() as int;
    assert(w.len() == 20 + n);
    assert(d.subrange(start, end).len() == end - start);
    assert(end == start + 20 + n);
    assert forall|k: int| 0 <= k < w.len() implies d[start + k] == #[trigger] w[k] by {
        assert(d.subrange(start, end)[k] == d[start + k]);
    }
    let f = end - 10;
    assert(w[10 + n] == 0x33 && w[11 + n] == 0x44 && w[12 + n] == 0x49);
    assert(w[13 + n] == v[0] && w[14 + n] == v[1] && w[15 + n] == v[2] && w[16 + n] == v[3] && w[17
        + n] == v[4] && w[18 + n] == v[5] && w[19 + n] == v[6]);
    assert(d[f] == 0x33 && d[f + 1] == 0x44 && d[f + 2] == 0x49 && d[f + 3] == v[0] && d[f + 4]
        == v[1] && d[f + 5] == v[2] && d[f + 6] == v[3] && d[f + 7] == v[4] && d[f + 8] == v[5]
        && d[f + 9] == v[6]);
    assert(footer_at(d, f));
    assert(synchsafe(d, f + 6) == n);
    assert(w[0] == 0x49 && w[1] == 0x44 && w[2] == 0x33);
    assert(d.subrange(start + 3, start + 10) =~= v) by {
        assert forall|k: int| 0 <= k < 7 implies d[start + 3 + k] == v[k] by {
            assert(w[3 + k] == v[k]);
        }
    }
    assert(d.subrange(f + 3, f + 10) =~= v);
    assert(d[start] == w[0] && d[start + 1] == w[1] && d[start + 2] == w[2]);
    assert(footer_agrees(d, start, f));
}

/// The walk over the tags that end at `front.len() + all_behind(tags).len()`.
#[verifier::spinoff_prover]
#[verifier::rlimit(40)]
proof fn walk(d: Seq<u8>, front: Seq<u8>, tags: Seq<Behind>, found: int, seen: bool)
    requires
        0 <= found <= 64,
        d.len() <= u64::MAX,
        front.len() + all_behind(tags).len() <= d.len(),
        d.take((front.len() + all_behind(tags).len()) as int) == front + all_behind(tags),
        forall|i: int| 0 <= i < tags.len() ==> well_formed(#[trigger] tags[i]),
        trailer_count(tags) + (if seen {
            1int
        } else {
            0
        }) <= 1,
        no_tag_ends(front, !seen && trailer_count(tags) == 0),
    ensures
        walk_back(d, 0, (front.len() + all_behind(tags).len()) as int, found, seen) == if found
            + appended_count(tags) <= 64 {
            TrailerModel::Tags(extents(front.len() as int, tags))
        } else {
            TrailerModel::Malformed
        },
    decreases tags.len(),
{
    let end = (front.len() + all_behind(tags).len()) as int;
    let whole = front + all_behind(tags);
    assert forall|k: int| 0 <= k < end implies d[k] == #[trigger] whole[k] by {
        assert(d.take(end)[k] == d[k]);
    }
    if tags.len() == 0 {
        assert(whole =~= front);
        if end >= 20 {
            assert(d[end - 10] == front[end - 10] && d[end - 9] == front[end - 9] && d[end - 8]
                == front[end - 8]);
            assert(!footer_at(d, end - 10));
        }
        assert(appended_start(d, 0, end) == Ok::<Option<int>, int>(None));
        if end >= 128 {
            assert(d[end - 128] == front[end - 128] && d[end - 127] == front[end - 127] && d[end
                - 126] == front[end - 126]);
        }
    } else {
        let t = tags.last();
        let before = tags.drop_last();
        let w = behind_bytes(t);
        let rest = all_behind(before);
        let start = (front.len() + rest.len()) as int;
        counts(before);
        assert(well_formed(tags[tags.len() - 1]));
        assert(whole =~= front + rest + w);
        assert(d.subrange(start, end) =~= w) by {
            assert forall|k: int| 0 <= k < w.len() implies d[start + k] == w[k] by {
                assert(whole[start + k] == w[k]);
            }
        }
        assert(d.take(start) =~= front + rest) by {
            assert forall|k: int| 0 <= k < start implies d[k] == (front + rest)[k] by {
                assert(whole[k] == (front + rest)[k]);
            }
        }
        assert forall|i: int| 0 <= i < before.len() implies well_formed(#[trigger] before[i]) by {
            assert(before[i] == tags[i]);
        }
        match t {
            Behind::Appended(v, body) => {
                appended_is_found(d, start, end, t);
                if found < 64 {
                    walk(d, front, before, found + 1, seen);
                }
            },
            Behind::Id3v1(_) => {
                assert(w.len() == 128);
                assert forall|k: int| 0 <= k < 128 implies d[start + k] == #[trigger] w[k] by {
                    assert(d.subrange(start, end)[k] == d[start + k]);
                }
                assert(d[end - 10] == w[118] && d[end - 9] == w[119] && d[end - 8] == w[120]);
                assert(!footer_at(d, end - 10));
                assert(appended_start(d, 0, end) == Ok::<Option<int>, int>(None));
                assert(w[0] == 0x54 && w[1] == 0x41 && w[2] == 0x47);
                walk(d, front, before, found, true);
            },
        }
    }
}

/// Whatever tags stand behind the audio (ID3v2.4 tags with a footer, at most 64 of them, and an
/// ID3v1 trailer anywhere among them) are found, the last first; with more the file is
/// malformed.
pub proof fn tags_behind_are_found(
    file: &[u8],
    front: Seq<u8>,
    tags: Seq<Behind>,
    r: Result<Extent<Mp3Trailer>>,
)
    requires
        file@ == front + all_behind(tags),
        file@.len() <= u64::MAX,
        forall|i: int| 0 <= i < tags.len() ==> well_formed(#[trigger] tags[i]),
        trailer_count(tags) <= 1,
        no_tag_ends(front, trailer_count(tags) == 0),
        call_ensures(locate_trailer, (file, file@.len() as u64), r),
    ensures
        appended_count(tags) <= 64 ==> r is Ok && r->Ok_0 is Complete && r->Ok_0->Complete_0.tags@
            == extents(front.len() as int, tags),
        appended_count(tags) > 64 ==> r == Err::<Extent<Mp3Trailer>, FormatError>(
            FormatError::Malformed,
        ),
{
    let d = file@;
    assert(d.take(d.len() as int) =~= front + all_behind(tags));
    counts(tags);
    walk(d, front, tags, 0, false);
}

/// What a tail is asked for: the ten bytes of a footer; the whole of the tag that the footer
/// at the end of the file tells of; the 128 bytes of an ID3v1 trailer where there is no footer.
pub proof fn short_tail_asks_for_the_tag(
    tail: &[u8],
    file_len: u64,
    r: Result<Extent<Mp3Trailer>>,
)
    requires
        call_ensures(locate_trailer, (tail, file_len), r),
    ensures
        tail@.len() > file_len ==> r == Err::<Extent<Mp3Trailer>, FormatError>(
            FormatError::Malformed,
        ),
        tail@.len() < 10 && file_len >= 20 ==> r == Ok::<Extent<Mp3Trailer>, FormatError>(
            Extent::NeedMore { up_to: 10 },
        ),
        10 <= tail@.len() < 128 <= file_len && tail@[tail@.len() - 10] != 0x33 ==> r == Ok::<
            Extent<Mp3Trailer>,
            FormatError,
        >(Extent::NeedMore { up_to: 128 }),
        10 <= tail@.len() <= file_len && ({
            let f = tail@.skip(tail@.len() - 10);
            let n = 20 + seven_bits(f[6], f[7], f[8], f[9]);
            &&& f[0] == 0x33 && f[1] == 0x44 && f[2] == 0x49 && f[3] == 4 && f[4] != 255
            &&& f[5] / 16 % 2 == 1
            &&& f[6] < 128 && f[7] < 128 && f[8] < 128 && f[9] < 128
            &&& tail@.len() < n <= file_len
        }) ==> r is Ok && r->Ok_0 is NeedMore && r->Ok_0->up_to == 20 + seven_bits(
            tail@[tail@.len() - 4],
            tail@[tail@.len() - 3],
            tail@[tail@.len() - 2],
            tail@[tail@.len() - 1],
        ),
{
    let d = tail@;
    if 10 <= d.len() <= file_len {
        let f = d.skip(d.len() - 10);
        assert forall|k: int| 0 <= k < 10 implies f[k] == #[trigger] d[d.len() - 10 + k] by {}
        assert(f[6] == d[d.len() - 4] && f[7] == d[d.len() - 3] && f[8] == d[d.len() - 2] && f[9]
            == d[d.len() - 1]);
        assert(f[0] == d[d.len() - 10] && f[1] == d[d.len() - 9] && f[2] == d[d.len() - 8] && f[3]
            == d[d.len() - 7] && f[4] == d[d.len() - 6] && f[5] == d[d.len() - 5]);
    }
}

} // verus!
