//! ID3v2 tags as written by anyone: which of them are read, and what their frames give.

use crate::bytes::be24;
use crate::bytes::be32;
use crate::bytes::find_byte;
use crate::bytes::find_byte_finds;
use crate::bytes::find_byte_is;
use crate::bytes::front_eight;
use crate::flac::binary_views;
use crate::flac::picture_views;
use crate::id3v2::synchsafe;
use crate::id3v2_laws::seven_bits;
use crate::input::EmbeddedBinaryTag;
use crate::input::EmbeddedPicture;
use crate::mp3::frames::ID_APIC;
use crate::mp3::frames::ID_COMM;
use crate::mp3::frames::ID_POPM;
use crate::mp3::frames::ID_UFID;
use crate::mp3::frames::ID_USLT;
use crate::mp3::frames::MUSICBRAINZ_UFID_OWNER;
use crate::mp3::read::alloc_safe;
use crate::mp3::read::frame_end;
use crate::mp3::read::frame_safe;
use crate::mp3::read::frames_end;
use crate::mp3::read::frames_from;
use crate::mp3::read::frames_safe;
use crate::mp3::read::frames_start;
use crate::mp3::read::graphic;
use crate::mp3::read::id3v2_alloc_safe;
use crate::mp3::read::musicbrainz_ufid;
use crate::mp3::read::opaque_frames;
use crate::mp3::read::promoted_pairs;
use crate::mp3::read::promoted_part;
use crate::mp3::read::read_binary_tags;
use crate::mp3::read::read_pictures;
use crate::mp3::read::read_tags;
use crate::mp3::read::tag_frames;
use crate::mp3::read::ID_CHAP;
use crate::mp3::read::ID_CTOC;
use crate::mp4::value_laws::big_endian;
use crate::mp4::value_laws::big_endian_len;
use crate::mp4::value_laws::fits_unsigned;
use crate::mp4::value_laws::reach;
use crate::mp4::value_laws::unsigned_bytes_decode;
use crate::number_laws::decimal_is_text;
use crate::number_laws::is_decimal_of;
use crate::slot_laws::code;
use crate::text::lossy_text;
use crate::text::utf8;
use crate::vorbiscomment::pair_views;
use vstd::prelude::*;
use vstd::string::*;

verus! {

/// Four synchsafe bytes.
pub open spec fn seven_bit_bytes(n: int) -> Seq<u8> {
    seq![
        (n / 2097152 % 128) as u8,
        (n / 16384 % 128) as u8,
        (n / 128 % 128) as u8,
        (n % 128) as u8,
    ]
}

/// A frame of a v2.2, v2.3 or v2.4 tag: a short id and a size of three bytes in v2.2, an id of
/// four bytes, a plain or a synchsafe size of four, and two bytes without flags in the others.
pub open spec fn any_frame(major: u8, f: (Seq<u8>, Seq<u8>)) -> Seq<u8> {
    if major == 2 {
        f.0 + big_endian(f.1.len() as int, 3) + f.1
    } else if major == 3 {
        f.0 + big_endian(f.1.len() as int, 4) + seq![0u8, 0u8] + f.1
    } else {
        f.0 + seven_bit_bytes(f.1.len() as int) + seq![0u8, 0u8] + f.1
    }
}

/// The frame can stand in a tag of that version: an id that does not begin with a zero byte,
/// no chapter frame, and a size that fits.
pub open spec fn can_stand(major: u8, f: (Seq<u8>, Seq<u8>)) -> bool {
    &&& f.0.len() == if major == 2 {
        3int
    } else {
        4
    }
    &&& f.0[0] != 0
    &&& f.0 != code("CHAP"@) && f.0 != code("CTOC"@)
    &&& f.1.len() < if major == 2 {
        0x1000000int
    } else {
        0x10000000
    }
}

/// Frames in a row.
pub open spec fn frames_in_a_row(major: u8, frames: Seq<(Seq<u8>, Seq<u8>)>) -> Seq<u8>
    decreases frames.len(),
{
    if frames.len() == 0 {
        Seq::empty()
    } else {
        any_frame(major, frames[0]) + frames_in_a_row(major, frames.drop_first())
    }
}

/// A tag header: `ID3`, the version, flags, a synchsafe size.
pub open spec fn any_header(major: u8, revision: u8, flags: u8, size: int) -> Seq<u8> {
    seq![0x49u8, 0x44u8, 0x33u8, major, revision, flags] + seven_bit_bytes(size)
}

/// The chapter ids as they are compared.
proof fn chapter_ids()
    ensures
        code("CHAP"@) == ID_CHAP@,
        code("CTOC"@) == ID_CTOC@,
{
    reveal_strlit("CHAP");
    reveal_strlit("CTOC");
    assert(code("CHAP"@) =~= ID_CHAP@);
    assert(code("CTOC"@) =~= ID_CTOC@);
}

/// The ids that are read on their own, as they are compared.
proof fn special_ids()
    ensures
        code("COMM"@) == ID_COMM@,
        code("USLT"@) == ID_USLT@,
        code("APIC"@) == ID_APIC@,
        code("POPM"@) == ID_POPM@,
        code("UFID"@) == ID_UFID@,
{
    reveal_strlit("COMM");
    reveal_strlit("USLT");
    reveal_strlit("APIC");
    reveal_strlit("POPM");
    reveal_strlit("UFID");
    assert(code("COMM"@) =~= ID_COMM@);
    assert(code("USLT"@) =~= ID_USLT@);
    assert(code("APIC"@) =~= ID_APIC@);
    assert(code("POPM"@) =~= ID_POPM@);
    assert(code("UFID"@) =~= ID_UFID@);
}

proof fn seven_bit_bytes_are_decoded(d: Seq<u8>, p: int, n: int)
    requires
        0 <= n < 0x10000000,
        0 <= p,
        p + 4 <= d.len(),
        d.subrange(p, p + 4) == seven_bit_bytes(n),
    ensures
        synchsafe(d, p) == n,
        d[p] < 0x80 && d[p + 1] < 0x80 && d[p + 2] < 0x80 && d[p + 3] < 0x80,
{
    let s = d.subrange(p, p + 4);
    assert(s[0] == d[p] && s[1] == d[p + 1] && s[2] == d[p + 2] && s[3] == d[p + 3]);
    crate::id3v2::synchsafe_round_trip(n);
    assert(s =~= crate::id3v2::synchsafe_bytes(n));
    assert(synchsafe(s, 0) == n);
}

proof fn three_bytes(d: Seq<u8>, p: int, n: int)
    requires
        0 <= n < 0x1000000,
        0 <= p,
        p + 3 <= d.len(),
        d.subrange(p, p + 3) == big_endian(n, 3),
    ensures
        be24(d, p) == n,
{
    let s = d.subrange(p, p + 3);
    assert(s[0] == d[p] && s[1] == d[p + 1] && s[2] == d[p + 2]);
    reveal_with_fuel(big_endian, 4);
    reveal_with_fuel(reach, 4);
    assert(s =~= seq![(n / 256 / 256 % 256) as u8, (n / 256 % 256) as u8, (n % 256) as u8]);
}

proof fn four_bytes(d: Seq<u8>, p: int, n: int)
    requires
        0 <= n < 0x10000000,
        0 <= p,
        p + 4 <= d.len(),
        d.subrange(p, p + 4) == big_endian(n, 4),
    ensures
        be32(d, p) == n,
{
    let s = d.subrange(p, p + 4);
    assert(s[0] == d[p] && s[1] == d[p + 1] && s[2] == d[p + 2] && s[3] == d[p + 3]);
    reveal_with_fuel(big_endian, 5);
    assert(s =~= seq![
        (n / 256 / 256 / 256 % 256) as u8,
        (n / 256 / 256 % 256) as u8,
        (n / 256 % 256) as u8,
        (n % 256) as u8,
    ]);
}

/// One frame where it stands.
proof fn frame_stands_at(d: Seq<u8>, p: int, f: (Seq<u8>, Seq<u8>))
    requires
        d.len() >= 10,
        2 <= d[3] <= 4,
        can_stand(d[3], f),
        0 <= p,
        p + any_frame(d[3], f).len() <= d.len(),
        d.subrange(p, p + any_frame(d[3], f).len()) == any_frame(d[3], f),
    ensures
        frame_end(d, p) == p + any_frame(d[3], f).len(),
        d[p] != 0,
        frame_safe(d, p) == (frame_end(d, p) <= frames_end(d)),
        d[3] >= 3 ==> d.subrange(p, p + 4) == f.0 && d.subrange(p + 10, frame_end(d, p)) == f.1,
        any_frame(d[3], f).len() == f.1.len() + if d[3] == 2 {
            6int
        } else {
            10
        },
{
    let major = d[3];
    let w = any_frame(major, f);
    let n = f.1.len() as int;
    big_endian_len(n, 3);
    big_endian_len(n, 4);
    chapter_ids();
    assert forall|k: int| 0 <= k < w.len() implies d[p + k] == #[trigger] w[k] by {
        assert(d.subrange(p, p + w.len())[k] == d[p + k]);
    }
    assert(w[0] == f.0[0]);
    if major == 2 {
        assert(d.subrange(p + 3, p + 6) =~= big_endian(n, 3)) by {
            assert forall|k: int| 0 <= k < 3 implies d[p + 3 + k] == big_endian(n, 3)[k] by {
                assert(w[3 + k] == big_endian(n, 3)[k]);
            }
        }
        three_bytes(d, p + 3, n);
    } else {
        let size = if major == 3 {
            big_endian(n, 4)
        } else {
            seven_bit_bytes(n)
        };
        assert(w =~= f.0 + size + seq![0u8, 0u8] + f.1);
        assert(d.subrange(p + 4, p + 8) =~= size) by {
            assert forall|k: int| 0 <= k < 4 implies d[p + 4 + k] == size[k] by {
                assert(w[4 + k] == size[k]);
            }
        }
        if major == 3 {
            four_bytes(d, p + 4, n);
        } else {
            seven_bit_bytes_are_decoded(d, p + 4, n);
        }
        assert(w[8] == 0 && w[9] == 0);
        assert(d[p + 8] == 0 && d[p + 9] == 0);
        assert(d.subrange(p, p + 4) =~= f.0) by {
            assert forall|k: int| 0 <= k < 4 implies d[p + k] == f.0[k] by {
                assert(w[k] == f.0[k]);
            }
        }
        assert(d.subrange(p + 10, p + 10 + n) =~= f.1) by {
            assert forall|k: int| 0 <= k < n implies d[p + 10 + k] == f.1[k] by {
                assert(w[10 + k] == f.1[k]);
            }
        }
    }
}

/// Frames where they stand in a tag, up to its end or its padding.
proof fn frames_stand_at(d: Seq<u8>, p: int, frames: Seq<(Seq<u8>, Seq<u8>)>)
    requires
        d.len() >= 10,
        2 <= d[3] <= 4,
        forall|i: int| 0 <= i < frames.len() ==> can_stand(d[3], #[trigger] frames[i]),
        10 <= p,
        p + frames_in_a_row(d[3], frames).len() <= frames_end(d) <= d.len(),
        d.subrange(p, p + frames_in_a_row(d[3], frames).len()) == frames_in_a_row(d[3], frames),
    ensures
        ({
            let q = p + frames_in_a_row(d[3], frames).len();
            &&& q == frames_end(d) && frames.len() > 0 ==> frames_safe(d, p)
            &&& q < frames_end(d) ==> frames_safe(d, p) == frames_safe(d, q)
            &&& d[3] >= 3 ==> frames_from(d, p, frames_end(d)) == frames + frames_from(
                d,
                q,
                frames_end(d),
            )
        }),
    decreases frames.len(),
{
    let all = frames_in_a_row(d[3], frames);
    let end = frames_end(d);
    if frames.len() == 0 {
        assert(frames + frames_from(d, p, end) =~= frames_from(d, p, end));
    } else {
        let f = frames[0];
        let rest = frames.drop_first();
        let w = any_frame(d[3], f);
        let tail = frames_in_a_row(d[3], rest);
        assert(all == w + tail);
        assert forall|k: int| 0 <= k < all.len() implies d[p + k] == #[trigger] all[k] by {
            assert(d.subrange(p, p + all.len())[k] == d[p + k]);
        }
        assert(d.subrange(p, p + w.len()) =~= w) by {
            assert forall|k: int| 0 <= k < w.len() implies d[p + k] == w[k] by {
                assert(all[k] == w[k]);
            }
        }
        frame_stands_at(d, p, f);
        let q = p + w.len();
        assert(d.subrange(q, q + tail.len()) =~= tail) by {
            assert forall|k: int| 0 <= k < tail.len() implies d[q + k] == tail[k] by {
                assert(all[w.len() + k] == tail[k]);
            }
        }
        assert forall|i: int| 0 <= i < rest.len() implies can_stand(d[3], #[trigger] rest[i]) by {
            assert(rest[i] == frames[i + 1]);
        }
        frames_stand_at(d, q, rest);
        if rest.len() > 0 {
            row_is_not_empty(d[3], rest);
        } else {
            assert(tail =~= Seq::empty());
        }
        if d[3] >= 3 {
            let last = frames_from(d, q + tail.len(), end);
            assert(seq![f] + (rest + last) =~= frames + last);
            assert((d.subrange(p, p + 4), d.subrange(p + 10, q)) == f);
        }
    }
}

proof fn row_is_not_empty(major: u8, frames: Seq<(Seq<u8>, Seq<u8>)>)
    requires
        frames.len() > 0,
        forall|i: int| 0 <= i < frames.len() ==> can_stand(major, #[trigger] frames[i]),
    ensures
        frames_in_a_row(major, frames).len() > 0,
{
    assert(can_stand(major, frames[0]));
    assert(any_frame(major, frames[0]).len() > 0);
}

/// A header where it stands.
proof fn header_stands(d: Seq<u8>, major: u8, revision: u8, flags: u8, size: int)
    requires
        0 <= size < 0x10000000,
        d.len() >= 10,
        d.take(10) == any_header(major, revision, flags, size),
    ensures
        frames_end(d) == 10 + size,
        d[0] == 0x49 && d[1] == 0x44 && d[2] == 0x33 && d[3] == major && d[5] == flags,
        d[6] < 0x80 && d[7] < 0x80 && d[8] < 0x80 && d[9] < 0x80,
{
    let h = any_header(major, revision, flags, size);
    assert forall|k: int| 0 <= k < 10 implies d[k] == #[trigger] h[k] by {
        assert(d.take(10)[k] == d[k]);
    }
    assert(h[0] == 0x49 && h[1] == 0x44 && h[2] == 0x33 && h[3] == major && h[5] == flags);
    assert(d.subrange(6, 10) =~= seven_bit_bytes(size)) by {
        assert forall|k: int| 0 <= k < 4 implies d[6 + k] == seven_bit_bytes(size)[k] by {
            assert(h[6 + k] == seven_bit_bytes(size)[k]);
        }
    }
    seven_bit_bytes_are_decoded(d, 6, size);
}

/// The v2.4 extended header of `n` bytes more than the smallest: its size, one byte of flags,
/// the flags and what they announce.
pub open spec fn any_extended_header(rest: Seq<u8>) -> Seq<u8> {
    seven_bit_bytes(5 + rest.len() as int) + seq![1u8] + rest
}

/// The body of a tag up to its padding: an extended header, if any, and the frames.
pub open spec fn any_body(
    major: u8,
    extended: Option<Seq<u8>>,
    frames: Seq<(Seq<u8>, Seq<u8>)>,
) -> Seq<u8> {
    (match extended {
        Some(rest) => any_extended_header(rest),
        None => Seq::empty(),
    }) + frames_in_a_row(major, frames)
}

/// The tag is sound: its version, flags and frames.
pub open spec fn sound_tag(
    major: u8,
    flags: u8,
    extended: Option<Seq<u8>>,
    frames: Seq<(Seq<u8>, Seq<u8>)>,
) -> bool {
    &&& 2 <= major <= 4
    &&& flags < 0x80
    &&& forall|i: int| 0 <= i < frames.len() ==> can_stand(major, #[trigger] frames[i])
    &&& match extended {
        Some(rest) => major == 4 && flags / 64 % 2 == 1 && rest.len() >= 1,
        None => flags / 64 % 2 == 0,
    }
}

/// A zero byte, `n` times.
pub open spec fn zeros(n: nat) -> Seq<u8> {
    Seq::new(n, |i: int| 0u8)
}

/// The frames of a tag that is sound.
proof fn sound_tag_stands(
    d: Seq<u8>,
    major: u8,
    revision: u8,
    flags: u8,
    extended: Option<Seq<u8>>,
    frames: Seq<(Seq<u8>, Seq<u8>)>,
    padding: nat,
    after: Seq<u8>,
)
    requires
        sound_tag(major, flags, extended, frames),
        any_body(major, extended, frames).len() + padding < 0x10000000,
        d == any_header(
            major,
            revision,
            flags,
            (any_body(major, extended, frames).len() + padding) as int,
        ) + any_body(major, extended, frames) + zeros(padding) + after,
        frames.len() > 0 || padding > 0 || after.len() == 0,
    ensures
        alloc_safe(d),
        d[3] == major,
        major >= 3 ==> tag_frames(d) == frames,
{
    let body = any_body(major, extended, frames);
    let row = frames_in_a_row(major, frames);
    let size = (body.len() + padding) as int;
    let h = any_header(major, revision, flags, size);
    assert(d.take(10) =~= h);
    header_stands(d, major, revision, flags, size);
    let start: int = match extended {
        Some(rest) => {
            let e = any_extended_header(rest);
            let n = (5 + rest.len()) as int;
            assert(n < 0x10000000);
            assert forall|k: int| 0 <= k < e.len() implies d[10 + k] == #[trigger] e[k] by {
                assert(body[k] == e[k]);
                assert(d[10 + k] == body[k]);
            }
            assert(d.subrange(10, 14) =~= seven_bit_bytes(n)) by {
                assert forall|k: int| 0 <= k < 4 implies d[10 + k] == seven_bit_bytes(n)[k] by {
                    assert(e[k] == seven_bit_bytes(n)[k]);
                }
            }
            seven_bit_bytes_are_decoded(d, 10, n);
            assert(e[4] == 1);
            assert(d[14] == 1);
            10 + n
        },
        None => 10,
    };
    assert(frames_start(d) == start);
    assert(d.subrange(start, start + row.len()) =~= row) by {
        assert forall|k: int| 0 <= k < row.len() implies d[start + k] == row[k] by {
            assert(body[start - 10 + k] == row[k]);
            assert(d[start + k] == body[start - 10 + k]);
        }
    }
    frames_stand_at(d, start, frames);
    let q = start + row.len();
    let end = frames_end(d);
    assert(q == 10 + body.len());
    if padding > 0 {
        assert(d[q] == zeros(padding)[0]);
    }
    assert(frames_from(d, q, end) =~= Seq::empty());
    assert(frames + frames_from(d, q, end) =~= frames);
    if q == end && frames.len() == 0 {
        assert(row =~= Seq::empty());
        assert(q == d.len());
    }
}

/// A body whose owner is MusicBrainz.
pub open spec fn of_musicbrainz(body: Seq<u8>) -> bool {
    exists|id: Seq<u8>| body == #[trigger] (utf8("http://musicbrainz.org"@) + seq![0u8] + id)
}

/// The frame is kept byte for byte: its id is printable, it is neither text nor a comment,
/// lyrics, a picture or a rating, and it is no MusicBrainz id.
pub open spec fn is_kept(f: (Seq<u8>, Seq<u8>)) -> bool {
    &&& f.0[0] != 0x54
    &&& f.0 != code("COMM"@) && f.0 != code("USLT"@) && f.0 != code("APIC"@)
    &&& f.0 != code("POPM"@)
    &&& !(f.0 == code("UFID"@) && of_musicbrainz(f.1))
    &&& forall|i: int| 0 <= i < f.0.len() ==> 0x21 <= #[trigger] f.0[i] <= 0x7e
}

/// The frame as it is handed out: its id as text, its body.
pub open spec fn handed_out(f: (Seq<u8>, Seq<u8>)) -> (Seq<char>, Seq<u8>) {
    (Seq::new(f.0.len(), |i: int| f.0[i] as char), f.1)
}

proof fn owner_is_ascii()
    ensures
        forall|i: int| 0 <= i < utf8("http://musicbrainz.org"@).len() ==> #[trigger] utf8(
            "http://musicbrainz.org"@,
        )[i] != 0,
        utf8("http://musicbrainz.org"@) == utf8(MUSICBRAINZ_UFID_OWNER@),
{
    reveal_strlit("http://musicbrainz.org");
    assert(!"http://musicbrainz.org"@.contains('\0'));
    crate::text::utf8_without_nul("http://musicbrainz.org"@);
}

proof fn owner_told(body: Seq<u8>)
    ensures
        musicbrainz_ufid(body) == of_musicbrainz(body),
{
    owner_is_ascii();
    let owner = utf8("http://musicbrainz.org"@);
    let nul = find_byte(body, 0, 0);
    find_byte_finds(body, 0, 0);
    if musicbrainz_ufid(body) {
        let id = body.subrange(nul + 1, body.len() as int);
        assert(body =~= owner + seq![0u8] + id);
    }
    if of_musicbrainz(body) {
        let id = choose|id: Seq<u8>| body == #[trigger] (owner + seq![0u8] + id);
        let n = owner.len() as int;
        assert forall|k: int| 0 <= k < n implies body[k] != 0 by {
            assert(body[k] == owner[k]);
        }
        find_byte_is(body, 0, 0, n);
        assert(body.subrange(0, n) =~= owner);
    }
}

proof fn kept_of_frames(s: Seq<(Seq<u8>, Seq<u8>)>)
    ensures
        opaque_frames(s) == s.filter(|f: (Seq<u8>, Seq<u8>)| is_kept(f)).map_values(
            |f: (Seq<u8>, Seq<u8>)| handed_out(f),
        ),
    decreases s.len(),
{
    reveal(Seq::filter);
    let k = |f: (Seq<u8>, Seq<u8>)| is_kept(f);
    let h = |f: (Seq<u8>, Seq<u8>)| handed_out(f);
    if s.len() > 0 {
        kept_of_frames(s.drop_last());
        special_ids();
        owner_told(s.last().1);
        assert(handed_out(s.last()).0 =~= crate::mp3::read::id_text(s.last().0));
        assert(graphic(s.last().0) == forall|i: int|
            0 <= i < s.last().0.len() ==> 0x21 <= #[trigger] s.last().0[i] <= 0x7e);
        assert(opaque_frames(s) =~= s.filter(k).map_values(h));
    } else {
        assert(opaque_frames(s) =~= s.filter(k).map_values(h));
    }
}

/// A sound tag of any version passes the guard, with any padding and anything behind it. Of a
/// v2.3 or v2.4 tag the frames that are kept are handed out, in order and byte for byte; of a
/// v2.2 tag none is.
pub proof fn any_sound_tag_is_read(
    data: &[u8],
    major: u8,
    revision: u8,
    flags: u8,
    extended: Option<Seq<u8>>,
    frames: Seq<(Seq<u8>, Seq<u8>)>,
    padding: nat,
    after: Seq<u8>,
    safe: bool,
    r: (Vec<EmbeddedBinaryTag>, Vec<(String, String)>),
)
    requires
        sound_tag(major, flags, extended, frames),
        any_body(major, extended, frames).len() + padding < 0x10000000,
        data@ == any_header(
            major,
            revision,
            flags,
            (any_body(major, extended, frames).len() + padding) as int,
        ) + any_body(major, extended, frames) + zeros(padding) + after,
        frames.len() > 0 || padding > 0 || after.len() == 0,
        call_ensures(id3v2_alloc_safe, (data,), safe),
        call_ensures(read_binary_tags, (data,), r),
    ensures
        safe,
        major >= 3 ==> binary_views(r.0@) == frames.filter(
            |f: (Seq<u8>, Seq<u8>)| is_kept(f),
        ).map_values(|f: (Seq<u8>, Seq<u8>)| handed_out(f)),
        major == 2 ==> r.0@.len() == 0 && r.1@.len() == 0,
{
    sound_tag_stands(data@, major, revision, flags, extended, frames, padding, after);
    kept_of_frames(frames);
    assert(binary_views(r.0@).len() == r.0@.len());
    assert(pair_views(r.1@).len() == r.1@.len());
}

/// The bytes of a tag of which the guard is to say whether it is safe.
pub open spec fn begins_with_frames(
    d: Seq<u8>,
    major: u8,
    revision: u8,
    flags: u8,
    size: int,
    frames: Seq<(Seq<u8>, Seq<u8>)>,
) -> bool {
    &&& 2 <= major <= 4
    &&& flags < 0x40
    &&& 0 <= size < 0x10000000
    &&& 10 + frames_in_a_row(major, frames).len() < 10 + size <= d.len()
    &&& forall|i: int| 0 <= i < frames.len() ==> can_stand(major, #[trigger] frames[i])
    &&& d.take(10) == any_header(major, revision, flags, size)
    &&& d.subrange(10, 10 + frames_in_a_row(major, frames).len() as int) == frames_in_a_row(major, frames)
}

/// A frame that the guard does not let through: a chapter frame, one with flags, one whose
/// size is malformed, or one that runs past the end of the tag.
pub open spec fn is_refused(d: Seq<u8>, major: u8, p: int, end: int) -> bool {
    if major == 2 {
        d[p] != 0 && p + 6 + d[p + 3] * 65536 + d[p + 4] * 256 + d[p + 5] > end
    } else {
        &&& d[p] != 0
        &&& {
            ||| d.subrange(p, p + 4) == code("CHAP"@)
            ||| d.subrange(p, p + 4) == code("CTOC"@)
            ||| d[p + 8] != 0
            ||| d[p + 9] != 0
            ||| major == 3 && p + 10 + d[p + 4] * 16777216 + d[p + 5] * 65536 + d[p + 6] * 256 + d[p
                + 7] > end
            ||| major == 4 && (d[p + 4] >= 128 || d[p + 5] >= 128 || d[p + 6] >= 128 || d[p + 7]
                >= 128)
            ||| major == 4 && p + 10 + seven_bits(d[p + 4], d[p + 5], d[p + 6], d[p + 7]) > end
        }
    }
}

/// Behind any number of sound frames, one that is not let through has the whole tag refused:
/// nothing of it is read.
pub proof fn unsafe_frames_are_refused(
    data: &[u8],
    major: u8,
    revision: u8,
    flags: u8,
    size: int,
    frames: Seq<(Seq<u8>, Seq<u8>)>,
    safe: bool,
    r: (Vec<EmbeddedBinaryTag>, Vec<(String, String)>),
    tags: Vec<(String, String)>,
    pictures: Vec<EmbeddedPicture>,
)
    requires
        begins_with_frames(data@, major, revision, flags, size, frames),
        10 + frames_in_a_row(major, frames).len() + (if major == 2 {
            6int
        } else {
            10
        }) <= data@.len(),
        call_ensures(id3v2_alloc_safe, (data,), safe),
        call_ensures(read_binary_tags, (data,), r),
        call_ensures(read_tags, (data,), tags),
        call_ensures(read_pictures, (data,), pictures),
    ensures
        is_refused(
            data@,
            major,
            10 + frames_in_a_row(major, frames).len() as int,
            10 + size,
        ) ==> !safe,
        !safe ==> r.0@.len() == 0 && r.1@.len() == 0 && tags@.len() == 0 && pictures@.len() == 0,
{
    let d = data@;
    let p = 10 + frames_in_a_row(major, frames).len() as int;
    assert(binary_views(r.0@).len() == r.0@.len());
    assert(pair_views(r.1@).len() == r.1@.len());
    assert(pair_views(tags@).len() == tags@.len());
    assert(picture_views(pictures@).len() == pictures@.len());
    header_stands(d, major, revision, flags, size);
    chapter_ids();
    assert(flags / 0x40 == 0);
    assert(frames_start(d) == 10);
    frames_stand_at(d, 10, frames);
    if is_refused(d, major, p, 10 + size) {
        assert(!frame_safe(d, p));
        assert(!frames_safe(d, p));
    }
}

/// What is no tag of a known version, declares more than there is, or has its header flags or
/// its size malformed, is refused. An extended header is let through in a v2.4 tag only.
pub proof fn unknown_tags_are_refused(data: &[u8], safe: bool)
    requires
        call_ensures(id3v2_alloc_safe, (data,), safe),
    ensures
        data@.len() < 10 ==> !safe,
        data@.len() >= 10 ==> {
            let d = data@;
            &&& d[0] != 0x49 || d[1] != 0x44 || d[2] != 0x33 ==> !safe
            &&& d[3] < 2 || d[3] > 4 ==> !safe
            &&& d[5] >= 128 ==> !safe
            &&& d[6] >= 128 || d[7] >= 128 || d[8] >= 128 || d[9] >= 128 ==> !safe
            &&& 10 + seven_bits(d[6], d[7], d[8], d[9]) > d.len() ==> !safe
            &&& d[5] / 64 % 2 == 1 && d[3] != 4 ==> !safe
            &&& d[5] / 64 % 2 == 1 && seven_bits(d[6], d[7], d[8], d[9]) < 6 ==> !safe
            &&& d[5] / 64 % 2 == 1 && d.len() >= 16 && (d[14] != 1 || seven_bits(
                d[10],
                d[11],
                d[12],
                d[13],
            ) < 6 || seven_bits(d[10], d[11], d[12], d[13]) > seven_bits(d[6], d[7], d[8], d[9])
                || d[10] >= 128 || d[11] >= 128 || d[12] >= 128 || d[13] >= 128) ==> !safe
        },
{
}

proof fn promoted_concat(a: Seq<(Seq<u8>, Seq<u8>)>, f: (Seq<u8>, Seq<u8>))
    ensures
        promoted_pairs(a.push(f)) == promoted_pairs(a) + promoted_part(f.0, f.1),
{
    assert(a.push(f).drop_last() =~= a);
}

/// The tag with these frames, plain otherwise.
pub open spec fn tag_of(major: u8, frames: Seq<(Seq<u8>, Seq<u8>)>) -> Seq<u8> {
    any_header(major, 0, 0, frames_in_a_row(major, frames).len() as int) + frames_in_a_row(
        major,
        frames,
    )
}

/// The tag is sound and fits.
pub open spec fn readable(major: u8, frames: Seq<(Seq<u8>, Seq<u8>)>) -> bool {
    3 <= major <= 4 && sound_tag(major, 0, None, frames) && frames_in_a_row(major, frames).len()
        < 0x10000000
}

proof fn promoted_of_tag(
    data: &[u8],
    major: u8,
    frames: Seq<(Seq<u8>, Seq<u8>)>,
    r: (Vec<EmbeddedBinaryTag>, Vec<(String, String)>),
)
    requires
        readable(major, frames),
        data@ == tag_of(major, frames),
        call_ensures(read_binary_tags, (data,), r),
    ensures
        pair_views(r.1@) == promoted_pairs(frames),
{
    let row = frames_in_a_row(major, frames);
    assert(any_body(major, None, frames) =~= row);
    assert(data@ =~= any_header(major, 0, 0, (row.len() + 0) as int) + any_body(
        major,
        None,
        frames,
    ) + zeros(0) + Seq::<u8>::empty());
    sound_tag_stands(data@, major, 0, 0, None, frames, 0, Seq::empty());
}

/// A rating frame, whoever owns it and however wide its counter, adds its rating and, where it
/// is not zero, its play count, both as decimal text. A counter of no bytes is zero; of one
/// wider than eight bytes the first eight count.
pub proof fn ratings_are_promoted(
    before: &[u8],
    after: &[u8],
    major: u8,
    frames: Seq<(Seq<u8>, Seq<u8>)>,
    owner: Seq<u8>,
    rating: u8,
    count: int,
    width: nat,
    more: Seq<u8>,
    b: (Vec<EmbeddedBinaryTag>, Vec<(String, String)>),
    a: (Vec<EmbeddedBinaryTag>, Vec<(String, String)>),
)
    requires
        forall|i: int| 0 <= i < owner.len() ==> #[trigger] owner[i] != 0,
        width <= 8,
        fits_unsigned(count, width),
        width < 8 ==> more.len() == 0,
        ({
            let popm = (
                code("POPM"@),
                owner + seq![0u8, rating] + big_endian(count, width) + more,
            );
            &&& readable(major, frames)
            &&& readable(major, frames.push(popm))
            &&& before@ == tag_of(major, frames)
            &&& after@ == tag_of(major, frames.push(popm))
        }),
        call_ensures(read_binary_tags, (before,), b),
        call_ensures(read_binary_tags, (after,), a),
    ensures
        ({
            let n = b.1@.len() as int;
            let p = pair_views(a.1@);
            &&& p.len() == n + if count > 0 {
                2int
            } else {
                1
            }
            &&& p.take(n) == pair_views(b.1@)
            &&& p[n].0 == "rating"@ && is_decimal_of(p[n].1, rating as int)
            &&& count > 0 ==> p[n + 1].0 == "playcount"@ && is_decimal_of(p[n + 1].1, count)
        }),
{
    let body = owner + seq![0u8, rating] + big_endian(count, width) + more;
    let popm = (code("POPM"@), body);
    promoted_of_tag(before, major, frames, b);
    promoted_of_tag(after, major, frames.push(popm), a);
    promoted_concat(frames, popm);
    special_ids();
    let k = owner.len() as int;
    assert forall|i: int| 0 <= i < k implies body[i] != 0 by {
        assert(body[i] == owner[i]);
    }
    assert(body[k] == 0 && body[k + 1] == rating);
    find_byte_is(body, 0, 0, k);
    big_endian_len(count, width);
    let c = body.subrange(k + 2, body.len() as int);
    assert(front_eight(c) =~= big_endian(count, width));
    unsigned_bytes_decode(count, width);
    decimal_is_text(rating as int);
    if count > 0 {
        decimal_is_text(count);
    }
    reveal_strlit("POPM");
    reveal_strlit("COMM");
    reveal_strlit("USLT");
    reveal_strlit("APIC");
    assert(code("POPM"@)[0] == 0x50);
    assert(code("COMM"@)[0] == 0x43);
    assert(code("USLT"@)[0] == 0x55);
    assert(code("APIC"@)[0] == 0x41);
    assert(pair_views(b.1@).len() == b.1@.len());
    assert(pair_views(a.1@).take(b.1@.len() as int) =~= pair_views(b.1@));
}

/// A MusicBrainz id adds its text; any frame that is no rating and no MusicBrainz id adds no
/// pair, and neither does a rating frame that ends with its owner.
pub proof fn other_frames_are_promoted(
    before: &[u8],
    after: &[u8],
    major: u8,
    frames: Seq<(Seq<u8>, Seq<u8>)>,
    f: (Seq<u8>, Seq<u8>),
    b: (Vec<EmbeddedBinaryTag>, Vec<(String, String)>),
    a: (Vec<EmbeddedBinaryTag>, Vec<(String, String)>),
)
    requires
        readable(major, frames),
        readable(major, frames.push(f)),
        before@ == tag_of(major, frames),
        after@ == tag_of(major, frames.push(f)),
        call_ensures(read_binary_tags, (before,), b),
        call_ensures(read_binary_tags, (after,), a),
    ensures
        forall|id: Seq<u8>|
            f == (
                code("UFID"@),
                #[trigger] (utf8("http://musicbrainz.org"@) + seq![0u8] + id),
            ) ==> pair_views(a.1@) == pair_views(b.1@).push(
                ("musicbrainz_trackid"@, lossy_text(id)),
            ),
        f.0 != code("POPM"@) && !(f.0 == code("UFID"@) && of_musicbrainz(f.1)) ==> pair_views(a.1@)
            == pair_views(b.1@),
        f.0 == code("POPM"@) && (forall|i: int|
            0 <= i < f.1.len() - 1 ==> #[trigger] f.1[i] != 0) ==> pair_views(a.1@) == pair_views(
            b.1@,
        ),
{
    promoted_of_tag(before, major, frames, b);
    promoted_of_tag(after, major, frames.push(f), a);
    promoted_concat(frames, f);
    special_ids();
    owner_told(f.1);
    owner_is_ascii();
    reveal_strlit("UFID");
    reveal_strlit("POPM");
    reveal_strlit("COMM");
    reveal_strlit("USLT");
    reveal_strlit("APIC");
    assert(code("UFID"@)[0] == 0x55 && code("UFID"@)[1] == 0x46);
    assert(code("POPM"@)[0] == 0x50);
    assert(code("COMM"@)[0] == 0x43);
    assert(code("USLT"@)[0] == 0x55 && code("USLT"@)[1] == 0x53);
    assert(code("APIC"@)[0] == 0x41);
    let owner = utf8("http://musicbrainz.org"@);
    let none = Seq::<(Seq<char>, Seq<char>)>::empty();
    assert(pair_views(b.1@) + none =~= pair_views(b.1@));
    assert forall|id: Seq<u8>|
        f == (code("UFID"@), #[trigger] (owner + seq![0u8] + id)) implies pair_views(a.1@)
        == pair_views(b.1@).push(("musicbrainz_trackid"@, lossy_text(id))) by {
        let n = owner.len() as int;
        assert forall|k: int| 0 <= k < n implies f.1[k] != 0 by {
            assert(f.1[k] == owner[k]);
        }
        find_byte_is(f.1, 0, 0, n);
        assert(of_musicbrainz(f.1));
        assert(f.1.subrange(n + 1, f.1.len() as int) =~= id);
        assert(pair_views(b.1@) + seq![("musicbrainz_trackid"@, lossy_text(id))] =~= pair_views(
            b.1@,
        ).push(("musicbrainz_trackid"@, lossy_text(id))));
    }
    if f.0 == code("POPM"@) && (forall|i: int| 0 <= i < f.1.len() - 1 ==> #[trigger] f.1[i] != 0) {
        find_byte_finds(f.1, 0, 0);
        let nul = find_byte(f.1, 0, 0);
        assert(nul + 1 >= f.1.len());
    }
}

} // verus!
