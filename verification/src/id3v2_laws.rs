//! What stepping over ID3v2 tags comes to, whatever tags they are.

use crate::error::FormatError;
use crate::error::Result;
use crate::id3v2::body_end;
use crate::id3v2::frames_are_parseable;
use crate::id3v2::header_sane;
use crate::id3v2::is_update;
use crate::id3v2::leading_tags_len;
use crate::id3v2::magic_at;
use crate::id3v2::run_from;
use crate::id3v2::starts_with_tag;
use crate::id3v2::synchsafe_decode;
use crate::id3v2::tag_len_at;
use crate::id3v2::total_len;
use crate::id3v2::RunModel;
use crate::probe::Extent;
use vstd::prelude::*;

verus! {

/// The number in four bytes of which the low seven bits count.
pub open spec fn seven_bits(a: u8, b: u8, c: u8, d: u8) -> int {
    (a % 128) * 2097152 + (b % 128) * 16384 + (c % 128) * 128 + d % 128
}

/// `t` begins with the ten bytes of a tag header: `ID3`, two version bytes, flags, a size.
pub open spec fn begins_as_tag(t: Seq<u8>) -> bool {
    t.len() >= 10 && t[0] == 0x49 && t[1] == 0x44 && t[2] == 0x33
}

/// The size that a tag header declares.
pub open spec fn declared_size(t: Seq<u8>) -> int {
    seven_bits(t[6], t[7], t[8], t[9])
}

/// `t` is one whole tag: a well-formed header, as many bytes as it declares, and the ten of a
/// footer where it is a v2.4 tag that says it has one.
pub open spec fn is_whole_tag(t: Seq<u8>) -> bool {
    &&& begins_as_tag(t)
    &&& t[3] != 255 && t[4] != 255
    &&& t[6] < 128 && t[7] < 128 && t[8] < 128 && t[9] < 128
    &&& t.len() == 10 + declared_size(t) + if t[3] == 4 && t[5] / 16 % 2 == 1 {
        10int
    } else {
        0
    }
}

/// Four synchsafe bytes give the number whose groups of seven bits they hold.
pub proof fn synchsafe_bytes_are_decoded(b: &[u8], r: u32)
    requires
        b@.len() >= 4,
        call_ensures(synchsafe_decode, (b,), r),
    ensures
        r == seven_bits(b@[0], b@[1], b@[2], b@[3]),
{
}

/// A tag at the front of any bytes is stepped over as long as it is.
pub proof fn whole_tag_is_stepped_over(
    data: &[u8],
    t: Seq<u8>,
    after: Seq<u8>,
    total: Result<Option<usize>>,
    body: Result<Option<usize>>,
    known: bool,
    starts: bool,
)
    requires
        is_whole_tag(t),
        data@ == t + after,
        call_ensures(total_len, (data,), total),
        call_ensures(body_end, (data,), body),
        call_ensures(frames_are_parseable, (data,), known),
        call_ensures(starts_with_tag, (data,), starts),
    ensures
        match total {
            Ok(Some(n)) => n == t.len(),
            _ => false,
        },
        match body {
            Ok(Some(n)) => n == 10 + declared_size(t),
            _ => false,
        },
        known == (t[3] == 2 || t[3] == 3 || t[3] == 4),
        starts,
{
    let d = data@;
    assert(d[3] == t[3] && d[5] == t[5] && d[6] == t[6] && d[7] == t[7] && d[8] == t[8] && d[9]
        == t[9]);
}

/// What does not begin as a tag has no length as one; and a header that is not well-formed is
/// refused.
pub proof fn other_bytes_are_no_tag(
    data: &[u8],
    total: Result<Option<usize>>,
    body: Result<Option<usize>>,
)
    requires
        call_ensures(total_len, (data,), total),
        call_ensures(body_end, (data,), body),
    ensures
        !begins_as_tag(data@) ==> total == Ok::<Option<usize>, FormatError>(None) && body == Ok::<
            Option<usize>,
            FormatError,
        >(None),
        begins_as_tag(data@) && (data@[3] == 255 || data@[4] == 255 || data@[6] >= 128 || data@[7]
            >= 128 || data@[8] >= 128 || data@[9] >= 128) ==> total == Err::<
            Option<usize>,
            FormatError,
        >(FormatError::Malformed) && body == Err::<Option<usize>, FormatError>(
            FormatError::Malformed,
        ),
{
}

/// Tags in a row.
pub open spec fn in_a_row(tags: Seq<Seq<u8>>) -> Seq<u8>
    decreases tags.len(),
{
    if tags.len() == 0 {
        Seq::empty()
    } else {
        tags[0] + in_a_row(tags.drop_first())
    }
}

/// A run of tags, as many as may be and whatever each is, is stepped over whole, up to what is
/// no tag; a longer run is malformed.
pub proof fn run_of_tags_is_stepped_over(
    data: &[u8],
    tags: Seq<Seq<u8>>,
    after: Seq<u8>,
    r: Result<Extent<usize>>,
)
    requires
        forall|i: int| 0 <= i < tags.len() ==> is_whole_tag(#[trigger] tags[i]),
        after.len() < 3 || after[0] != 0x49 || after[1] != 0x44 || after[2] != 0x33,
        data@ == in_a_row(tags) + after,
        call_ensures(leading_tags_len, (data,), r),
    ensures
        tags.len() <= 64 ==> match r {
            Ok(Extent::Complete(n)) => n == in_a_row(tags).len(),
            _ => false,
        },
        tags.len() > 64 ==> r matches Err(FormatError::Malformed),
{
    let none = Seq::<u8>::empty();
    assert(none + data@ =~= data@);
    run_goes_on(none, tags, after, 64);
}

/// A run whose last tag is cut short asks for exactly the bytes that tag takes, or for its
/// header first.
pub proof fn cut_run_asks_for_the_tag(
    data: &[u8],
    tags: Seq<Seq<u8>>,
    last: Seq<u8>,
    n: int,
    r: Result<Extent<usize>>,
)
    requires
        forall|i: int| 0 <= i < tags.len() ==> is_whole_tag(#[trigger] tags[i]),
        is_whole_tag(last),
        tags.len() < 64,
        3 <= n < last.len(),
        data@ == in_a_row(tags) + last.take(n),
        call_ensures(leading_tags_len, (data,), r),
    ensures
        match r {
            Ok(Extent::NeedMore { up_to }) => up_to == in_a_row(tags).len() + if n < 10 {
                10
            } else {
                last.len() as int
            },
            _ => false,
        },
{
    let none = Seq::<u8>::empty();
    let part = last.take(n);
    assert(none + data@ =~= data@);
    run_reaches(none, tags, part, 64);
    let d = data@;
    let p = in_a_row(tags).len() as int;
    assert(d[p] == last[0] && d[p + 1] == last[1] && d[p + 2] == last[2]);
    if n >= 10 {
        assert(d[p + 3] == last[3] && d[p + 4] == last[4] && d[p + 5] == last[5] && d[p + 6]
            == last[6] && d[p + 7] == last[7] && d[p + 8] == last[8] && d[p + 9] == last[9]);
    }
}

/// A walk reaches what stands behind a run of tags.
proof fn run_reaches(before: Seq<u8>, tags: Seq<Seq<u8>>, after: Seq<u8>, left: nat)
    requires
        forall|i: int| 0 <= i < tags.len() ==> is_whole_tag(#[trigger] tags[i]),
        tags.len() <= left,
    ensures
        run_from(before + (in_a_row(tags) + after), before.len() as int, left) == run_from(
            before + (in_a_row(tags) + after),
            (before.len() + in_a_row(tags).len()) as int,
            (left - tags.len()) as nat,
        ),
    decreases tags.len(),
{
    if tags.len() > 0 {
        let t = tags[0];
        let rest = tags.drop_first();
        assert forall|i: int| 0 <= i < rest.len() implies is_whole_tag(#[trigger] rest[i]) by {
            assert(rest[i] == tags[i + 1]);
        }
        let d = before + (in_a_row(tags) + after);
        tag_stands(before, t, in_a_row(rest) + after);
        assert(d =~= before + (t + (in_a_row(rest) + after)));
        assert(d =~= (before + t) + (in_a_row(rest) + after));
        run_reaches(before + t, rest, after, (left - 1) as nat);
    }
}

/// A tag in the middle of bytes.
proof fn tag_stands(before: Seq<u8>, t: Seq<u8>, after: Seq<u8>)
    requires
        is_whole_tag(t),
    ensures
        ({
            let d = before + (t + after);
            let p = before.len() as int;
            &&& magic_at(d, p)
            &&& p + 10 <= d.len()
            &&& header_sane(d, p)
            &&& tag_len_at(d, p) == t.len()
            &&& p + t.len() <= d.len()
        }),
{
    let d = before + (t + after);
    let p = before.len() as int;
    assert forall|i: int| 0 <= i < 10 implies d[p + i] == t[i] by {}
    assert(d[p] == t[0] && d[p + 1] == t[1] && d[p + 2] == t[2] && d[p + 3] == t[3] && d[p + 4]
        == t[4] && d[p + 5] == t[5] && d[p + 6] == t[6] && d[p + 7] == t[7] && d[p + 8] == t[8]
        && d[p + 9] == t[9]);
}

proof fn run_goes_on(before: Seq<u8>, tags: Seq<Seq<u8>>, after: Seq<u8>, left: nat)
    requires
        forall|i: int| 0 <= i < tags.len() ==> is_whole_tag(#[trigger] tags[i]),
        after.len() < 3 || after[0] != 0x49 || after[1] != 0x44 || after[2] != 0x33,
    ensures
        run_from(before + (in_a_row(tags) + after), before.len() as int, left) == if tags.len()
            <= left {
            RunModel::Ends((before.len() + in_a_row(tags).len()) as int)
        } else {
            RunModel::Malformed
        },
    decreases tags.len(),
{
    let d = before + (in_a_row(tags) + after);
    let p = before.len() as int;
    if tags.len() > 0 {
        let t = tags[0];
        let rest = tags.drop_first();
        assert forall|i: int| 0 <= i < rest.len() implies is_whole_tag(#[trigger] rest[i]) by {
            assert(rest[i] == tags[i + 1]);
        }
        tag_stands(before, t, in_a_row(rest) + after);
        assert(d =~= before + (t + (in_a_row(rest) + after)));
        assert(d =~= (before + t) + (in_a_row(rest) + after));
        if left > 0 {
            run_goes_on(before + t, rest, after, (left - 1) as nat);
        }
    } else {
        assert(d =~= before + after);
        if after.len() >= 3 {
            assert(d[p] == after[0] && d[p + 1] == after[1] && d[p + 2] == after[2]);
        }
    }
}

/// A tag is an update where it is v2.4, has an extended header of one flag byte, and that
/// byte has the update bit; and nowhere else.
pub proof fn update_flag_is_read(tag: &[u8], r: bool)
    requires
        call_ensures(is_update, (tag,), r),
    ensures
        r ==> tag@.len() >= 16 && tag@[3] == 4 && tag@[5] / 64 % 2 == 1 && tag@[14] == 1 && tag@[15]
            / 64 % 2 == 1,
        tag@.len() >= 16 && tag@[3] == 4 && tag@[5] / 64 % 2 == 1 && tag@[14] == 1 && tag@[15] / 64
            % 2 == 1 ==> r,
{
}

} // verus!
