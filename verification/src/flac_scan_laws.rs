//! What scanning a FLAC stream comes to, whatever blocks it is made of: where its audio lies,
//! which blocks are carried over and under which names they are stored.

use crate::error::FormatError;
use crate::error::Result;
use crate::flac::binary_of;
use crate::flac::binary_views;
use crate::flac::block_header;
use crate::flac::block_views;
use crate::flac::front_decides;
use crate::flac::has_marker;
use crate::flac::locate_audio;
use crate::flac::metadata_end;
use crate::flac::named_views;
use crate::flac::parse_picture_block;
use crate::flac::picture_view;
use crate::flac::picture_views;
use crate::flac::preserved_from;
use crate::flac::probe_asks_for_what_is_needed;
use crate::flac::read_metadata;
use crate::flac::read_metadata_bounded;
use crate::flac::read_pictures;
use crate::flac::read_vorbis_comments;
use crate::flac::split_preserved;
use crate::flac::structural_block_type;
use crate::flac::structural_of;
use crate::flac::FlacMeta;
use crate::flac::FlacScan;
use crate::flac::MetadataBlock;
use crate::flac::PictureModel;
use crate::flac_laws::block_bytes;
use crate::flac_laws::blocks_read_back;
use crate::flac_laws::closed_blocks;
use crate::flac_laws::comments_among;
use crate::flac_laws::open_blocks;
use crate::flac_laws::pictures_among;
use crate::flac_laws::preserved_among;
use crate::input::EmbeddedBinaryTag;
use crate::input::EmbeddedPicture;
use crate::probe::Extent;
use crate::vorbiscomment::pair_views;
use crate::vorbiscomment::parse;
use vstd::prelude::*;

verus! {

/// A block in a stream: one byte of type and last-block flag, the length of the body in three
/// bytes, the body.
pub open spec fn stream_block(b: (u8, Seq<u8>), last: bool) -> Seq<u8> {
    let n = b.1.len() as int;
    let flag: int = if last {
        128
    } else {
        0
    };
    seq![(b.0 + flag) as u8, (n / 65536) as u8, (n / 256 % 256) as u8, (n % 256) as u8] + b.1
}

/// Blocks in a stream, none of them the last.
pub open spec fn stream_blocks(s: Seq<(u8, Seq<u8>)>) -> Seq<u8>
    decreases s.len(),
{
    if s.len() == 0 {
        Seq::empty()
    } else {
        stream_blocks(s.drop_last()) + stream_block(s.last(), false)
    }
}

/// The metadata of a stream: `fLaC`, then the blocks, of which the final one is the last.
pub open spec fn stream_front(s: Seq<(u8, Seq<u8>)>) -> Seq<u8> {
    seq![0x66u8, 0x4cu8, 0x61u8, 0x43u8] + (stream_blocks(s.drop_last()) + stream_block(
        s.last(),
        true,
    ))
}

/// A stream can be made of the blocks: there is one at least, types have seven bits and bodies
/// fit 24.
pub open spec fn streamable(s: Seq<(u8, Seq<u8>)>) -> bool {
    s.len() > 0 && forall|i: int|
        0 <= i < s.len() ==> (#[trigger] s[i]).0 < 128 && s[i].1.len() < 0x100_0000
}

pub(crate) proof fn block_as_written(b: (u8, Seq<u8>), last: bool)
    requires
        b.0 < 128,
        b.1.len() < 0x100_0000,
    ensures
        stream_block(b, last) == block_bytes(b, last),
{
    let n = b.1.len() as int;
    assert(block_header(b.0, n, last) =~= seq![
        (b.0 + if last {
            128int
        } else {
            0
        }) as u8,
        (n / 65536) as u8,
        (n / 256 % 256) as u8,
        (n % 256) as u8,
    ]);
}

pub(crate) proof fn blocks_as_written(s: Seq<(u8, Seq<u8>)>)
    requires
        forall|i: int| 0 <= i < s.len() ==> (#[trigger] s[i]).0 < 128 && s[i].1.len() < 0x100_0000,
    ensures
        stream_blocks(s) == open_blocks(s),
    decreases s.len(),
{
    if s.len() > 0 {
        let f = s.drop_last();
        assert forall|i: int| 0 <= i < f.len() implies (#[trigger] f[i]).0 < 128 && f[i].1.len()
            < 0x100_0000 by {
            assert(f[i] == s[i]);
        }
        blocks_as_written(f);
        assert(s[s.len() - 1].0 < 128);
        block_as_written(s.last(), false);
    }
}

/// A stream reads as the blocks it is made of.
proof fn stream_reads(d: Seq<u8>, s: Seq<(u8, Seq<u8>)>, after: Seq<u8>)
    requires
        streamable(s),
        d == stream_front(s) + after,
    ensures
        has_marker(d),
        metadata_end(d, 4) == Ok::<int, int>(stream_front(s).len() as int),
        preserved_from(d, 4) == s.filter(
            |b: (u8, Seq<u8>)| b.0 == 0 || b.0 == 2 || b.0 == 3 || b.0 == 5,
        ),
        crate::flac::comments_from(d, 4) == comments_among(s),
        crate::flac::pictures_from(d, 4) == pictures_among(s),
{
    let f = s.drop_last();
    assert forall|i: int| 0 <= i < f.len() implies (#[trigger] f[i]).0 < 128 && f[i].1.len()
        < 0x100_0000 by {
        assert(f[i] == s[i]);
    }
    blocks_as_written(f);
    assert(s[s.len() - 1].0 < 128);
    block_as_written(s.last(), true);
    let c = closed_blocks(s);
    assert(d.subrange(4, 4 + c.len() as int) =~= c);
    assert(d[0] == 0x66 && d[1] == 0x4c && d[2] == 0x61 && d[3] == 0x43);
    blocks_read_back(d, 4, s);
    kept_are_filtered(s);
}

proof fn kept_are_filtered(s: Seq<(u8, Seq<u8>)>)
    ensures
        preserved_among(s) == s.filter(
            |b: (u8, Seq<u8>)| b.0 == 0 || b.0 == 2 || b.0 == 3 || b.0 == 5,
        ),
    decreases s.len(),
{
    let p = |b: (u8, Seq<u8>)| b.0 == 0 || b.0 == 2 || b.0 == 3 || b.0 == 5;
    reveal(Seq::filter);
    if s.len() > 0 {
        let rest = s.drop_first();
        let one = seq![s[0]];
        kept_are_filtered(rest);
        assert(s =~= one + rest);
        Seq::filter_distributes_over_add(one, rest, p);
        assert(one.drop_last() =~= Seq::empty());
        assert(one.drop_last().filter(p) =~= Seq::empty());
        assert(one.filter(p) =~= if p(s[0]) {
            one
        } else {
            Seq::empty()
        });
    } else {
        assert(s.filter(p) =~= Seq::empty());
    }
}

/// A stream of any blocks is scanned for what it is: the audio is all that follows the last
/// block, and STREAMINFO, APPLICATION, SEEKTABLE and CUESHEET blocks are carried over, each
/// with its whole body, in order. A look at the front alone finds the same.
pub proof fn stream_is_scanned(
    data: &[u8],
    blocks: Seq<(u8, Seq<u8>)>,
    audio: Seq<u8>,
    scan: Result<FlacScan>,
    meta: Result<FlacMeta>,
    probe: Result<Extent<FlacMeta>>,
)
    requires
        streamable(blocks),
        data@ == stream_front(blocks) + audio,
        call_ensures(locate_audio, (data,), scan),
        call_ensures(read_metadata, (data,), meta),
        call_ensures(read_metadata_bounded, (data,), probe),
    ensures
        ({
            let kept = blocks.filter(
                |b: (u8, Seq<u8>)| b.0 == 0 || b.0 == 2 || b.0 == 3 || b.0 == 5,
            );
            let end = stream_front(blocks).len();
            &&& match scan {
                Ok(s) => s.audio_offset == end && s.audio_length == audio.len() && block_views(
                    s.preserved@,
                ) == kept,
                Err(_) => false,
            }
            &&& match meta {
                Ok(m) => m.audio_offset == end && block_views(m.preserved@) == kept,
                Err(_) => false,
            }
            &&& match probe {
                Ok(Extent::Complete(m)) => m.audio_offset == end && block_views(m.preserved@)
                    == kept,
                _ => false,
            }
        }),
{
    stream_reads(data@, blocks, audio);
}

/// The front of a stream that is cut short in its metadata is no stream: a scan refuses it,
/// and a look at it asks for more than it had, and for nothing beyond the metadata.
pub proof fn cut_stream_is_refused(
    data: &[u8],
    blocks: Seq<(u8, Seq<u8>)>,
    n: int,
    scan: Result<FlacScan>,
    probe: Result<Extent<FlacMeta>>,
)
    requires
        streamable(blocks),
        4 <= n < stream_front(blocks).len(),
        data@ == stream_front(blocks).take(n),
        call_ensures(locate_audio, (data,), scan),
        call_ensures(read_metadata_bounded, (data,), probe),
    ensures
        scan matches Err(FormatError::Malformed),
        match probe {
            Ok(Extent::NeedMore { up_to }) => n < up_to <= stream_front(blocks).len(),
            _ => false,
        },
{
    let d = stream_front(blocks);
    let front = data@;
    let rest = d.skip(n);
    let none = Seq::<u8>::empty();
    assert(d + none =~= d);
    stream_reads(d, blocks, none);
    assert(front + rest =~= d);
    assert(front[0] == d[0] && front[1] == d[1] && front[2] == d[2] && front[3] == d[3]);
    match metadata_end(front, 4) {
        Ok(e) => {
            front_decides(front, rest, 4);
            end_within(front, 4);
        },
        Err(up_to) => {
            if d.len() < up_to {
                probe_asks_for_what_is_needed(front, rest, 4, up_to);
            }
        },
    }
}

proof fn end_within(d: Seq<u8>, p: int)
    requires
        0 <= p,
    ensures
        match metadata_end(d, p) {
            Ok(e) => e <= d.len(),
            Err(_) => true,
        },
    decreases d.len() - p,
{
    if p + 4 <= d.len() && crate::flac::block_end(d, p) <= d.len() && !crate::flac::block_is_last(
        d,
        p,
    ) {
        end_within(d, crate::flac::block_end(d, p));
    }
}

/// What does not begin with `fLaC` is no FLAC stream.
pub proof fn no_marker_no_stream(
    data: &[u8],
    scan: Result<FlacScan>,
    comments: Result<Vec<(String, String)>>,
    pictures: Result<Vec<EmbeddedPicture>>,
)
    requires
        data@.len() < 4 || data@.take(4) != seq![0x66u8, 0x4cu8, 0x61u8, 0x43u8],
        call_ensures(locate_audio, (data,), scan),
        call_ensures(read_vorbis_comments, (data,), comments),
        call_ensures(read_pictures, (data,), pictures),
    ensures
        scan matches Err(FormatError::NotFlac),
        comments matches Err(FormatError::NotFlac),
        pictures matches Err(FormatError::NotFlac),
{
    if has_marker(data@) {
        assert(data@.take(4) =~= seq![0x66u8, 0x4cu8, 0x61u8, 0x43u8]);
    }
}

/// The comments of a stream are those of its first VORBIS_COMMENT block, as parsing the body
/// of that block gives them; and there are none where it has no such block.
pub proof fn comments_are_of_the_first_block(
    data: &[u8],
    blocks: Seq<(u8, Seq<u8>)>,
    audio: Seq<u8>,
    k: int,
    body: &[u8],
    parsed: Result<Vec<(String, String)>>,
    r: Result<Vec<(String, String)>>,
)
    requires
        streamable(blocks),
        data@ == stream_front(blocks) + audio,
        call_ensures(read_vorbis_comments, (data,), r),
        call_ensures(parse, (body,), parsed),
        0 <= k <= blocks.len(),
        forall|i: int| 0 <= i < k ==> (#[trigger] blocks[i]).0 != 4,
        k < blocks.len() ==> blocks[k].0 == 4 && body@ == blocks[k].1,
    ensures
        k == blocks.len() ==> r is Ok && r->Ok_0@.len() == 0,
        k < blocks.len() ==> match (r, parsed) {
            (Ok(a), Ok(b)) => pair_views(a@) == pair_views(b@),
            (Err(a), Err(b)) => a == b,
            _ => false,
        },
{
    stream_reads(data@, blocks, audio);
    first_comment(blocks, k);
    if k == blocks.len() {
        assert(pair_views(r->Ok_0@).len() == r->Ok_0@.len());
    }
}

proof fn first_comment(s: Seq<(u8, Seq<u8>)>, k: int)
    requires
        0 <= k <= s.len(),
        forall|i: int| 0 <= i < k ==> (#[trigger] s[i]).0 != 4,
        k < s.len() ==> s[k].0 == 4,
    ensures
        comments_among(s) == if k < s.len() {
            crate::vorbiscomment::body_pairs(s[k].1)
        } else {
            Some(Seq::empty())
        },
    decreases k,
{
    if k > 0 {
        let rest = s.drop_first();
        assert(s[0].0 != 4);
        assert forall|i: int| 0 <= i < k - 1 implies (#[trigger] rest[i]).0 != 4 by {
            assert(rest[i] == s[i + 1]);
        }
        first_comment(rest, k - 1);
    }
}

/// The pictures of a stream are those of its PICTURE blocks, one for each, in order: picture
/// `j` is what parsing the body of PICTURE block `j` gives.
pub proof fn pictures_are_of_the_blocks(
    data: &[u8],
    blocks: Seq<(u8, Seq<u8>)>,
    audio: Seq<u8>,
    j: int,
    body: &[u8],
    parsed: Result<EmbeddedPicture>,
    r: Result<Vec<EmbeddedPicture>>,
)
    requires
        streamable(blocks),
        data@ == stream_front(blocks) + audio,
        call_ensures(read_pictures, (data,), r),
        call_ensures(parse_picture_block, (body,), parsed),
        0 <= j < blocks.filter(|b: (u8, Seq<u8>)| b.0 == 6).len(),
        body@ == blocks.filter(|b: (u8, Seq<u8>)| b.0 == 6)[j].1,
    ensures
        r is Ok ==> r->Ok_0@.len() == blocks.filter(|b: (u8, Seq<u8>)| b.0 == 6).len() && parsed
            is Ok && picture_view(r->Ok_0@[j]) == picture_view(parsed->Ok_0),
        parsed is Err ==> r matches Err(FormatError::Malformed),
{
    stream_reads(data@, blocks, audio);
    pictures_filtered(blocks, j);
    if r is Ok {
        assert(picture_views(r->Ok_0@)[j] == picture_view(r->Ok_0@[j]));
        assert(picture_views(r->Ok_0@).len() == r->Ok_0@.len());
    }
}

proof fn pictures_filtered(s: Seq<(u8, Seq<u8>)>, j: int)
    requires
        0 <= j < s.filter(|b: (u8, Seq<u8>)| b.0 == 6).len(),
    ensures
        match pictures_among(s) {
            Some(v) => v.len() == s.filter(|b: (u8, Seq<u8>)| b.0 == 6).len()
                && crate::flac::picture_of(s.filter(|b: (u8, Seq<u8>)| b.0 == 6)[j].1) == Some(
                v[j],
            ),
            None => true,
        },
        crate::flac::picture_of(s.filter(|b: (u8, Seq<u8>)| b.0 == 6)[j].1) is None
            ==> pictures_among(s) is None,
    decreases s.len(),
{
    let p = |b: (u8, Seq<u8>)| b.0 == 6;
    reveal(Seq::filter);
    if s.len() > 0 {
        let rest = s.drop_first();
        let one = seq![s[0]];
        assert(s =~= one + rest);
        Seq::filter_distributes_over_add(one, rest, p);
        assert(one.drop_last() =~= Seq::empty());
        assert(one.drop_last().filter(p) =~= Seq::empty());
        let here: Seq<(u8, Seq<u8>)> = if p(s[0]) {
            one
        } else {
            Seq::empty()
        };
        assert(one.filter(p) =~= here);
        let n = here.len() as int;
        let f = rest.filter(p);
        if j >= n {
            pictures_filtered(rest, j - n);
            assert(s.filter(p)[j] == f[j - n]);
        }
        if f.len() > 0 && j < n {
            pictures_filtered(rest, 0);
        }
        if f.len() == 0 {
            no_pictures(rest);
        }
    }
}

proof fn no_pictures(s: Seq<(u8, Seq<u8>)>)
    requires
        s.filter(|b: (u8, Seq<u8>)| b.0 == 6).len() == 0,
    ensures
        pictures_among(s) == Some(Seq::<PictureModel>::empty()),
    decreases s.len(),
{
    let p = |b: (u8, Seq<u8>)| b.0 == 6;
    if s.len() > 0 {
        reveal(Seq::filter);
        let rest = s.drop_first();
        let one = seq![s[0]];
        assert(s =~= one + rest);
        Seq::filter_distributes_over_add(one, rest, p);
        assert(one.drop_last() =~= Seq::empty());
        assert(one.drop_last().filter(p) =~= Seq::empty());
        if p(s[0]) {
            assert(one.filter(p) =~= one);
        }
        no_pictures(rest);
        assert(pictures_among(s)->0 =~= Seq::<PictureModel>::empty());
    }
}

/// The name that a structural block is stored under.
pub open spec fn structural_name(b: (u8, Seq<u8>)) -> (Seq<char>, Seq<u8>) {
    (
        if b.0 == 0 {
            "STREAMINFO"@
        } else {
            "SEEKTABLE"@
        },
        b.1,
    )
}

/// The name that a binary block is stored under.
pub open spec fn binary_name(b: (u8, Seq<u8>)) -> (Seq<char>, Seq<u8>) {
    (
        if b.0 == 2 {
            "APPLICATION"@
        } else {
            "CUESHEET"@
        },
        b.1,
    )
}

/// Splitting loses nothing and makes up nothing. The structural part is every STREAMINFO and
/// SEEKTABLE block, the binary part every APPLICATION and CUESHEET block, however many there
/// are, each in order, under the name of its type and with its whole body.
pub proof fn split_keeps_every_block(
    blocks: &[MetadataBlock],
    r: (Vec<(String, Vec<u8>)>, Vec<EmbeddedBinaryTag>),
)
    requires
        call_ensures(split_preserved, (blocks,), r),
    ensures
        ({
            let all = block_views(blocks@);
            let structural = all.filter(|b: (u8, Seq<u8>)| b.0 == 0 || b.0 == 3);
            let binary = all.filter(|b: (u8, Seq<u8>)| b.0 == 2 || b.0 == 5);
            &&& r.0@.len() == structural.len()
            &&& r.1@.len() == binary.len()
            &&& forall|i: int|
                0 <= i < structural.len() ==> ((#[trigger] r.0@[i]).0@, r.0@[i].1@)
                    == structural_name(structural[i])
            &&& forall|i: int|
                0 <= i < binary.len() ==> ((#[trigger] r.1@[i]).key@, r.1@[i].payload@)
                    == binary_name(binary[i])
        }),
{
    let all = block_views(blocks@);
    split_filters(all);
    let structural = all.filter(|b: (u8, Seq<u8>)| b.0 == 0 || b.0 == 3);
    let binary = all.filter(|b: (u8, Seq<u8>)| b.0 == 2 || b.0 == 5);
    assert(named_views(r.0@).len() == r.0@.len());
    assert(binary_views(r.1@).len() == r.1@.len());
    assert forall|i: int| 0 <= i < structural.len() implies (
        (#[trigger] r.0@[i]).0@,
        r.0@[i].1@,
    ) == structural_name(structural[i]) by {
        assert(named_views(r.0@)[i] == (r.0@[i].0@, r.0@[i].1@));
    }
    assert forall|i: int| 0 <= i < binary.len() implies (
        (#[trigger] r.1@[i]).key@,
        r.1@[i].payload@,
    ) == binary_name(binary[i]) by {
        assert(binary_views(r.1@)[i] == (r.1@[i].key@, r.1@[i].payload@));
    }
}

proof fn split_filters(s: Seq<(u8, Seq<u8>)>)
    ensures
        structural_of(s) == s.filter(|b: (u8, Seq<u8>)| b.0 == 0 || b.0 == 3).map_values(
            |b: (u8, Seq<u8>)| structural_name(b),
        ),
        binary_of(s) == s.filter(|b: (u8, Seq<u8>)| b.0 == 2 || b.0 == 5).map_values(
            |b: (u8, Seq<u8>)| binary_name(b),
        ),
    decreases s.len(),
{
    reveal(Seq::filter);
    let p = |b: (u8, Seq<u8>)| b.0 == 0 || b.0 == 3;
    let q = |b: (u8, Seq<u8>)| b.0 == 2 || b.0 == 5;
    if s.len() > 0 {
        split_filters(s.drop_last());
    }
    assert(structural_of(s) =~= s.filter(p).map_values(|b: (u8, Seq<u8>)| structural_name(b)));
    assert(binary_of(s) =~= s.filter(q).map_values(|b: (u8, Seq<u8>)| binary_name(b)));
}

/// The name that a structural block was stored under leads back to its type, and no other name
/// to any.
pub proof fn structural_names_lead_back(kind: &str, r: Option<u8>, b: (u8, Seq<u8>))
    requires
        call_ensures(structural_block_type, (kind,), r),
    ensures
        (b.0 == 0 || b.0 == 3) && kind@ == structural_name(b).0 ==> r == Some(b.0),
        r is Some ==> kind@ == "STREAMINFO"@ || kind@ == "SEEKTABLE"@,
{
    reveal_strlit("STREAMINFO");
    reveal_strlit("SEEKTABLE");
    assert("STREAMINFO"@.len() == 10 && "SEEKTABLE"@.len() == 9);
}

} // verus!
