//! A synthesized FLAC file reads back: its structural blocks, comments, binary tags and
//! pictures are what went in, and its audio is the backing file's.

use crate::flac::audio_served_once;
use crate::layout::header_bytes;
use crate::layout::header_before_audio;
use crate::layout::draft_bytes_add_up;
use crate::layout::draft_bytes;
use crate::bytes::be24;
use crate::bytes::be24_bytes;
use crate::flac::art_count;
use crate::flac::art_fits;
use crate::flac::art_framing;
use crate::flac::binary_block_type;
use crate::flac::binary_count;
use crate::flac::binary_fits;
use crate::flac::binary_written;
use crate::flac::block_body;
use crate::flac::block_end;
use crate::flac::block_header;
use crate::flac::block_is_last;
use crate::flac::block_type_at;
use crate::flac::block_whole;
use crate::flac::blocks_below;
use crate::flac::blocks_of_type;
use crate::flac::clamped_type;
use crate::flac::comments_from;
use crate::flac::flac_draft;
use crate::flac::flac_fits;
use crate::flac::flac_head;
use crate::flac::flac_segments;
use crate::flac::framing_reads_back;
use crate::flac::has_marker;
use crate::flac::is_preserved_type;
use crate::flac::metadata_end;
use crate::flac::picture_of;
use crate::flac::pictures_from;
use crate::flac::preserved_from;
use crate::flac::with_binary;
use crate::flac::with_pictures;
use crate::flac::PictureModel;
use crate::flac::BLOCK_PICTURE;
use crate::flac::BLOCK_SEEKTABLE;
use crate::flac::BLOCK_STREAMINFO;
use crate::flac::BLOCK_VORBIS_COMMENT;
use crate::flac::FLAC_MARKER;
use crate::flac::MAX_BLOCK_BODY;
use crate::input::ArtInput;
use crate::input::BinaryTagInput;
use crate::input::TagInput;
use crate::layout::empty_draft;
use crate::layout::with_bytes;
use crate::layout::with_stream;
use crate::layout::DraftModel;
use crate::layout::SegView;
use crate::serving::segment_bytes;
use crate::serving::served_bytes;
use crate::serving::served_draft;
use crate::serving::served_draft_adds_up;
use crate::serving::sources_hold;
use crate::serving::Sources;
use crate::text::utf8;
use crate::text::lossy_text_of_utf8;
use crate::vorbiscomment::body_pairs;
use crate::vorbiscomment::comment_body;
use crate::vorbiscomment::parse_undoes_build;
use crate::vorbiscomment::read_back;
use vstd::prelude::*;

verus! {

/// One block as it is written.
pub open spec fn block_bytes(b: (u8, Seq<u8>), last: bool) -> Seq<u8> {
    block_header(b.0, b.1.len() as int, last) + b.1
}

/// Blocks written out, none of them the last.
pub open spec fn open_blocks(s: Seq<(u8, Seq<u8>)>) -> Seq<u8>
    decreases s.len(),
{
    if s.len() == 0 {
        Seq::empty()
    } else {
        open_blocks(s.drop_last()) + block_bytes(s.last(), false)
    }
}

/// Blocks written out, the final one marked as the last.
pub open spec fn closed_blocks(s: Seq<(u8, Seq<u8>)>) -> Seq<u8> {
    if s.len() == 0 {
        Seq::empty()
    } else {
        open_blocks(s.drop_last()) + block_bytes(s.last(), true)
    }
}

/// Every block has a seven-bit type and a body that fits.
pub open spec fn writable(s: Seq<(u8, Seq<u8>)>) -> bool {
    forall|i: int| 0 <= i < s.len() ==> (#[trigger] s[i]).0 < 0x80 && s[i].1.len() <= MAX_BLOCK_BODY
}

/// Blocks joined are written one list after the other.
proof fn open_blocks_concat(a: Seq<(u8, Seq<u8>)>, b: Seq<(u8, Seq<u8>)>)
    ensures
        open_blocks(a + b) == open_blocks(a) + open_blocks(b),
    decreases b.len(),
{
    if b.len() == 0 {
        assert(a + b =~= a);
        assert(open_blocks(a) + Seq::<u8>::empty() =~= open_blocks(a));
    } else {
        assert((a + b).drop_last() =~= a + b.drop_last());
        open_blocks_concat(a, b.drop_last());
        assert(open_blocks(a + b) =~= open_blocks(a) + open_blocks(b));
    }
}

/// Blocks followed by closed blocks.
proof fn closed_blocks_concat(a: Seq<(u8, Seq<u8>)>, b: Seq<(u8, Seq<u8>)>)
    requires
        b.len() > 0,
    ensures
        closed_blocks(a + b) == open_blocks(a) + closed_blocks(b),
{
    assert((a + b).drop_last() =~= a + b.drop_last());
    open_blocks_concat(a, b.drop_last());
    assert(closed_blocks(a + b) =~= open_blocks(a) + closed_blocks(b));
}

/// A written block stands where its bytes stand.
proof fn block_stands(d: Seq<u8>, p: int, b: (u8, Seq<u8>), last: bool)
    requires
        0 <= p,
        p + 4 + b.1.len() <= d.len(),
        d.subrange(p, p + 4 + b.1.len()) == block_bytes(b, last),
        b.0 < 0x80,
        b.1.len() <= MAX_BLOCK_BODY,
    ensures
        block_whole(d, p),
        block_type_at(d, p) == b.0,
        block_is_last(d, p) == last,
        block_end(d, p) == p + 4 + b.1.len(),
        block_body(d, p) == b.1,
{
    let n = b.1.len() as int;
    let w = block_bytes(b, last);
    let part = d.subrange(p, p + 4 + n);
    assert(part[0] == d[p] && part[1] == d[p + 1] && part[2] == d[p + 2] && part[3] == d[p + 3]);
    assert(w[1] == be24_bytes(n)[0] && w[2] == be24_bytes(n)[1] && w[3] == be24_bytes(n)[2]);
    assert(be24(d, p + 1) == n) by {
        let x = n % 0x100;
        let y = (n / 0x100) % 0x100;
        let z = (n / 0x1_0000) % 0x100;
        assert(n == x + 0x100 * y + 0x1_0000 * z);
    }
    assert(block_body(d, p) =~= b.1) by {
        assert(part.subrange(4, 4 + n) =~= b.1);
        assert(part.subrange(4, 4 + n) =~= d.subrange(p + 4, p + 4 + n));
    }
}

/// The blocks among these that are carried over.
pub open spec fn preserved_among(s: Seq<(u8, Seq<u8>)>) -> Seq<(u8, Seq<u8>)>
    decreases s.len(),
{
    if s.len() == 0 {
        Seq::empty()
    } else {
        (if is_preserved_type(s[0].0) {
            seq![s[0]]
        } else {
            Seq::empty()
        }) + preserved_among(s.drop_first())
    }
}

/// What the first comment block among these holds.
pub open spec fn comments_among(s: Seq<(u8, Seq<u8>)>) -> Option<Seq<(Seq<char>, Seq<char>)>>
    decreases s.len(),
{
    if s.len() == 0 {
        Some(Seq::empty())
    } else if s[0].0 == BLOCK_VORBIS_COMMENT {
        body_pairs(s[0].1)
    } else {
        comments_among(s.drop_first())
    }
}

/// The pictures among these blocks.
pub open spec fn pictures_among(s: Seq<(u8, Seq<u8>)>) -> Option<Seq<PictureModel>>
    decreases s.len(),
{
    if s.len() == 0 {
        Some(Seq::empty())
    } else {
        let here = if s[0].0 == BLOCK_PICTURE {
            match picture_of(s[0].1) {
                Some(pic) => Some(seq![pic]),
                None => None,
            }
        } else {
            Some(Seq::empty())
        };
        match (here, pictures_among(s.drop_first())) {
            (Some(a), Some(b)) => Some(a + b),
            _ => None,
        }
    }
}

/// The first of closed blocks stands at their front, and the others behind it.
proof fn first_block_stands(d: Seq<u8>, p: int, s: Seq<(u8, Seq<u8>)>)
    requires
        0 <= p,
        s.len() > 0,
        writable(s),
        p + closed_blocks(s).len() <= d.len(),
        d.subrange(p, p + closed_blocks(s).len()) == closed_blocks(s),
    ensures
        block_whole(d, p),
        block_type_at(d, p) == s[0].0,
        block_is_last(d, p) == (s.len() == 1),
        block_end(d, p) == p + 4 + s[0].1.len(),
        block_body(d, p) == s[0].1,
        s.len() == 1 ==> closed_blocks(s).len() == 4 + s[0].1.len(),
        s.len() > 1 ==> ({
            let rest = s.drop_first();
            let q = block_end(d, p);
            &&& writable(rest)
            &&& q + closed_blocks(rest).len() == p + closed_blocks(s).len()
            &&& d.subrange(q, q + closed_blocks(rest).len()) == closed_blocks(rest)
        }),
{
    let all = closed_blocks(s);
    let b = s[0];
    let last = s.len() == 1;
    let rest = s.drop_first();
    let head = block_bytes(b, last);
    assert(s[0].0 < 0x80);
    let n = head.len() as int;
    assert(n == 4 + b.1.len());
    if last {
        assert(s.drop_last() =~= Seq::empty());
        assert(all =~= head);
    } else {
        assert(s =~= seq![b] + rest);
        closed_blocks_concat(seq![b], rest);
        let one = seq![b];
        assert(one.drop_last() =~= Seq::empty());
        assert(one.last() == b);
        assert(open_blocks(one.drop_last()) =~= Seq::empty());
        assert(open_blocks(one) =~= head);
        assert forall|i: int| 0 <= i < rest.len() implies (#[trigger] rest[i]).0 < 0x80
            && rest[i].1.len() <= MAX_BLOCK_BODY by {
            assert(rest[i] == s[i + 1]);
        }
    }
    let part = d.subrange(p, p + all.len());
    assert(d.subrange(p, p + n) =~= part.subrange(0, n));
    assert(all.subrange(0, n) =~= head);
    block_stands(d, p, b, last);
    if !last {
        assert(d.subrange(p + n, p + all.len()) =~= part.subrange(n, all.len() as int));
        assert(all.subrange(n, all.len() as int) =~= closed_blocks(rest));
    }
}

/// Closed blocks read back as the blocks they are, whatever stands before and behind.
pub proof fn blocks_read_back(d: Seq<u8>, p: int, s: Seq<(u8, Seq<u8>)>)
    requires
        0 <= p,
        s.len() > 0,
        writable(s),
        p + closed_blocks(s).len() <= d.len(),
        d.subrange(p, p + closed_blocks(s).len()) == closed_blocks(s),
    ensures
        metadata_end(d, p) == Ok::<int, int>(p + closed_blocks(s).len()),
        preserved_from(d, p) == preserved_among(s),
        comments_from(d, p) == comments_among(s),
        pictures_from(d, p) == pictures_among(s),
    decreases s.len(),
{
    first_block_stands(d, p, s);
    let rest = s.drop_first();
    if s.len() > 1 {
        blocks_read_back(d, block_end(d, p), rest);
    } else {
        assert(rest =~= Seq::empty());
        assert(preserved_among(rest) =~= Seq::empty());
        assert(preserved_from(d, p) =~= preserved_among(s));
    }
}

/// The blocks of type `t` among these, in order.
pub open spec fn of_type(s: Seq<(u8, Seq<u8>)>, t: int) -> Seq<(u8, Seq<u8>)>
    decreases s.len(),
{
    if s.len() == 0 {
        Seq::empty()
    } else if s.last().0 == t {
        of_type(s.drop_last(), t).push(s.last())
    } else {
        of_type(s.drop_last(), t)
    }
}

/// The blocks of types below `t` among these, by type, and in order within a type.
pub open spec fn by_type(s: Seq<(u8, Seq<u8>)>, t: int) -> Seq<(u8, Seq<u8>)>
    decreases t,
{
    if t <= 0 {
        Seq::empty()
    } else {
        by_type(s, t - 1) + of_type(s, t - 1)
    }
}

/// Blocks of one type are written as the list of them.
proof fn of_type_written(s: Seq<(u8, Seq<u8>)>, t: int)
    ensures
        blocks_of_type(s, t) == open_blocks(of_type(s, t)),
    decreases s.len(),
{
    if s.len() > 0 {
        of_type_written(s.drop_last(), t);
        let before = of_type(s.drop_last(), t);
        if s.last().0 == t {
            assert(before.push(s.last()).drop_last() =~= before);
            assert(blocks_of_type(s, t) =~= open_blocks(of_type(s, t)));
        }
    }
}

/// Blocks by type are written as the list of them.
proof fn by_type_written(s: Seq<(u8, Seq<u8>)>, t: int)
    ensures
        blocks_below(s, t) == open_blocks(by_type(s, t)),
    decreases t,
{
    if t > 0 {
        by_type_written(s, t - 1);
        of_type_written(s, t - 1);
        open_blocks_concat(by_type(s, t - 1), of_type(s, t - 1));
    }
}

/// The blocks by type are among the blocks.
proof fn by_type_members(s: Seq<(u8, Seq<u8>)>, t: int, i: int)
    requires
        0 <= i < by_type(s, t).len(),
    ensures
        s.contains(by_type(s, t)[i]),
    decreases t,
{
    if t > 0 {
        let a = by_type(s, t - 1);
        let b = of_type(s, t - 1);
        if i < a.len() {
            by_type_members(s, t - 1, i);
            assert(by_type(s, t)[i] == a[i]);
        } else {
            of_type_members(s, t - 1, i - a.len());
            assert(by_type(s, t)[i] == b[i - a.len()]);
        }
    }
}

proof fn of_type_members(s: Seq<(u8, Seq<u8>)>, t: int, i: int)
    requires
        0 <= i < of_type(s, t).len(),
    ensures
        s.contains(of_type(s, t)[i]),
    decreases s.len(),
{
    let front = s.drop_last();
    let before = of_type(front, t);
    if s.last().0 == t && i == before.len() {
        assert(s[s.len() - 1] == of_type(s, t)[i]);
    } else {
        of_type_members(front, t, i);
        let k = choose|k: int| 0 <= k < front.len() && front[k] == before[i];
        assert(s[k] == of_type(s, t)[i]);
    }
}

/// The block that a binary tag is written as.
pub open spec fn binary_block(bt: BinaryTagInput, src: Sources) -> (u8, Seq<u8>) {
    (binary_block_type(bt.key@)->0, (src.payloads)(bt.payload_id))
}

/// The blocks that binary tags are written as.
pub open spec fn binary_blocks(tags: Seq<BinaryTagInput>, src: Sources) -> Seq<(u8, Seq<u8>)>
    decreases tags.len(),
{
    if tags.len() == 0 {
        Seq::empty()
    } else if binary_written(tags.last()) {
        binary_blocks(tags.drop_last(), src).push(binary_block(tags.last(), src))
    } else {
        binary_blocks(tags.drop_last(), src)
    }
}

/// The block that a picture is written as.
pub open spec fn picture_block(art: ArtInput, src: Sources) -> (u8, Seq<u8>) {
    (BLOCK_PICTURE, art_framing(art, utf8(art.description@)) + (src.art)(art.art_id))
}

/// The blocks that pictures are written as.
pub open spec fn picture_blocks(arts: Seq<ArtInput>, src: Sources) -> Seq<(u8, Seq<u8>)>
    decreases arts.len(),
{
    if arts.len() == 0 {
        Seq::empty()
    } else if arts.last().data_len > 0 {
        picture_blocks(arts.drop_last(), src).push(picture_block(arts.last(), src))
    } else {
        picture_blocks(arts.drop_last(), src)
    }
}

/// Drafted binary tags are served as their blocks.
proof fn binary_served(d: DraftModel, tags: Seq<BinaryTagInput>, last: bool, src: Sources)
    requires
        forall|i: int|
            0 <= i < tags.len() ==> (src.payloads)((#[trigger] tags[i]).payload_id).len()
                == tags[i].len,
    ensures
        served_draft(src, with_binary(d, tags, last)) == served_draft(src, d) + if last {
            closed_blocks(binary_blocks(tags, src))
        } else {
            open_blocks(binary_blocks(tags, src))
        },
        binary_blocks(tags, src).len() == binary_count(tags),
    decreases tags.len(),
{
    if tags.len() == 0 {
        assert(served_draft(src, d) + Seq::<u8>::empty() =~= served_draft(src, d));
    } else {
        let front = tags.drop_last();
        let bt = tags.last();
        assert(tags[tags.len() - 1] == bt);
        assert forall|i: int| 0 <= i < front.len() implies (src.payloads)(
            (#[trigger] front[i]).payload_id,
        ).len() == front[i].len by {
            assert(front[i] == tags[i]);
        }
        if binary_written(bt) {
            binary_served(d, front, false, src);
            let list = binary_blocks(front, src);
            let b = binary_block(bt, src);
            let h = block_header(b.0, bt.len as int, last);
            let s = SegView::BinaryTag { payload_id: bt.payload_id, len: bt.len as int };
            let x = with_binary(d, front, false);
            served_draft_adds_up(src, x, h, s);
            served_draft_adds_up(src, with_bytes(x, h), h, s);
            assert(list.push(b).drop_last() =~= list);
            assert(served_draft(src, d) + open_blocks(list) + h + b.1 =~= served_draft(src, d) + (
            open_blocks(list) + block_bytes(b, last)));
        } else {
            binary_served(d, front, last, src);
        }
    }
}

/// Drafted pictures are served as their blocks.
#[verifier::spinoff_prover]
#[verifier::rlimit(60)]
proof fn pictures_served(d: DraftModel, arts: Seq<ArtInput>, last: bool, src: Sources)
    requires
        forall|i: int|
            0 <= i < arts.len() ==> (src.art)((#[trigger] arts[i]).art_id).len()
                == arts[i].data_len,
    ensures
        served_draft(src, with_pictures(d, arts, last)) == served_draft(src, d) + if last {
            closed_blocks(picture_blocks(arts, src))
        } else {
            open_blocks(picture_blocks(arts, src))
        },
        picture_blocks(arts, src).len() == art_count(arts),
    decreases arts.len(),
{
    if arts.len() == 0 {
        assert(served_draft(src, d) + Seq::<u8>::empty() =~= served_draft(src, d));
    } else {
        let front = arts.drop_last();
        let art = arts.last();
        assert(arts[arts.len() - 1] == art);
        assert forall|i: int| 0 <= i < front.len() implies (src.art)(
            (#[trigger] front[i]).art_id,
        ).len() == front[i].data_len by {
            assert(front[i] == arts[i]);
        }
        if art.data_len > 0 {
            pictures_served(d, front, false, src);
            let list = picture_blocks(front, src);
            let b = picture_block(art, src);
            let framing = art_framing(art, utf8(art.description@));
            let h = block_header(BLOCK_PICTURE, framing.len() + art.data_len, last) + framing;
            let s = SegView::ArtImage { art_id: art.art_id, len: art.data_len as int };
            let x = with_pictures(d, front, false);
            served_draft_adds_up(src, x, h, s);
            served_draft_adds_up(src, with_bytes(x, h), h, s);
            assert(list.push(b).drop_last() =~= list);
            assert(served_draft(src, d) + open_blocks(list) + h + (src.art)(art.art_id)
                =~= served_draft(src, d) + (open_blocks(list) + block_bytes(b, last)));
        } else {
            pictures_served(d, front, last, src);
        }
    }
}

/// The blocks of a synthesized file: the structural ones by type, the comments, the binary
/// tags, the pictures.
pub open spec fn synthesized_blocks(
    structural: Seq<(u8, Seq<u8>)>,
    tags: Seq<TagInput>,
    binary_tags: Seq<BinaryTagInput>,
    arts: Seq<ArtInput>,
    src: Sources,
) -> Seq<(u8, Seq<u8>)> {
    by_type(structural, 256).push((BLOCK_VORBIS_COMMENT, comment_body(tags))) + binary_blocks(
        binary_tags,
        src,
    ) + picture_blocks(arts, src)
}

/// A synthesized header is served as the marker and the blocks.
pub(crate) proof fn header_served(
    structural: Seq<(u8, Seq<u8>)>,
    tags: Seq<TagInput>,
    binary_tags: Seq<BinaryTagInput>,
    arts: Seq<ArtInput>,
    src: Sources,
)
    requires
        sources_hold(src, binary_tags, arts),
    ensures
        served_draft(src, flac_draft(structural, tags, binary_tags, arts)) == FLAC_MARKER@
            + closed_blocks(synthesized_blocks(structural, tags, binary_tags, arts, src)),
{
    let nb = binary_count(binary_tags);
    let na = art_count(arts);
    let alone = nb == 0 && na == 0;
    let head = flac_head(structural, tags, alone);
    let s = SegView::Inline(head);
    let d0 = with_bytes(empty_draft(), head);
    let d1 = with_binary(d0, binary_tags, na == 0);
    served_draft_adds_up(src, empty_draft(), head, s);
    binary_served(d0, binary_tags, na == 0, src);
    pictures_served(d1, arts, true, src);
    by_type_written(structural, 256);
    let a = by_type(structural, 256);
    let c = (BLOCK_VORBIS_COMMENT, comment_body(tags));
    let ac = a.push(c);
    let bs = binary_blocks(binary_tags, src);
    let ps = picture_blocks(arts, src);
    assert(ac.drop_last() =~= a);
    assert(head =~= FLAC_MARKER@ + (open_blocks(a) + block_bytes(c, alone)));
    let m = FLAC_MARKER@;
    let e = Seq::<u8>::empty();
    nothing_added(head);
    if na > 0 {
        closed_blocks_concat(ac + bs, ps);
        open_blocks_concat(ac, bs);
        joined_alike(m, open_blocks(ac), open_blocks(bs), closed_blocks(ps));
    } else {
        assert(ps =~= Seq::empty());
        nothing_added(m + open_blocks(ac) + closed_blocks(bs));
        assert(ac + bs + ps =~= ac + bs);
        if nb > 0 {
            closed_blocks_concat(ac, bs);
            joined_alike(m, open_blocks(ac), closed_blocks(bs), e);
            nothing_added(open_blocks(ac) + closed_blocks(bs));
        } else {
            assert(bs =~= Seq::empty());
            assert(ac + bs =~= ac);
            nothing_added(m + closed_blocks(ac));
        }
    }
}

/// Joining with nothing changes nothing.
proof fn nothing_added(a: Seq<u8>)
    ensures
        a + Seq::<u8>::empty() == a,
        Seq::<u8>::empty() + a == a,
{
    assert(a + Seq::<u8>::empty() =~= a);
    assert(Seq::<u8>::empty() + a =~= a);
}

/// Four sequences joined in either order.
proof fn joined_alike(a: Seq<u8>, b: Seq<u8>, c: Seq<u8>, d: Seq<u8>)
    ensures
        a + b + c + d == a + (b + c + d),
{
    assert(a + b + c + d =~= a + (b + c + d));
}

/// The pictures that come back: those that are not empty, each with its image.
pub open spec fn pictures_back(arts: Seq<ArtInput>, src: Sources) -> Seq<PictureModel>
    decreases arts.len(),
{
    if arts.len() == 0 {
        Seq::empty()
    } else if arts.last().data_len > 0 {
        let art = arts.last();
        pictures_back(arts.drop_last(), src).push(
            PictureModel {
                mime: art.mime@,
                picture_type: clamped_type(art.picture_type as int),
                description: art.description@,
                width: art.width,
                height: art.height,
                data: (src.art)(art.art_id),
            },
        )
    } else {
        pictures_back(arts.drop_last(), src)
    }
}

/// Lists joined are searched one after the other.
proof fn among_concat(a: Seq<(u8, Seq<u8>)>, b: Seq<(u8, Seq<u8>)>)
    ensures
        preserved_among(a + b) == preserved_among(a) + preserved_among(b),
        pictures_among(a + b) == match (pictures_among(a), pictures_among(b)) {
            (Some(x), Some(y)) => Some(x + y),
            _ => None,
        },
        (forall|i: int| 0 <= i < a.len() ==> (#[trigger] a[i]).0 != BLOCK_VORBIS_COMMENT)
            ==> comments_among(a + b) == comments_among(b),
    decreases a.len(),
{
    if a.len() == 0 {
        assert(a + b =~= b);
        assert(Seq::<(u8, Seq<u8>)>::empty() + preserved_among(b) =~= preserved_among(b));
        if let Some(y) = pictures_among(b) {
            assert(Seq::<PictureModel>::empty() + y =~= y);
        }
    } else {
        let rest = a.drop_first();
        assert((a + b).drop_first() =~= rest + b);
        among_concat(rest, b);
        let here = if is_preserved_type(a[0].0) {
            seq![a[0]]
        } else {
            Seq::empty()
        };
        assert(here + (preserved_among(rest) + preserved_among(b)) =~= here + preserved_among(rest)
            + preserved_among(b));
        if let (Some(x), Some(y)) = (pictures_among(rest), pictures_among(b)) {
            let pic = picture_of(a[0].1);
            if a[0].0 == BLOCK_PICTURE {
                if pic is Some {
                    assert(seq![pic->0] + (x + y) =~= seq![pic->0] + x + y);
                }
            } else {
                assert(Seq::<PictureModel>::empty() + (x + y) =~= Seq::<PictureModel>::empty() + x
                    + y);
            }
        }
        if forall|i: int| 0 <= i < a.len() ==> (#[trigger] a[i]).0 != BLOCK_VORBIS_COMMENT {
            assert(a[0].0 != BLOCK_VORBIS_COMMENT);
            assert forall|i: int| 0 <= i < rest.len() implies (#[trigger] rest[i]).0
                != BLOCK_VORBIS_COMMENT by {
                assert(rest[i] == a[i + 1]);
            }
        }
    }
}

/// Blocks without a picture hold no pictures; blocks that are all carried over are.
proof fn plain_blocks(s: Seq<(u8, Seq<u8>)>)
    requires
        forall|i: int| 0 <= i < s.len() ==> is_preserved_type((#[trigger] s[i]).0),
    ensures
        preserved_among(s) == s,
        pictures_among(s) == Some(Seq::<PictureModel>::empty()),
    decreases s.len(),
{
    if s.len() > 0 {
        let rest = s.drop_first();
        assert(is_preserved_type(s[0].0));
        assert forall|i: int| 0 <= i < rest.len() implies is_preserved_type(
            (#[trigger] rest[i]).0,
        ) by {
            assert(rest[i] == s[i + 1]);
        }
        plain_blocks(rest);
        assert(seq![s[0]] + rest =~= s);
        assert(Seq::<PictureModel>::empty() + Seq::<PictureModel>::empty() =~= Seq::<
            PictureModel,
        >::empty());
    } else {
        assert(preserved_among(s) =~= s);
    }
}

proof fn binary_blocks_kind(tags: Seq<BinaryTagInput>, src: Sources, i: int)
    requires
        0 <= i < binary_blocks(tags, src).len(),
        forall|i: int| 0 <= i < tags.len() ==> binary_fits(#[trigger] tags[i]),
        forall|i: int|
            0 <= i < tags.len() ==> (src.payloads)((#[trigger] tags[i]).payload_id).len()
                == tags[i].len,
    ensures
        is_preserved_type(binary_blocks(tags, src)[i].0),
        binary_blocks(tags, src)[i].0 < 0x80,
        binary_blocks(tags, src)[i].1.len() <= MAX_BLOCK_BODY,
    decreases tags.len(),
{
    let front = tags.drop_last();
    assert(tags[tags.len() - 1] == tags.last());
    let list = binary_blocks(front, src);
    if i < list.len() {
        assert forall|i: int| 0 <= i < front.len() implies binary_fits(#[trigger] front[i]) by {
            assert(front[i] == tags[i]);
        }
        assert forall|i: int| 0 <= i < front.len() implies (src.payloads)(
            (#[trigger] front[i]).payload_id,
        ).len() == front[i].len by {
            assert(front[i] == tags[i]);
        }
        binary_blocks_kind(front, src, i);
        assert(binary_blocks(tags, src)[i] == list[i]);
    } else {
        assert(binary_fits(tags[tags.len() - 1]));
        assert(binary_blocks(tags, src)[i] == binary_block(tags.last(), src));
    }
}

proof fn picture_blocks_back(arts: Seq<ArtInput>, src: Sources)
    requires
        forall|i: int| 0 <= i < arts.len() ==> art_fits(#[trigger] arts[i]),
        forall|i: int|
            0 <= i < arts.len() ==> (src.art)((#[trigger] arts[i]).art_id).len()
                == arts[i].data_len,
    ensures
        writable(picture_blocks(arts, src)),
        preserved_among(picture_blocks(arts, src)) == Seq::<(u8, Seq<u8>)>::empty(),
        pictures_among(picture_blocks(arts, src)) == Some(pictures_back(arts, src)),
    decreases arts.len(),
{
    if arts.len() > 0 {
        let front = arts.drop_last();
        let art = arts.last();
        assert(arts[arts.len() - 1] == art);
        assert forall|i: int| 0 <= i < front.len() implies art_fits(#[trigger] front[i]) by {
            assert(front[i] == arts[i]);
        }
        assert forall|i: int| 0 <= i < front.len() implies (src.art)(
            (#[trigger] front[i]).art_id,
        ).len() == front[i].data_len by {
            assert(front[i] == arts[i]);
        }
        picture_blocks_back(front, src);
        if art.data_len > 0 {
            let list = picture_blocks(front, src);
            let b = picture_block(art, src);
            assert(art_fits(arts[arts.len() - 1]));
            lossy_text_of_utf8(art.description@);
            framing_reads_back(
                art.picture_type,
                art.mime@,
                utf8(art.description@),
                art.width,
                art.height,
                (src.art)(art.art_id),
            );
            assert(list.push(b) =~= list + seq![b]);
            among_concat(list, seq![b]);
            let none = Seq::<(u8, Seq<u8>)>::empty();
            assert(seq![b].drop_first() =~= none);
            assert(preserved_among(none) =~= none);
            assert(preserved_among(seq![b]) =~= none);
            assert(none + none =~= none);
            let pic = picture_of(b.1)->0;
            assert(seq![pic] + Seq::<PictureModel>::empty() =~= seq![pic]);
            assert(pictures_among(none) == Some(Seq::<PictureModel>::empty()));
            assert(pictures_among(seq![b]) == Some(seq![pic]));
            assert(pictures_back(front, src) + seq![pic] =~= pictures_back(arts, src));
        }
    } else {
        assert(preserved_among(picture_blocks(arts, src)) =~= Seq::<(u8, Seq<u8>)>::empty());
    }
}

/// Structural blocks: STREAMINFO and SEEKTABLE.
pub open spec fn only_structural(s: Seq<(u8, Seq<u8>)>) -> bool {
    forall|i: int|
        0 <= i < s.len() ==> (#[trigger] s[i]).0 == BLOCK_STREAMINFO || s[i].0 == BLOCK_SEEKTABLE
}

/// Binary tags add as many bytes as they are served with.
proof fn binary_bytes(d: DraftModel, tags: Seq<BinaryTagInput>, last: bool, src: Sources)
    requires
        served_draft(src, d).len() == draft_bytes(d),
        forall|i: int|
            0 <= i < tags.len() ==> (src.payloads)((#[trigger] tags[i]).payload_id).len()
                == tags[i].len,
    ensures
        served_draft(src, with_binary(d, tags, last)).len() == draft_bytes(
            with_binary(d, tags, last),
        ),
    decreases tags.len(),
{
    if tags.len() > 0 {
        let f = tags.drop_last();
        let bt = tags.last();
        assert(bt == tags[tags.len() - 1]);
        assert forall|i: int| 0 <= i < f.len() implies (src.payloads)(
            (#[trigger] f[i]).payload_id,
        ).len() == f[i].len by {
            assert(f[i] == tags[i]);
        }
        if binary_written(bt) {
            binary_bytes(d, f, false, src);
            let x = with_binary(d, f, false);
            let h = block_header(binary_block_type(bt.key@)->0, bt.len as int, last);
            let s = SegView::BinaryTag { payload_id: bt.payload_id, len: bt.len as int };
            served_draft_adds_up(src, x, h, s);
            served_draft_adds_up(src, with_bytes(x, h), h, s);
            draft_bytes_add_up(x, h, s);
            draft_bytes_add_up(with_bytes(x, h), h, s);
        } else {
            binary_bytes(d, f, last, src);
        }
    }
}

/// Pictures add as many bytes as they are served with.
proof fn picture_bytes(d: DraftModel, arts: Seq<ArtInput>, last: bool, src: Sources)
    requires
        served_draft(src, d).len() == draft_bytes(d),
        forall|i: int|
            0 <= i < arts.len() ==> (src.art)((#[trigger] arts[i]).art_id).len()
                == arts[i].data_len,
    ensures
        served_draft(src, with_pictures(d, arts, last)).len() == draft_bytes(
            with_pictures(d, arts, last),
        ),
    decreases arts.len(),
{
    if arts.len() > 0 {
        let f = arts.drop_last();
        let art = arts.last();
        assert(art == arts[arts.len() - 1]);
        assert forall|i: int| 0 <= i < f.len() implies (src.art)((#[trigger] f[i]).art_id).len()
            == f[i].data_len by {
            assert(f[i] == arts[i]);
        }
        if art.data_len > 0 {
            picture_bytes(d, f, false, src);
            let framing = art_framing(art, utf8(art.description@));
            let h = block_header(BLOCK_PICTURE, framing.len() + art.data_len, last) + framing;
            stream_bytes(with_pictures(d, f, false), h, art, src);
        } else {
            picture_bytes(d, f, last, src);
        }
    }
}

/// One streamed image.
proof fn stream_bytes(x: DraftModel, h: Seq<u8>, art: ArtInput, src: Sources)
    requires
        served_draft(src, x).len() == draft_bytes(x),
        (src.art)(art.art_id).len() == art.data_len,
    ensures
        ({
            let s = SegView::ArtImage { art_id: art.art_id, len: art.data_len as int };
            let y = with_stream(with_bytes(x, h), s);
            served_draft(src, y).len() == draft_bytes(y)
        }),
{
    let s = SegView::ArtImage { art_id: art.art_id, len: art.data_len as int };
    served_draft_adds_up(src, x, h, s);
    served_draft_adds_up(src, with_bytes(x, h), h, s);
    draft_bytes_add_up(x, h, s);
    draft_bytes_add_up(with_bytes(x, h), h, s);
}

/// The header region is as long as what it is served as.
proof fn header_is_served(
    structural: Seq<(u8, Seq<u8>)>,
    audio_offset: int,
    audio_length: int,
    tags: Seq<TagInput>,
    binary_tags: Seq<BinaryTagInput>,
    arts: Seq<ArtInput>,
    src: Sources,
)
    requires
        sources_hold(src, binary_tags, arts),
    ensures
        served_draft(src, flac_draft(structural, tags, binary_tags, arts)).len() == header_bytes(
            flac_segments(structural, audio_offset, audio_length, tags, binary_tags, arts),
        ),
{
    let nb = binary_count(binary_tags);
    let na = art_count(arts);
    let h = flac_head(structural, tags, nb == 0 && na == 0);
    let s = SegView::BackingAudio { offset: audio_offset, len: audio_length };
    let d0 = with_bytes(empty_draft(), h);
    served_draft_adds_up(src, empty_draft(), h, s);
    draft_bytes_add_up(empty_draft(), h, s);
    binary_bytes(d0, binary_tags, na == 0, src);
    let d1 = with_binary(d0, binary_tags, na == 0);
    picture_bytes(d1, arts, true, src);
    let d = flac_draft(structural, tags, binary_tags, arts);
    draft_bytes_add_up(d, h, s);
    draft_bytes_add_up(with_stream(d, s), h, s);
    audio_served_once(structural, audio_offset, audio_length, tags, binary_tags, arts);
    header_before_audio(
        flac_segments(structural, audio_offset, audio_length, tags, binary_tags, arts),
        audio_offset,
        audio_length,
    );
}

/// A synthesized FLAC file reads back. Its metadata ends where the audio begins, so that the
/// last block alone is flagged as last; the blocks
/// carried over are the structural ones, by type, and the binary tags; its comments are the
/// tags with a legal key; its pictures are the non-empty ones, each with its image; and
/// behind the metadata comes the backing file's audio.
pub proof fn synthesized_file_reads_back(
    structural: Seq<(u8, Seq<u8>)>,
    audio_offset: int,
    audio_length: int,
    tags: Seq<TagInput>,
    binary_tags: Seq<BinaryTagInput>,
    arts: Seq<ArtInput>,
    src: Sources,
)
    requires
        flac_fits(structural, tags, binary_tags, arts),
        only_structural(structural),
        sources_hold(src, binary_tags, arts),
        0 <= audio_offset,
        0 <= audio_length,
        audio_offset + audio_length <= src.backing.len(),
    ensures
        ({
            let file = served_bytes(
                src,
                flac_segments(structural, audio_offset, audio_length, tags, binary_tags, arts),
            );
            let header = served_draft(src, flac_draft(structural, tags, binary_tags, arts));
            &&& has_marker(file)
            &&& metadata_end(file, 4) == Ok::<int, int>(header.len() as int)
            &&& header.len() == header_bytes(
                flac_segments(structural, audio_offset, audio_length, tags, binary_tags, arts),
            )
            &&& preserved_from(file, 4) == by_type(structural, 256) + binary_blocks(
                binary_tags,
                src,
            )
            &&& comments_from(file, 4) == Some(read_back(tags))
            &&& pictures_from(file, 4) == Some(pictures_back(arts, src))
            &&& file.skip(header.len() as int) == src.backing.subrange(
                audio_offset,
                audio_offset + audio_length,
            )
        }),
{
    header_is_served(structural, audio_offset, audio_length, tags, binary_tags, arts, src);
    let d = flac_draft(structural, tags, binary_tags, arts);
    let s = SegView::BackingAudio { offset: audio_offset, len: audio_length };
    let e = Seq::<u8>::empty();
    served_draft_adds_up(src, d, e, s);
    served_draft_adds_up(src, with_stream(d, s), e, s);
    header_served(structural, tags, binary_tags, arts, src);
    let a = by_type(structural, 256);
    let c = (BLOCK_VORBIS_COMMENT, comment_body(tags));
    let bs = binary_blocks(binary_tags, src);
    let ps = picture_blocks(arts, src);
    let list = synthesized_blocks(structural, tags, binary_tags, arts, src);
    let header = served_draft(src, d);
    let audio = segment_bytes(src, s);
    let file = header + audio;
    let n = closed_blocks(list).len() as int;
    assert(file.subrange(4, 4 + n) =~= closed_blocks(list));
    assert(file.skip(header.len() as int) =~= audio);
    assert(FLAC_MARKER@ =~= file.subrange(0, 4));
    assert(file[0] == FLAC_MARKER@[0] && file[1] == FLAC_MARKER@[1] && file[2] == FLAC_MARKER@[2]
        && file[3] == FLAC_MARKER@[3]);
    assert forall|i: int| 0 <= i < a.len() implies is_preserved_type((#[trigger] a[i]).0)
        && a[i].0 < 0x80 && a[i].1.len() <= MAX_BLOCK_BODY by {
        by_type_members(structural, 256, i);
        let k = choose|k: int| 0 <= k < structural.len() && structural[k] == a[i];
        assert(structural[k].1.len() <= MAX_BLOCK_BODY);
    }
    assert forall|i: int| 0 <= i < bs.len() implies is_preserved_type((#[trigger] bs[i]).0)
        && bs[i].0 < 0x80 && bs[i].1.len() <= MAX_BLOCK_BODY by {
        binary_blocks_kind(binary_tags, src, i);
    }
    picture_blocks_back(arts, src);
    assert(writable(list)) by {
        assert forall|i: int| 0 <= i < list.len() implies (#[trigger] list[i]).0 < 0x80
            && list[i].1.len() <= MAX_BLOCK_BODY by {
            if i < a.len() {
                assert(list[i] == a[i]);
            } else if i == a.len() {
                assert(list[i] == c);
            } else if i < a.len() + 1 + bs.len() {
                assert(list[i] == bs[i - a.len() - 1]);
            } else {
                assert(list[i] == ps[i - a.len() - 1 - bs.len()]);
            }
        }
    }
    blocks_read_back(file, 4, list);
    plain_blocks(a);
    plain_blocks(bs);
    let cs = seq![c];
    let rest = cs + bs + ps;
    assert(list =~= a + rest);
    assert(rest =~= cs + (bs + ps));
    among_concat(a, rest);
    among_concat(cs, bs + ps);
    among_concat(bs, ps);
    let none = Seq::<(u8, Seq<u8>)>::empty();
    assert(cs.drop_first() =~= none);
    assert(preserved_among(none) =~= none);
    assert(preserved_among(cs) =~= none);
    assert(pictures_among(none) == Some(Seq::<PictureModel>::empty()));
    let nopics = Seq::<PictureModel>::empty();
    assert(nopics + nopics =~= nopics);
    assert(pictures_among(cs) == Some(nopics));
    assert(nopics + (nopics + (nopics + pictures_back(arts, src))) =~= pictures_back(arts, src));
    assert(a + (none + (bs + none)) =~= a + bs);
    assert(comments_among(rest) == body_pairs(comment_body(tags)));
    parse_undoes_build(tags, e);
    assert(comment_body(tags) + e =~= comment_body(tags));
}

} // verus!
