//! The blocks of a synthesized FLAC file, and the pictures in blocks.

use crate::error::FormatError;
use crate::error::Result;
use crate::flac::art_fits;
use crate::flac::art_framing;
use crate::flac::binary_fits;
use crate::flac::block_views;
use crate::flac::flac_draft;
use crate::flac::flac_fits;
use crate::flac::parse_picture_block;
use crate::flac::picture_body_reads_back;
use crate::flac::picture_view;
use crate::flac::synthesize_layout;
use crate::flac::MetadataBlock;
use crate::flac::PictureModel;
use crate::flac_laws::binary_blocks;
use crate::flac_laws::by_type;
use crate::flac_laws::header_served;
use crate::flac_laws::of_type;
use crate::flac_laws::picture_blocks;
use crate::flac_laws::synthesized_blocks;
use crate::flac_scan_laws::block_as_written;
use crate::flac_scan_laws::blocks_as_written;
use crate::flac_scan_laws::stream_front;
use crate::flac_scan_laws::streamable;
use crate::input::ArtInput;
use crate::input::BinaryTagInput;
use crate::input::EmbeddedPicture;
use crate::input::TagInput;
use crate::layout::RegionLayout;
use crate::layout::SegView;
use crate::mp4::box_laws::four_big_endian;
use crate::mp4::value_laws::big_endian;
use crate::serving::served_bytes;
use crate::serving::served_draft_adds_up;
use crate::serving::sources_hold;
use crate::serving::Sources;
use crate::text::utf8;
use crate::vorbis_laws::body_of;
use crate::vorbis_laws::body_written;
use crate::vorbis_laws::countable;
use crate::vorbis_laws::tag_comments;
use vstd::prelude::*;
use vstd::string::*;

verus! {

/// The blocks of one type, in order.
pub open spec fn typed_blocks(s: Seq<(u8, Seq<u8>)>, t: u8) -> Seq<(u8, Seq<u8>)> {
    s.filter(|b: (u8, Seq<u8>)| b.0 == t)
}

proof fn typed_is_of_type(s: Seq<(u8, Seq<u8>)>, t: u8)
    ensures
        of_type(s, t as int) == typed_blocks(s, t),
    decreases s.len(),
{
    reveal(Seq::filter);
    if s.len() > 0 {
        typed_is_of_type(s.drop_last(), t);
    }
    assert(of_type(s, t as int) =~= typed_blocks(s, t));
}

proof fn typed_of_typed(s: Seq<(u8, Seq<u8>)>, a: u8, t: u8)
    ensures
        typed_blocks(typed_blocks(s, a), t) == if a == t {
            typed_blocks(s, t)
        } else {
            Seq::empty()
        },
        forall|i: int| 0 <= i < typed_blocks(s, a).len() ==> (#[trigger] typed_blocks(s, a)[i]).0
            == a,
    decreases s.len(),
{
    reveal(Seq::filter);
    if s.len() > 0 {
        let f = s.drop_last();
        typed_of_typed(f, a, t);
        let x = typed_blocks(f, a);
        if s.last().0 == a {
            assert(typed_blocks(s, a) =~= x.push(s.last()));
            assert(x.push(s.last()).drop_last() =~= x);
        } else {
            assert(typed_blocks(s, a) =~= x);
        }
    }
    assert(typed_blocks(typed_blocks(s, a), t) =~= if a == t {
        typed_blocks(s, t)
    } else {
        Seq::empty()
    });
}

/// Blocks by type are the same blocks: of each type the same, in the same order, and lower
/// types first.
proof fn sorted_blocks(s: Seq<(u8, Seq<u8>)>, n: int, t: u8)
    requires
        0 <= n <= 256,
    ensures
        typed_blocks(by_type(s, n), t) == if t < n {
            typed_blocks(s, t)
        } else {
            Seq::empty()
        },
        forall|i: int| 0 <= i < by_type(s, n).len() ==> (#[trigger] by_type(s, n)[i]).0 < n,
        forall|i: int, j: int|
            0 <= i < j < by_type(s, n).len() ==> (#[trigger] by_type(s, n)[i]).0 <= (
            #[trigger] by_type(s, n)[j]).0,
    decreases n,
{
    if n > 0 {
        let a = (n - 1) as u8;
        sorted_blocks(s, n - 1, t);
        typed_is_of_type(s, a);
        typed_of_typed(s, a, t);
        Seq::filter_distributes_over_add(
            by_type(s, n - 1),
            typed_blocks(s, a),
            |b: (u8, Seq<u8>)| b.0 == t,
        );
        let x = by_type(s, n - 1);
        let y = typed_blocks(s, a);
        let z = by_type(s, n);
        assert(z == x + y);
        assert(typed_blocks(z, t) =~= if t < n {
            typed_blocks(s, t)
        } else {
            Seq::empty()
        });
        assert forall|i: int| 0 <= i < z.len() implies (#[trigger] z[i]).0 < n by {
            if i < x.len() {
                assert(x[i].0 < n - 1);
            } else {
                assert(y[i - x.len()].0 == a);
            }
        }
        assert forall|i: int, j: int| 0 <= i < j < z.len() implies (#[trigger] z[i]).0 <= (
        #[trigger] z[j]).0 by {
            if j >= x.len() {
                assert(y[j - x.len()].0 == a);
                if i < x.len() {
                    assert(x[i].0 < n - 1);
                } else {
                    assert(y[i - x.len()].0 == a);
                }
            } else {
                assert(x[i].0 <= x[j].0);
            }
        }
    } else {
        reveal(Seq::filter);
        assert(typed_blocks(by_type(s, n), t) =~= Seq::empty());
    }
}

/// The binary tag has a block: an application or a cue sheet that is not empty.
pub open spec fn has_block(bt: BinaryTagInput) -> bool {
    (bt.key@ == "APPLICATION"@ || bt.key@ == "CUESHEET"@) && bt.len > 0
}

/// Its block: type two or type five, and the bytes that are streamed.
pub open spec fn tag_block(bt: BinaryTagInput, src: Sources) -> (u8, Seq<u8>) {
    (
        if bt.key@ == "APPLICATION"@ {
            2
        } else {
            5
        },
        (src.payloads)(bt.payload_id),
    )
}

/// The body of a picture block.
pub open spec fn picture_bytes(art: ArtInput, image: Seq<u8>) -> Seq<u8> {
    big_endian(art.picture_type as int, 4) + big_endian(utf8(art.mime@).len() as int, 4) + utf8(
        art.mime@,
    ) + big_endian(utf8(art.description@).len() as int, 4) + utf8(art.description@) + big_endian(
        art.width as int,
        4,
    ) + big_endian(art.height as int, 4) + big_endian(0, 4) + big_endian(0, 4) + big_endian(
        art.data_len as int,
        4,
    ) + image
}

/// The picture is not empty.
pub open spec fn has_image(art: ArtInput) -> bool {
    art.data_len > 0
}

proof fn framing_written(art: ArtInput, image: Seq<u8>)
    requires
        utf8(art.mime@).len() <= u32::MAX,
        utf8(art.description@).len() <= u32::MAX,
        art.data_len <= u32::MAX,
    ensures
        art_framing(art, utf8(art.description@)) + image == picture_bytes(art, image),
{
    four_big_endian(art.picture_type as int);
    four_big_endian(utf8(art.mime@).len() as int);
    four_big_endian(utf8(art.description@).len() as int);
    four_big_endian(art.width as int);
    four_big_endian(art.height as int);
    four_big_endian(0);
    four_big_endian(art.data_len as int);
    assert(art_framing(art, utf8(art.description@)) + image =~= picture_bytes(art, image));
}

proof fn binaries_filtered(tags: Seq<BinaryTagInput>, src: Sources)
    ensures
        binary_blocks(tags, src) == tags.filter(|bt: BinaryTagInput| has_block(bt)).map_values(
            |bt: BinaryTagInput| tag_block(bt, src),
        ),
    decreases tags.len(),
{
    reveal(Seq::filter);
    reveal_strlit("APPLICATION");
    reveal_strlit("CUESHEET");
    assert("APPLICATION"@.len() == 11);
    assert("CUESHEET"@.len() == 8);
    if tags.len() > 0 {
        binaries_filtered(tags.drop_last(), src);
    }
    assert(binary_blocks(tags, src) =~= tags.filter(
        |bt: BinaryTagInput| has_block(bt),
    ).map_values(|bt: BinaryTagInput| tag_block(bt, src)));
}

/// The block of a picture.
pub open spec fn art_block(art: ArtInput, src: Sources) -> (u8, Seq<u8>) {
    (6, picture_bytes(art, (src.art)(art.art_id)))
}

proof fn pictures_filtered(arts: Seq<ArtInput>, src: Sources)
    requires
        forall|i: int| 0 <= i < arts.len() ==> art_fits(#[trigger] arts[i]),
    ensures
        picture_blocks(arts, src) == arts.filter(|a: ArtInput| has_image(a)).map_values(
            |a: ArtInput| art_block(a, src),
        ),
    decreases arts.len(),
{
    reveal(Seq::filter);
    if arts.len() > 0 {
        let f = arts.drop_last();
        assert forall|i: int| 0 <= i < f.len() implies art_fits(#[trigger] f[i]) by {
            assert(f[i] == arts[i]);
        }
        pictures_filtered(f, src);
        assert(art_fits(arts[arts.len() - 1]));
        if arts.last().data_len > 0 {
            framing_written(arts.last(), (src.art)(arts.last().art_id));
        }
    }
    assert(picture_blocks(arts, src) =~= arts.filter(|a: ArtInput| has_image(a)).map_values(
        |a: ArtInput| art_block(a, src),
    ));
}

/// All the blocks of a synthesized file behind the structural ones: the comments, the binary
/// tags that have a block, the pictures that are not empty.
pub open spec fn blocks_behind(
    tags: Seq<TagInput>,
    binary_tags: Seq<BinaryTagInput>,
    arts: Seq<ArtInput>,
    src: Sources,
) -> Seq<(u8, Seq<u8>)> {
    seq![(4u8, body_of(utf8("musefs"@), tag_comments(tags)))] + binary_tags.filter(
        |bt: BinaryTagInput| has_block(bt),
    ).map_values(|bt: BinaryTagInput| tag_block(bt, src)) + arts.filter(
        |a: ArtInput| has_image(a),
    ).map_values(|a: ArtInput| art_block(a, src))
}

/// A synthesized file is served as a stream of blocks and the audio: the structural blocks by
/// type, otherwise in order, and then the others. There is a layout only where every block fits.
pub proof fn synthesized_file_is_its_blocks(
    structural: &[MetadataBlock],
    audio_offset: u64,
    audio_length: u64,
    tags: &[TagInput],
    binary_tags: &[BinaryTagInput],
    arts: &[ArtInput],
    src: Sources,
    t: u8,
    r: Result<RegionLayout>,
)
    requires
        call_ensures(
            synthesize_layout,
            (structural, audio_offset, audio_length, tags, binary_tags, arts),
            r,
        ),
        sources_hold(src, binary_tags@, arts@),
        forall|i: int| 0 <= i < structural@.len() ==> (#[trigger] structural@[i]).block_type < 128,
    ensures
        match r {
            Ok(l) => {
                let given = block_views(structural@);
                let sorted = by_type(given, 256);
                let all = sorted + blocks_behind(tags@, binary_tags@, arts@, src);
                &&& served_bytes(src, l.views()) == stream_front(all) + src.backing.subrange(
                    audio_offset as int,
                    audio_offset + audio_length,
                )
                &&& streamable(all)
                &&& typed_blocks(sorted, t) == typed_blocks(given, t)
                &&& forall|i: int, j: int|
                    0 <= i < j < sorted.len() ==> (#[trigger] sorted[i]).0 <= (
                    #[trigger] sorted[j]).0
            },
            Err(_) => true,
        },
{
    let given = block_views(structural@);
    sorted_blocks(given, 256, t);
    if let Ok(l) = r {
        let s = SegView::BackingAudio { offset: audio_offset as int, len: audio_length as int };
        let d = flac_draft(given, tags@, binary_tags@, arts@);
        let e = Seq::<u8>::empty();
        served_draft_adds_up(src, d, e, s);
        served_draft_adds_up(src, crate::layout::with_stream(d, s), e, s);
        header_served(given, tags@, binary_tags@, arts@, src);
        binaries_filtered(binary_tags@, src);
        pictures_filtered(arts@, src);
        body_written(tags@);
        let all = by_type(given, 256) + blocks_behind(tags@, binary_tags@, arts@, src);
        assert(all =~= synthesized_blocks(given, tags@, binary_tags@, arts@, src));
        assert(streamable(all)) by {
            assert forall|i: int| 0 <= i < all.len() implies (#[trigger] all[i]).0 < 128
                && all[i].1.len() < 0x100_0000 by {
                all_fit(given, tags@, binary_tags@, arts@, src, i);
            }
        }
        blocks_as_written(all.drop_last());
        block_as_written(all.last(), true);
        assert(crate::flac::FLAC_MARKER@ =~= seq![0x66u8, 0x4cu8, 0x61u8, 0x43u8]);
        assert(served_bytes(src, l.views()) =~= stream_front(all) + src.backing.subrange(
            audio_offset as int,
            audio_offset + audio_length,
        ));
    }
}

/// Every block of a file that fits, fits.
proof fn all_fit(
    structural: Seq<(u8, Seq<u8>)>,
    tags: Seq<TagInput>,
    binary_tags: Seq<BinaryTagInput>,
    arts: Seq<ArtInput>,
    src: Sources,
    i: int,
)
    requires
        flac_fits(structural, tags, binary_tags, arts),
        sources_hold(src, binary_tags, arts),
        forall|k: int| 0 <= k < structural.len() ==> (#[trigger] structural[k]).0 < 128,
        0 <= i < (by_type(structural, 256) + blocks_behind(tags, binary_tags, arts, src)).len(),
    ensures
        (by_type(structural, 256) + blocks_behind(tags, binary_tags, arts, src))[i].0 < 128,
        (by_type(structural, 256) + blocks_behind(tags, binary_tags, arts, src))[i].1.len()
            < 0x100_0000,
{
    let sorted = by_type(structural, 256);
    let kept = binary_tags.filter(|bt: BinaryTagInput| has_block(bt));
    let drawn = arts.filter(|a: ArtInput| has_image(a));
    body_written(tags);
    if i < sorted.len() {
        let b = sorted[i];
        sorted_blocks(structural, 256, b.0);
        let same = typed_blocks(sorted, b.0);
        sorted.lemma_filter_contains(|x: (u8, Seq<u8>)| x.0 == b.0, i);
        assert(same.contains(b));
        structural.lemma_filter_contains_rev(|x: (u8, Seq<u8>)| x.0 == b.0, b);
        let k = structural.index_of(b);
        assert(structural[k] == b);
    } else if i == sorted.len() {
    } else if i < sorted.len() + 1 + kept.len() {
        let j = i - sorted.len() - 1;
        binary_tags.lemma_filter_pred(|bt: BinaryTagInput| has_block(bt), j);
        assert(kept.contains(kept[j]));
        binary_tags.lemma_filter_contains_rev(|bt: BinaryTagInput| has_block(bt), kept[j]);
        let k = binary_tags.index_of(kept[j]);
        assert(binary_tags[k] == kept[j]);
        assert(binary_fits(binary_tags[k]));
        assert((src.payloads)(binary_tags[k].payload_id).len() == binary_tags[k].len);
    } else {
        let j = i - sorted.len() - 1 - kept.len();
        arts.lemma_filter_pred(|a: ArtInput| has_image(a), j);
        assert(drawn.contains(drawn[j]));
        arts.lemma_filter_contains_rev(|a: ArtInput| has_image(a), drawn[j]);
        let k = arts.index_of(drawn[j]);
        assert(arts[k] == drawn[j]);
        assert(art_fits(arts[k]));
        assert((src.art)(arts[k].art_id).len() == arts[k].data_len);
        framing_written(arts[k], (src.art)(arts[k].art_id));
    }
}

/// What does not fit is too large: a structural block, the comments, a binary tag or a picture
/// over 24 bits, and nothing else is.
pub proof fn large_blocks_are_refused(
    structural: &[MetadataBlock],
    audio_offset: u64,
    audio_length: u64,
    tags: &[TagInput],
    binary_tags: &[BinaryTagInput],
    arts: &[ArtInput],
    r: Result<RegionLayout>,
)
    requires
        call_ensures(
            synthesize_layout,
            (structural, audio_offset, audio_length, tags, binary_tags, arts),
            r,
        ),
    ensures
        r == Err::<RegionLayout, FormatError>(FormatError::TooLarge) <==> {
            ||| exists|i: int|
                0 <= i < structural@.len() && (#[trigger] structural@[i]).body@.len() > 0xff_ffff
            ||| !countable(Seq::empty(), tag_comments(tags@))
            ||| body_of(utf8("musefs"@), tag_comments(tags@)).len() > 0xff_ffff
            ||| exists|i: int|
                0 <= i < binary_tags@.len() && has_block(#[trigger] binary_tags@[i])
                    && binary_tags@[i].len > 0xff_ffff
            ||| exists|i: int|
                0 <= i < arts@.len() && has_image(#[trigger] arts@[i]) && 32 + utf8(
                    arts@[i].mime@,
                ).len() + utf8(arts@[i].description@).len() + arts@[i].data_len > 0xff_ffff
        },
{
    let given = block_views(structural@);
    body_written(tags@);
    assert forall|i: int| 0 <= i < arts@.len() implies art_fits(#[trigger] arts@[i]) == !(has_image(
        arts@[i],
    ) && 32 + utf8(arts@[i].mime@).len() + utf8(arts@[i].description@).len() + arts@[i].data_len
        > 0xff_ffff) by {
        let a = arts@[i];
        crate::bytes::be32_round_trip(0);
        assert(art_framing(a, utf8(a.description@)).len() == 32 + utf8(a.mime@).len() + utf8(
            a.description@,
        ).len());
    }
    assert forall|i: int| 0 <= i < binary_tags@.len() implies binary_fits(#[trigger] binary_tags@[i])
        == !(has_block(binary_tags@[i]) && binary_tags@[i].len > 0xff_ffff) by {}
    assert forall|i: int| 0 <= i < structural@.len() implies (#[trigger] given[i]).1
        == structural@[i].body@ by {}
    let a = exists|i: int|
        0 <= i < structural@.len() && (#[trigger] structural@[i]).body@.len() > 0xff_ffff;
    if a {
        let i = choose|i: int|
            0 <= i < structural@.len() && (#[trigger] structural@[i]).body@.len() > 0xff_ffff;
        assert(given[i].1.len() > 0xff_ffff);
    } else {
        assert forall|i: int| 0 <= i < given.len() implies (#[trigger] given[i]).1.len()
            <= 0xff_ffff by {
            assert(!(structural@[i].body@.len() > 0xff_ffff));
        }
    }
    let b = exists|i: int|
        0 <= i < binary_tags@.len() && has_block(#[trigger] binary_tags@[i]) && binary_tags@[i].len
            > 0xff_ffff;
    if !b {
        assert forall|i: int| 0 <= i < binary_tags@.len() implies binary_fits(
            #[trigger] binary_tags@[i],
        ) by {}
    } else {
        let i = choose|i: int|
            0 <= i < binary_tags@.len() && has_block(#[trigger] binary_tags@[i])
                && binary_tags@[i].len > 0xff_ffff;
        assert(!binary_fits(binary_tags@[i]));
    }
    let c = exists|i: int|
        0 <= i < arts@.len() && has_image(#[trigger] arts@[i]) && 32 + utf8(arts@[i].mime@).len()
            + utf8(arts@[i].description@).len() + arts@[i].data_len > 0xff_ffff;
    if !c {
        assert forall|i: int| 0 <= i < arts@.len() implies art_fits(#[trigger] arts@[i]) by {}
    } else {
        let i = choose|i: int|
            0 <= i < arts@.len() && has_image(#[trigger] arts@[i]) && 32 + utf8(
                arts@[i].mime@,
            ).len() + utf8(arts@[i].description@).len() + arts@[i].data_len > 0xff_ffff;
        assert(!art_fits(arts@[i]));
    }
}

/// A picture block is read field by field, whatever follows the image; a type over 20 counts as
/// "Other". One that is cut is malformed.
pub proof fn picture_blocks_are_parsed(
    body: &[u8],
    picture_type: u32,
    mime: Seq<char>,
    description: Seq<char>,
    width: u32,
    height: u32,
    depth: u32,
    colors: u32,
    image: Seq<u8>,
    after: Seq<u8>,
    k: int,
    r: Result<EmbeddedPicture>,
)
    requires
        utf8(mime).len() <= u32::MAX,
        utf8(description).len() <= u32::MAX,
        image.len() <= u32::MAX,
        call_ensures(parse_picture_block, (body,), r),
    ensures
        ({
            let whole = big_endian(picture_type as int, 4) + big_endian(
                utf8(mime).len() as int,
                4,
            ) + utf8(mime) + big_endian(utf8(description).len() as int, 4) + utf8(description)
                + big_endian(width as int, 4) + big_endian(height as int, 4) + big_endian(
                depth as int,
                4,
            ) + big_endian(colors as int, 4) + big_endian(image.len() as int, 4) + image;
            &&& body@ == whole + after ==> r is Ok && picture_view(r->Ok_0) == (PictureModel {
                mime,
                picture_type: if picture_type <= 20 {
                    picture_type as int
                } else {
                    0
                },
                description,
                width,
                height,
                data: image,
            })
            &&& 0 <= k < whole.len() && body@ == whole.take(k) ==> r == Err::<
                EmbeddedPicture,
                FormatError,
            >(FormatError::Malformed)
        }),
{
    four_big_endian(picture_type as int);
    four_big_endian(utf8(mime).len() as int);
    four_big_endian(utf8(description).len() as int);
    four_big_endian(width as int);
    four_big_endian(height as int);
    four_big_endian(depth as int);
    four_big_endian(colors as int);
    four_big_endian(image.len() as int);
    picture_body_reads_back(
        picture_type,
        mime,
        description,
        width,
        height,
        depth,
        colors,
        image,
        after,
    );
}

} // verus!
