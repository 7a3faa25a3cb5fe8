//! The frames of a synthesized MP3 file.

use crate::input::ArtInput;
use crate::input::BinaryTagInput;
use crate::input::TagInput;
use crate::layout::RegionLayout;
use crate::error::FormatError;
use crate::error::Result;
use crate::mp3::frame_laws::frame_written;
use crate::mp3::frames::apic_head;
use crate::mp3::frames::synthesize_layout;
use crate::mp3::frames::tag_header;
use crate::mp3::laws::apic_list;
use crate::mp3::laws::binary_list;
use crate::mp3::laws::file_served;
use crate::mp3::laws::groups_list;
use crate::mp3::laws::list_bytes;
use crate::mp3::laws::promoted_list;
use crate::mp3::laws::tag_list;
use crate::mp3::scan_laws::any_frame;
use crate::mp3::scan_laws::any_header;
use crate::mp3::scan_laws::frames_in_a_row;
use crate::groups::groups_of;
use crate::serving::served_bytes;
use crate::serving::sources_hold;
use crate::serving::Sources;
use crate::slot_laws::code;
use crate::text::utf8;
use vstd::prelude::*;
use vstd::string::*;

verus! {

/// The binary tag has a frame: a key of four bytes, and something to write.
pub open spec fn has_frame(bt: BinaryTagInput) -> bool {
    utf8(bt.key@).len() == 4 && bt.len > 0
}

/// Its frame: the key for an id, and the bytes that are streamed.
pub open spec fn tag_frame(bt: BinaryTagInput, src: Sources) -> (Seq<u8>, Seq<u8>) {
    (utf8(bt.key@), (src.payloads)(bt.payload_id))
}

/// The picture is not empty.
pub open spec fn has_picture(art: ArtInput) -> bool {
    art.data_len > 0
}

/// The frame of a picture: UTF-8, its MIME type, one byte of its type, its description, and the
/// image that is streamed.
pub open spec fn picture_frame(art: ArtInput, src: Sources) -> (Seq<u8>, Seq<u8>) {
    (
        code("APIC"@),
        seq![3u8] + utf8(art.mime@) + seq![0u8, (art.picture_type % 256) as u8] + utf8(
            art.description@,
        ) + seq![0u8] + (src.art)(art.art_id),
    )
}

proof fn binaries_filtered(tags: Seq<BinaryTagInput>, src: Sources)
    ensures
        binary_list(tags, src) == tags.filter(|bt: BinaryTagInput| has_frame(bt)).map_values(
            |bt: BinaryTagInput| tag_frame(bt, src),
        ),
    decreases tags.len(),
{
    reveal(Seq::filter);
    if tags.len() > 0 {
        binaries_filtered(tags.drop_last(), src);
    }
    assert(binary_list(tags, src) =~= tags.filter(|bt: BinaryTagInput| has_frame(bt)).map_values(
        |bt: BinaryTagInput| tag_frame(bt, src),
    ));
}

proof fn pictures_filtered(arts: Seq<ArtInput>, src: Sources)
    ensures
        apic_list(arts, src) == arts.filter(|a: ArtInput| has_picture(a)).map_values(
            |a: ArtInput| picture_frame(a, src),
        ),
    decreases arts.len(),
{
    reveal(Seq::filter);
    reveal_strlit("APIC");
    assert(code("APIC"@) =~= crate::mp3::frames::ID_APIC@);
    if arts.len() > 0 {
        pictures_filtered(arts.drop_last(), src);
        let a = arts.last();
        assert(apic_head(a) + (src.art)(a.art_id) =~= picture_frame(a, src).1);
    }
    assert(apic_list(arts, src) =~= arts.filter(|a: ArtInput| has_picture(a)).map_values(
        |a: ArtInput| picture_frame(a, src),
    ));
}

proof fn row_push(frames: Seq<(Seq<u8>, Seq<u8>)>, f: (Seq<u8>, Seq<u8>))
    ensures
        frames_in_a_row(4, frames.push(f)) == frames_in_a_row(4, frames) + any_frame(4, f),
    decreases frames.len(),
{
    let all = frames.push(f);
    if frames.len() == 0 {
        assert(all.drop_first() =~= Seq::empty());
        reveal_with_fuel(frames_in_a_row, 2);
        assert(frames_in_a_row(4, all) =~= frames_in_a_row(4, frames) + any_frame(4, f));
    } else {
        assert(all.drop_first() =~= frames.drop_first().push(f));
        row_push(frames.drop_first(), f);
        assert(frames_in_a_row(4, all) =~= frames_in_a_row(4, frames) + any_frame(4, f));
    }
}

proof fn row_written(frames: Seq<(Seq<u8>, Seq<u8>)>)
    requires
        list_bytes(frames).len() < 0x10000000,
    ensures
        list_bytes(frames) == frames_in_a_row(4, frames),
    decreases frames.len(),
{
    if frames.len() > 0 {
        let f = frames.drop_last();
        row_written(f);
        frame_written(frames.last().0, frames.last().1);
        row_push(f, frames.last());
        assert(f.push(frames.last()) =~= frames);
    }
}

/// A synthesized file is served as a v2.4 tag without flags and the audio. The frames of the
/// tag are those of the groups of tags, the promoted ones, one for each binary tag that has one
/// and one for each picture that is not empty, in order.
pub proof fn synthesized_file_is_its_frames(
    audio_offset: u64,
    audio_length: u64,
    tags: &[TagInput],
    binary_tags: &[BinaryTagInput],
    arts: &[ArtInput],
    src: Sources,
    r: Result<RegionLayout>,
)
    requires
        call_ensures(
            synthesize_layout,
            (audio_offset, audio_length, tags, binary_tags, arts),
            r,
        ),
        sources_hold(src, binary_tags@, arts@),
    ensures
        ({
            let list = groups_list(groups_of(tags@, true)) + promoted_list(tags@)
                + binary_tags@.filter(|bt: BinaryTagInput| has_frame(bt)).map_values(
                |bt: BinaryTagInput| tag_frame(bt, src),
            ) + arts@.filter(|a: ArtInput| has_picture(a)).map_values(
                |a: ArtInput| picture_frame(a, src),
            );
            match r {
                Ok(l) => {
                    let row = frames_in_a_row(4, list);
                    &&& row.len() < 0x10000000
                    &&& served_bytes(src, l.views()) == any_header(4, 0, 0, row.len() as int) + row
                        + src.backing.subrange(audio_offset as int, audio_offset + audio_length)
                },
                Err(e) => e == FormatError::TooLarge ==> list_bytes(list).len() >= 0x10000000,
            }
        }),
{
    binaries_filtered(binary_tags@, src);
    pictures_filtered(arts@, src);
    file_served(audio_offset as int, audio_length as int, tags@, binary_tags@, arts@, src);
    let list = tag_list(tags@, binary_tags@, arts@, src);
    if r is Ok {
        row_written(list);
        let n = list_bytes(list).len() as int;
        assert(tag_header(n) =~= any_header(4, 0, 0, n));
    }
}

} // verus!
