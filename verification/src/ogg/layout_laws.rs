//! A synthesized Ogg layout, served, reads back as it was tagged.

use super::art_source::ArtSource;
use super::chunks::chunks_len;
use super::chunks::images_of;
use super::chunks::payload_bytes;
use super::chunks::payload_prefix;
use super::chunks::segments_of;
use super::chunks::segments_served;
use super::chunks::served;
use super::chunks::served_concat;
use super::chunks::ChunkModel;
use super::header::codec_of;
use super::header::comment_pairs;
use super::header::header_of;
use super::header::header_pictures;
use super::header::pictures_in_comments;
use super::header::text_pairs;
use super::header::Codec;
use super::header::PicturesModel;
use super::header::PICTURE_FIELD;
use super::page::headers_laced;
use super::page::lacing;
use super::page::lacing_sums_to_length;
use super::page::total_page_count;
use super::synth::header_packets;
use super::synth::ogg_segments;
use super::synth::packet_payloads;
use super::synth::packet_segments;
use super::synth::packets_available;
use super::synth::packets_error;
use super::synth::packets_lace;
use super::synth::pages_of_packets;
use super::tag_laws::images_hold;
use super::tag_laws::literal_bytes;
use super::tag_laws::pictures_back;
use super::tag_laws::reads_as_given;
use super::tag_laws::synthesized_header_reads_back;
use crate::input::ArtInput;
use crate::input::TagInput;
use crate::layout::SegView;
use crate::tagmap::key_is;
use crate::text::lower;
use crate::text::same_ignoring_case;
use crate::text::upper;
use crate::vorbiscomment::field_of;
use crate::vorbiscomment::key_after_round_trip;
use crate::vorbiscomment::key_of_field;
use crate::vorbiscomment::read_back;
use crate::vorbiscomment::valid_key;
use vstd::prelude::*;

verus! {

/// Packets laced one after the other are served as their pages.
proof fn packets_served<S: ArtSource>(src: &S, serial: u32, packets: Seq<Seq<ChunkModel>>)
    requires
        packets_lace(packets),
        packets_available(src, packets),
    ensures
        served(images_of(src), packet_segments(images_of(src), serial, packets)) == headers_laced(
            serial,
            packet_payloads(images_of(src), packets),
        ),
        total_page_count(packet_payloads(images_of(src), packets)) == pages_of_packets(packets),
        0 <= pages_of_packets(packets) <= u32::MAX,
    decreases packets.len(),
{
    let images = images_of(src);
    let payloads = packet_payloads(images, packets);
    if packets.len() > 0 {
        let before = packets.drop_last();
        let p = packets.last();
        assert(p == packets[packets.len() - 1]);
        assert(super::chunks::arts_available(src, packets[packets.len() - 1]));
        assert forall|i: int| 0 <= i < before.len() implies super::chunks::arts_available(
            src,
            #[trigger] before[i],
        ) by {
            assert(before[i] == packets[i]);
        }
        packets_served(src, serial, before);
        assert(payloads.drop_last() =~= packet_payloads(images, before));
        let all = payload_bytes(images, p);
        payload_prefix(src, p, 0);
        let n = chunks_len(p);
        lacing_sums_to_length(n);
        let seq = pages_of_packets(before) as u32;
        let bos = packets.len() == 1;
        segments_served(src, serial, seq, bos, true, lacing(n), p, 0);
        assert(all.skip(0) =~= all);
        let more = segments_of(serial, seq, bos, true, lacing(n), p, 0, all);
        served_concat(images, packet_segments(images, serial, before), more);
        assert(payloads.last() == all);
    } else {
        assert(payloads =~= Seq::empty());
    }
}

/// No tag is kept in the field that carries pictures.
pub open spec fn no_picture_tags(tags: Seq<TagInput>) -> bool {
    forall|i: int|
        0 <= i < tags.len() ==> !same_ignoring_case((#[trigger] tags[i]).key@, PICTURE_FIELD@)
}

/// Tags none of which is kept in the field that carries pictures hold text alone.
proof fn text_alone(tags: Seq<TagInput>)
    requires
        no_picture_tags(tags),
    ensures
        text_pairs(read_back(tags)) == read_back(tags),
        pictures_in_comments(read_back(tags)) == (PicturesModel {
            pictures: Seq::empty(),
            dropped: Seq::empty(),
        }),
    decreases tags.len(),
{
    let all = read_back(tags);
    if tags.len() > 0 {
        let f = tags.drop_last();
        let t = tags.last();
        assert(t == tags[tags.len() - 1]);
        assert forall|i: int| 0 <= i < f.len() implies !same_ignoring_case(
            (#[trigger] f[i]).key@,
            PICTURE_FIELD@,
        ) by {
            assert(f[i] == tags[i]);
        }
        text_alone(f);
        if valid_key(t.key@) {
            let k = t.key@;
            let back = key_of_field(field_of(k));
            key_after_round_trip(k);
            crate::tagmap_laws::found_entry(key_is(lower(k)), 0);
            assert(lower(back) == lower(k)) by {
                assert(lower(upper(k)) =~= lower(k));
                assert(lower(lower(k)) =~= lower(k));
            }
            assert(all.drop_last() =~= read_back(f));
            assert(all.last() == (back, t.value@));
        }
    }
}

/// A synthesized Ogg layout, served up to its audio, reads back whatever the audio is: the
/// codec, the serial, and the audio's place right behind the header; the packets that are
/// carried over byte for byte; the tags and pictures as they were given. The audio pages are
/// renumbered by as much as the number of header pages changes.
#[verifier::spinoff_prover]
#[verifier::rlimit(60)]
pub proof fn synthesized_layout_reads_back<S: ArtSource>(
    src: &S,
    codec: Codec,
    serial: u32,
    header_pages: int,
    packets: Seq<Seq<u8>>,
    tags: Seq<TagInput>,
    arts: Seq<ArtInput>,
    audio_offset: int,
    audio_length: int,
    audio: Seq<u8>,
)
    requires
        packets.len() > 0,
        codec_of(packets[0]) == Some(codec),
        codec is Vorbis ==> packets.len() >= 3,
        packets_error(codec, packets, tags, arts) is None,
        packets_lace(header_packets(codec, packets, tags, arts)),
        packets_available(src, header_packets(codec, packets, tags, arts)),
        images_hold(images_of(src), arts),
    ensures
        ({
            let images = images_of(src);
            let segs = ogg_segments(
                images,
                serial,
                header_pages,
                header_packets(codec, packets, tags, arts),
                audio_offset,
                audio_length,
            );
            let region = served(images, segs.drop_last());
            match header_of(region + audio) {
                Some(h) => {
                    &&& h.codec == codec
                    &&& h.serial == serial
                    &&& h.audio_offset == region.len()
                    &&& segs.last() == (SegView::OggAudio {
                        offset: audio_offset,
                        len: audio_length,
                        seq_delta: h.header_pages - header_pages,
                        serial,
                    })
                    &&& !(codec is OggFlac) ==> h.packets[0] == packets[0]
                    &&& codec is Vorbis ==> h.packets[2] == packets[2]
                    &&& reads_as_given(images, h, tags, arts)
                    &&& no_picture_tags(tags) ==> text_pairs(comment_pairs(h)->0) == read_back(tags)
                        && header_pictures(h) == Some(
                        PicturesModel {
                            pictures: pictures_back(images, arts),
                            dropped: Seq::empty(),
                        },
                    )
                },
                None => false,
            }
        }),
{
    let images = images_of(src);
    let chunks = header_packets(codec, packets, tags, arts);
    let made = packet_payloads(images, chunks);
    let segs = ogg_segments(images, serial, header_pages, chunks, audio_offset, audio_length);
    packets_served(src, serial, chunks);
    synthesized_header_reads_back(images, codec, serial, packets, tags, arts, audio);
    assert(segs.drop_last() =~= packet_segments(images, serial, chunks));
    if !(codec is OggFlac) {
        literal_bytes(images, packets[0]);
        assert(made[0] == payload_bytes(images, chunks[0]));
    }
    if codec is Vorbis {
        literal_bytes(images, packets[2]);
        assert(made[2] == payload_bytes(images, chunks[2]));
    }
    if no_picture_tags(tags) {
        text_alone(tags);
        let none = Seq::<crate::flac::PictureModel>::empty();
        assert(none + pictures_back(images, arts) =~= pictures_back(images, arts));
    }
}

} // verus!
