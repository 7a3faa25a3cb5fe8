//! A synthesized Ogg layout serves the audio once, behind the regenerated header.

use super::chunks::emit_state;
use super::chunks::page_segments;
use super::chunks::payload_bytes;
use super::chunks::segments_of;
use super::chunks::ChunkModel;
use super::page::lace_sum;
use super::page::lacing;
use super::page::page_share;
use super::synth::ogg_segments;
use super::synth::packet_segments;
use super::synth::pages_of_packets;
use crate::layout::audio_once_at_end;
use crate::layout::no_audio;
use vstd::prelude::*;

verus! {

proof fn page_is_silent(header: Seq<u8>, chunks: Seq<ChunkModel>, p0: int, end: int, k: nat)
    ensures
        no_audio(emit_state(header, chunks, p0, end, k).0),
    decreases k,
{
    if k > 0 {
        page_is_silent(header, chunks, p0, end, (k - 1) as nat);
    }
}

proof fn pages_are_silent(
    serial: u32,
    seq: u32,
    bos: bool,
    first: bool,
    laces: Seq<u8>,
    chunks: Seq<ChunkModel>,
    p0: int,
    payload: Seq<u8>,
)
    ensures
        no_audio(segments_of(serial, seq, bos, first, laces, chunks, p0, payload)),
    decreases laces.len(),
{
    let k = page_share(laces.len() as int);
    let n = lace_sum(laces.take(k));
    assert forall|header: Seq<u8>| no_audio(#[trigger] page_segments(header, chunks, p0, p0 + n)) by {
        page_is_silent(header, chunks, p0, p0 + n, chunks.len());
    }
    if laces.len() > 255 {
        pages_are_silent(
            serial,
            (seq + 1) as u32,
            bos,
            false,
            laces.skip(k),
            chunks,
            p0 + n,
            payload,
        );
    }
}

proof fn packets_are_silent(
    images: spec_fn(i64) -> Seq<u8>,
    serial: u32,
    packets: Seq<Seq<ChunkModel>>,
)
    ensures
        no_audio(packet_segments(images, serial, packets)),
    decreases packets.len(),
{
    if packets.len() > 0 {
        let p = packets.last();
        packets_are_silent(images, serial, packets.drop_last());
        pages_are_silent(
            serial,
            pages_of_packets(packets.drop_last()) as u32,
            packets.len() == 1,
            true,
            lacing(super::chunks::chunks_len(p)),
            p,
            0,
            payload_bytes(images, p),
        );
    }
}

/// Whatever the tags and images, a synthesized Ogg layout serves the audio range exactly
/// once, as its last segment.
pub proof fn audio_served_once(
    images: spec_fn(i64) -> Seq<u8>,
    serial: u32,
    header_pages: int,
    packets: Seq<Seq<ChunkModel>>,
    audio_offset: int,
    audio_length: int,
)
    ensures
        audio_once_at_end(
            ogg_segments(images, serial, header_pages, packets, audio_offset, audio_length),
            audio_offset,
            audio_length,
        ),
{
    packets_are_silent(images, serial, packets);
}

} // verus!
