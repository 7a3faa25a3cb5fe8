//! Ogg streams: pages and packets, the header of an Opus, Vorbis or FLAC stream, and a
//! regenerated header in front of the renumbered audio pages.

pub mod art_source;
pub mod audio_laws;
pub mod b64;
pub mod chunks;
pub mod crc;
pub mod front_laws;
pub mod header;
pub mod header_laws;
pub mod layout_laws;
pub mod packet_laws;
pub mod page;
pub mod page_laws;
pub mod read_laws;
pub mod synth;
pub mod tag_laws;
pub mod tile_laws;
pub mod write_laws;

pub use art_source::{ArtSource, MapArtSource};
pub use b64::{b64_len, b64_len_checked, b64_window, encode_b64_slice, B64Window};
pub use crc::{crc32, crc_shift_zeros};
pub use header::{
    classify_tail, locate_audio, read_header, read_metadata, read_metadata_bounded, read_pictures,
    read_pictures_reporting, read_tags, Chaining, Codec, OggHeader, OggScan, PictureDrop,
};
pub use page::{
    build_header, lace_packet, parse_page, patch_page_header, patch_page_header_algebraic,
    read_packets, verify_page_crc, PageHeader, ReadPacket,
};
pub use synth::{synthesize_layout, OggArt};
