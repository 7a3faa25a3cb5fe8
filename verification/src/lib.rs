//! Byte-level reading and rewriting of audio metadata: FLAC, MP3 (ID3v2), MP4 and Ogg.
//!
//! A file's metadata is read out of its bytes, and a re-tagged file is described as a
//! layout: generated bytes, payloads that are streamed in, and the backing file's audio,
//! served verbatim.

pub mod bytes;
pub mod coverage;
pub mod error;
pub mod flac;
pub mod flac_laws;
pub mod flac_scan_laws;
pub mod flac_write_laws;
pub mod group_laws;
pub mod groups;
pub mod id3v2;
pub mod id3v2_laws;
pub mod input;
pub mod input_laws;
pub mod layout;
pub mod layout_laws;
pub mod mp3;
pub mod mp4;
pub mod ogg;
pub mod number_laws;
pub mod probe;
pub mod serving;
pub mod size;
pub mod slot_laws;
pub mod tagmap;
pub mod tagmap_laws;
pub mod text;
pub mod vorbis_laws;
pub mod vorbiscomment;

pub use error::{FormatError, Result};
pub use input::{
    ArtInput, BinaryTagInput, BlobLen, EmbeddedBinaryTag, EmbeddedPicture, PictureType, TagInput,
};
pub use layout::{LayoutError, RegionLayout, Segment};
pub use mp3::build_id3v2_segments;
pub use ogg::{Codec, OggHeader, OggScan};
pub use probe::Extent;
pub use vorbiscomment::is_valid_key as is_valid_vorbis_key;
pub use vorbiscomment::parse as parse_vorbis_comment;
