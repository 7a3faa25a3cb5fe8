//! MP3: where the audio lies between its tags, the ID3v2 tags it carries, and a
//! regenerated ID3v2.4 tag in front of the audio.

pub mod frame_laws;
pub mod frames;
pub mod laws;
pub mod locate;
pub mod locate_laws;
pub mod merge;
pub mod merge_laws;
pub mod read;
pub mod read_laws;
pub mod scan_laws;
pub mod text_laws;
pub mod trailer;
pub mod trailer_laws;
pub mod write_laws;

pub use frames::{build_id3v2_segments, synthesize_layout};
pub use locate::{locate_audio, locate_audio_bounded, Mp3Bounds};
pub use merge::{read_metadata, Mp3Metadata};
pub use read::{id3v2_alloc_safe, read_binary_tags, read_pictures, read_tags};
pub use trailer::{locate_trailer, Mp3Trailer};
