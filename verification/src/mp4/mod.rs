//! Hand-rolled MP4/M4A box layer: parse the structure, read iTunes and QuickTime
//! keyed metadata, and regenerate `moov` (with patched chunk offsets) to
//! synthesize a re-tagged file whose `mdat` audio payload is served verbatim.
//! Strict: anything outside the supported shape (one audio track plus optional
//! chapter tracks, one `mdat`, non-fragmented) is rejected.

pub mod atom_laws;
pub mod atoms;
pub mod box_laws;
pub mod boxes;
pub mod file_laws;
pub mod fill_laws;
pub mod kept_laws;
pub mod item_laws;
pub mod keyed;
pub mod kids;
pub mod laws;
pub mod moved_laws;
pub mod offsets;
pub mod patch_laws;
pub mod read;
pub mod relocation;
pub mod rescan_laws;
pub mod retag_laws;
pub mod seek_laws;
pub mod strip;
pub mod strip_laws;
pub mod structure;
pub mod structure_laws;
pub mod synth;
pub mod value_laws;
pub mod values;
pub mod write_laws;

pub use atoms::{boxed, build_udta, freeform_binary_prefix};
pub use boxes::{
    box_header, child_boxes, child_boxes_lenient, find_box, find_path, read_box, BoxHeader, BoxRef,
};
pub use keyed::{keyed_items, keyed_metas, KeyedItem};
pub use offsets::patch_chunk_offsets;
pub use read::{
    read_binary_tags, read_binary_tags_reporting, read_freeform, read_pictures,
    read_pictures_reporting, read_tags, OversizeDrop,
};
pub use relocation::chunk_offsets;
pub use structure::{
    header_bytes, locate_audio, read_structure, validate_moov, Mp4Bounds, Mp4Scan, Mp4ScanError,
    StructurePlan, StructureWalk,
};
pub use synth::synthesize_layout;
pub use values::TagValue;
