//! What a caller hands to synthesis, and what extraction hands back.

use vstd::prelude::*;

verus! {

/// An ID3/FLAC picture type, validated to the `0..=20` range.
#[derive(Debug, Clone, Copy, PartialEq, Eq)]
pub struct PictureType {
    code: u8,
}

impl PictureType {
    /// The numeric picture type.
    pub closed spec fn code(self) -> int {
        self.code as int
    }

    #[verifier::type_invariant]
    pub closed spec fn wf(self) -> bool {
        self.code <= 20
    }

    /// The "Other" picture type (0); the clamp target for an out-of-range byte.
    pub fn zero() -> (r: PictureType)
        ensures
            r.code() == 0,
    {
        PictureType { code: 0 }
    }

    /// The picture type `v`, or `None` when `v` is over 20.
    pub fn new(v: u32) -> (r: Option<PictureType>)
        ensures
            match r {
                Some(p) => v <= 20 && p.code() == v,
                None => v > 20,
            },
    {
        if v > 20 {
            None
        } else {
            Some(PictureType { code: v as u8 })
        }
    }

    /// The numeric picture type.
    pub fn get(self) -> (r: u32)
        ensures
            r == self.code(),
            r <= 20,
    {
        proof {
            use_type_invariant(self);
        }
        self.code as u32
    }
}

/// A non-zero payload length for an art image or binary tag. The non-zero
/// invariant encodes the layout's `EmptySegment` rule at the type level:
/// a degenerate empty payload is dropped at the construction boundary, so a
/// metadata segment can never carry a zero length.
#[derive(Debug, Clone, Copy, PartialEq, Eq)]
pub struct BlobLen {
    len: u64,
}

impl BlobLen {
    /// The length as a number.
    pub closed spec fn value(self) -> int {
        self.len as int
    }

    #[verifier::type_invariant]
    pub closed spec fn wf(self) -> bool {
        self.len != 0
    }

    /// A length is a `u64`.
    pub proof fn value_range(self)
        ensures
            0 <= self.value() <= u64::MAX,
    {
    }

    /// The length `v`, or `None` when it is zero.
    pub fn new(v: u64) -> (r: Option<BlobLen>)
        ensures
            match r {
                Some(b) => v != 0 && b.value() == v,
                None => v == 0,
            },
    {
        if v == 0 {
            None
        } else {
            Some(BlobLen { len: v })
        }
    }

    /// The length; never zero.
    pub fn get(self) -> (r: u64)
        ensures
            r == self.value(),
            r != 0,
    {
        proof {
            use_type_invariant(self);
        }
        self.len
    }
}

/// One Vorbis/ID3 tag value to synthesize. Multi-valued tags are passed as
/// multiple `TagInput`s in the desired order.
#[derive(Debug, Clone, PartialEq, Eq)]
pub struct TagInput {
    pub key: String,
    pub value: String,
}

impl TagInput {
    pub fn new(key: &str, value: &str) -> (r: TagInput)
        ensures
            r.key@ == key@,
            r.value@ == value@,
    {
        TagInput { key: key.to_owned(), value: value.to_owned() }
    }
}

/// A reference to one embedded picture to synthesize. The image bytes themselves
/// are NOT held here, only `data_len`, the exact byte length, because the caller
/// streams the image into the spliced region at read time. `art_id` is an opaque
/// handle the caller maps back to its blob store.
#[derive(Debug, Clone, PartialEq, Eq)]
pub struct ArtInput {
    pub art_id: i64,
    pub mime: String,
    pub description: String,
    pub picture_type: u32,
    pub width: u32,
    pub height: u32,
    pub data_len: u64,
}

/// An embedded picture extracted from a backing file at scan time (a FLAC PICTURE
/// block or an MP3 APIC frame), before it is content-addressed and stored.
#[derive(Debug, Clone, PartialEq, Eq)]
pub struct EmbeddedPicture {
    pub mime: String,
    pub picture_type: PictureType,
    pub description: String,
    pub width: u32,
    pub height: u32,
    pub data: Vec<u8>,
}

/// A reference to one opaque binary tag payload to synthesize. Like `ArtInput`,
/// the bytes are NOT held here, only `len` and `payload_id`, an opaque handle the
/// caller streams from. `key` is the format-private identifier the synthesis path
/// decodes (ID3 frame id, `APPLICATION`/`CUESHEET`, `----:<mean>:<name>`).
#[derive(Debug, Clone, PartialEq, Eq)]
pub struct BinaryTagInput {
    pub key: String,
    pub payload_id: i64,
    pub len: u64,
}

/// A binary tag frame extracted at scan time: the format-private identifier
/// (`key`: an ID3 4-char frame id, a FLAC `APPLICATION`/`CUESHEET`, or an MP4
/// `----:<mean>:<name>`) and the raw post-header body (`payload`). Unlike
/// `BinaryTagInput`, this owns the bytes.
#[derive(Debug, Clone, PartialEq, Eq)]
pub struct EmbeddedBinaryTag {
    pub key: String,
    pub payload: Vec<u8>,
}

} // verus!
