//! The library's error type.

use crate::layout::LayoutError;
use crate::text::signed_decimal;
use crate::text::signed_decimal_text;
use vstd::prelude::*;
use vstd::string::*;

verus! {

#[derive(Debug, PartialEq, Eq)]
pub enum FormatError {
    /// Not a FLAC stream (missing fLaC marker).
    NotFlac,
    /// Not an MP3 stream (no MPEG frame sync at the audio offset).
    NotMp3,
    /// Truncated or malformed metadata.
    Malformed,
    /// Synthesized metadata exceeds the format's size limit.
    TooLarge,
    /// Not a supported MP4/M4A file.
    NotMp4,
    /// An MP4 file whose tracks are not one audio track with optional chapter tracks.
    /// Carries a message that names the handlers found.
    Mp4Tracks(String),
    /// Not a supported WAV/RIFF file.
    NotWav,
    /// A synthesized region layout violates producer invariants.
    InvalidLayout(LayoutError),
    /// A producer invariant was violated.
    ProducerBug(&'static str),
    /// Art bytes could not be read from the art source.
    ArtRead { art_id: i64 },
}

pub type Result<T> = std::result::Result<T, FormatError>;

impl From<LayoutError> for FormatError {
    fn from(e: LayoutError) -> (r: FormatError) {
        FormatError::InvalidLayout(e)
    }
}

impl vstd::std_specs::convert::FromSpecImpl<LayoutError> for FormatError {
    open spec fn obeys_from_spec() -> bool {
        true
    }

    open spec fn from_spec(e: LayoutError) -> FormatError {
        FormatError::InvalidLayout(e)
    }
}

/// What a layout error says.
pub open spec fn layout_error_text(e: LayoutError) -> Seq<char> {
    match e {
        LayoutError::EmptySegment => "a segment reported zero length"@,
        LayoutError::TotalOverflow => "total layout length overflowed u64"@,
        LayoutError::BackingRangeOverflow => "backing-audio range offset + length overflowed u64"@,
        LayoutError::OggArtSliceRangeOverflow => "ogg art slice range (offset + length, or base64 output length) overflowed u64"@,
        LayoutError::OggArtSliceOutOfBounds => "ogg art slice output window exceeds the source art length"@,
    }
}

/// What an error says.
pub open spec fn error_text(e: FormatError) -> Seq<char> {
    match e {
        FormatError::NotFlac => "not a FLAC stream (missing fLaC marker)"@,
        FormatError::NotMp3 => "not an MP3 stream (no MPEG frame sync at the audio offset)"@,
        FormatError::Malformed => "truncated or malformed metadata"@,
        FormatError::TooLarge => "synthesized metadata exceeds the format's size limit"@,
        FormatError::NotMp4 => "not a supported MP4/M4A file"@,
        FormatError::Mp4Tracks(m) => "not a supported MP4/M4A file: "@ + m@,
        FormatError::NotWav => "not a supported WAV/RIFF file"@,
        FormatError::InvalidLayout(l) => "synthesized region layout violates producer invariants: "@
            + layout_error_text(l),
        FormatError::ProducerBug(reason) => "producer invariant violated: "@ + reason@,
        FormatError::ArtRead { art_id } => "art bytes could not be read: "@ + signed_decimal(
            art_id as int,
        ),
    }
}

impl LayoutError {
    /// What the error says.
    pub fn message(&self) -> (r: &'static str)
        ensures
            r@ == layout_error_text(*self),
    {
        match self {
            LayoutError::EmptySegment => "a segment reported zero length",
            LayoutError::TotalOverflow => "total layout length overflowed u64",
            LayoutError::BackingRangeOverflow => "backing-audio range offset + length overflowed u64",
            LayoutError::OggArtSliceRangeOverflow => "ogg art slice range (offset + length, or base64 output length) overflowed u64",
            LayoutError::OggArtSliceOutOfBounds => "ogg art slice output window exceeds the source art length",
        }
    }
}

/// Two texts in a row.
fn joined(a: &str, b: &str) -> (r: String)
    ensures
        r@ == a@ + b@,
{
    let mut s: String = a.to_owned();
    s.append(b);
    s
}

impl FormatError {
    /// What the error says.
    pub fn message(&self) -> (r: String)
        ensures
            r@ == error_text(*self),
    {
        match self {
            FormatError::NotFlac => "not a FLAC stream (missing fLaC marker)".to_owned(),
            FormatError::NotMp3 => "not an MP3 stream (no MPEG frame sync at the audio offset)".to_owned(),
            FormatError::Malformed => "truncated or malformed metadata".to_owned(),
            FormatError::TooLarge => "synthesized metadata exceeds the format's size limit".to_owned(),
            FormatError::NotMp4 => "not a supported MP4/M4A file".to_owned(),
            FormatError::Mp4Tracks(m) => joined("not a supported MP4/M4A file: ", m.as_str()),
            FormatError::NotWav => "not a supported WAV/RIFF file".to_owned(),
            FormatError::InvalidLayout(l) => joined(
                "synthesized region layout violates producer invariants: ",
                l.message(),
            ),
            FormatError::ProducerBug(reason) => joined("producer invariant violated: ", reason),
            FormatError::ArtRead { art_id } => joined(
                "art bytes could not be read: ",
                signed_decimal_text(*art_id).as_str(),
            ),
        }
    }
}

} // verus!
