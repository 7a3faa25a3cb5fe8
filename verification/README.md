# musefs-format

Byte-level reading and rewriting of audio metadata for FLAC, MP3 (ID3v2), MP4/M4A and Ogg
(Opus, Vorbis, FLAC), verified with Verus.

A file's tags, pictures and structure are read out of its bytes. A re-tagged file is never
written: it is described as a layout of segments, namely generated bytes, payloads that are
streamed in, and the backing file's audio, which is served as it stands.

## Layout

- `src/layout.rs`, `src/coverage.rs`, `src/serving.rs`: layouts, what makes one sound, whether
  it covers the audio, and the bytes it is served as.
- `src/input.rs`, `src/error.rs`, `src/probe.rs`, `src/size.rs`, `src/bytes.rs`, `src/text.rs`,
  `src/groups.rs`: inputs, errors and the byte and text primitives.
- `src/tagmap.rs`: the vocabulary of canonical keys and where each format keeps them.
- `src/vorbiscomment.rs`, `src/flac.rs`, `src/id3v2.rs`, `src/mp3/`, `src/mp4/`, `src/ogg/`: the
  formats.
- `*_laws.rs` and `laws.rs`: what holds of several functions together, above all that a
  synthesized file reads back as it was tagged.
- `tests/`: tests on concrete bytes, run against the outside crates.
- `app/`: errors that implement `std::error::Error`, and MP4 files read by seeking.

## What is trusted

Calls into `base64` and `id3`, and a few functions of `std` on text, stand behind small
functions whose doc comments say what is believed of them: `src/text.rs`, `src/ogg/b64.rs` and
`parse_id3` in `src/mp3/read.rs`.
