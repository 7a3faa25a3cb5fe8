use musefs_format::error::FormatError;
use musefs_format::id3v2::synchsafe_decode;
use musefs_format::input::{ArtInput, BinaryTagInput, TagInput};
use musefs_format::layout::Segment;
use musefs_format::mp3::frames::{build_id3v2_segments, is_id3_text_frame_id, push_frame_header, syncsafe};
use musefs_format::mp3::locate::{locate_audio, locate_audio_bounded};
use musefs_format::mp3::read::{id3v2_alloc_safe, read_binary_tags, read_tags};
use musefs_format::probe::Extent;

use id3::frame::{Comment, Content, ExtendedText, Lyrics, Popularimeter, UniqueFileIdentifier, Unknown};
use id3::{Encoder, Frame, Tag, TagLike, Version};

/// Build a minimal ID3v2.3 tag with a single frame whose declared size
/// overflows the tag bounds, and assert the guard rejects it.
#[test]
fn id3v2_guard_rejects_oversized_v23_frame() {
    let mut bytes: Vec<u8> = Vec::new();
    bytes.extend_from_slice(b"ID3");
    bytes.push(0x03);
    bytes.push(0x00);
    bytes.push(0x00);

    bytes.extend_from_slice(&[0x00, 0x00, 0x00, 0x0A]);

    bytes.extend_from_slice(b"TIT2");
    bytes.extend_from_slice(&[0xFF, 0xFF, 0xFF, 0xFF]);
    bytes.extend_from_slice(&[0x00, 0x00]);

    assert!(
        !id3v2_alloc_safe(&bytes),
        "guard should reject frame claiming more bytes than the tag holds"
    );

    assert!(
        read_tags(&bytes).is_empty(),
        "read_tags must return empty for unsafe tag"
    );
}

/// A buffer that does not start with "ID3" must be rejected by the guard.
/// id3::Tag::read_from2 scans forward to locate a tag, so any non-ID3-prefixed
/// buffer is unsafe regardless of what bytes appear later.
#[test]
fn id3v2_guard_rejects_non_id3_prefixed() {
    assert!(
        !id3v2_alloc_safe(b"RIFF....just not an id3 tag...."),
        "guard must reject buffer not starting with ID3"
    );
    assert!(
        read_tags(b"RIFF....just not an id3 tag....").is_empty(),
        "read_tags must return empty for non-ID3-prefixed buffer"
    );

    const RIFF_BODY: &[u8] = &[
        0x52, 0x49, 0x46, 0x46, 0x32, 0x00, 0x00, 0x00,
        0x57, 0x41, 0x56, 0x45,
        0x00, 0x00, 0x00, 0x00, 0x00, 0x00, 0x00, 0x00, 0x00, 0x00, 0x4c, 0x00, 0x00, 0x00,
        0x00, 0x00, 0x49, 0x44, 0x33, 0x20,
        0x15, 0x00, 0x00, 0x00,
        0x49, 0x44, 0x33,
        0x03, 0x00, 0x00, 0x00, 0xf7, 0x00, 0x00, 0x54, 0x44, 0x41, 0x03, 0xf6, 0x00, 0x00,
        0x00,
    ];
    assert!(
        !id3v2_alloc_safe(RIFF_BODY),
        "guard must reject RIFF-prefixed buffer (WAV crash vector)"
    );
    assert!(
        read_tags(RIFF_BODY).is_empty(),
        "read_tags must return empty for RIFF-prefixed buffer"
    );
}

/// Write a real ID3v2.4 tag via the id3 crate and confirm the guard allows it
/// and that read_tags extracts the expected values.
#[test]
fn id3v2_guard_allows_valid_tag() {

    let mut tag = Tag::new();
    tag.set_text("TIT2", "Hello");
    tag.set_text("TPE1", "Artist");
    let mut buf = Vec::new();
    tag.write_to(&mut buf, Version::Id3v24).unwrap();

    assert!(
        id3v2_alloc_safe(&buf),
        "guard should allow a well-formed tag written by the id3 crate"
    );
    let tags = read_tags(&buf);
    assert!(
        tags.contains(&("title".to_string(), "Hello".to_string())),
        "missing title in {tags:?}"
    );
    assert!(
        tags.contains(&("artist".to_string(), "Artist".to_string())),
        "missing artist in {tags:?}"
    );
}

/// Tags that would OOM the id3 crate.
/// The guard must reject all of them and return empty without allocating.
#[test]
fn read_tags_handles_oom_crash_input_safely() {
    const CRASH1: &[u8] = &[
        0x49, 0x44, 0x33,
        0x03, 0xf0,
        0x00, 0x00, 0xf9, 0x2d,
        0x49, 0x50, 0x4c, 0x53,
        0x00, 0xf9, 0x3d, 0x02,
        0x00, 0x2d, 0x01, 0x00,
        0x00, 0x03, 0x00, 0x49, 0x07, 0x10, 0xff, 0x07, 0xfe,
    ];

    const CRASH2: &[u8] = &[
        0x49, 0x44, 0x33,
        0x03, 0x00,
        0x00, 0x00, 0x00, 0x80,
        0x0a, 0x27, 0x2f, 0x00,
        0xff, 0xee, 0x01, 0x00,
        0x00, 0x00, 0x00, 0x00, 0x00, 0x00, 0x00, 0x0a, 0x2f,
    ];
    for (i, crash) in [CRASH1, CRASH2].iter().enumerate() {
        assert!(
            read_tags(crash).is_empty(),
            "read_tags must be safe on crash artifact {i}"
        );
    }
}

#[test]
fn read_tags_captures_txxx_comm_uslt_and_unmapped_text() {

    let mut tag = Tag::new();
    tag.set_text("TIT2", "Song");
    tag.set_text("TBPM", "120");
    tag.add_frame(ExtendedText {
        description: "MOOD".into(),
        value: "happy".into(),
    });
    tag.add_frame(ExtendedText {
        description: "REPLAYGAIN_TRACK_GAIN".into(),
        value: "-6.5 dB".into(),
    });
    tag.add_frame(Comment {
        lang: "eng".into(),
        description: String::new(),
        text: "nice".into(),
    });
    tag.add_frame(Lyrics {
        lang: "eng".into(),
        description: String::new(),
        text: "la la".into(),
    });

    let mut buf = Vec::new();
    tag.write_to(&mut buf, Version::Id3v24).unwrap();

    let tags = read_tags(&buf);
    assert!(tags.contains(&("title".to_string(), "Song".to_string())));
    assert!(tags.contains(&("TBPM".to_string(), "120".to_string())));
    assert!(tags.contains(&("MOOD".to_string(), "happy".to_string())));
    assert!(tags.contains(&("replaygain_track_gain".to_string(), "-6.5 dB".to_string())));
    assert!(tags.contains(&("comment".to_string(), "nice".to_string())));
    assert!(tags.contains(&("lyrics".to_string(), "la la".to_string())));
}

#[test]
fn synthesize_round_trips_arbitrary_id3_tags() {
    let tags = vec![
        TagInput::new("title", "Song"),
        TagInput::new("TBPM", "120"),
        TagInput::new("MyRating", "5"),
        TagInput::new("comment", "nice"),
        TagInput::new("lyrics", "la la"),
        TagInput::new("replaygain_track_gain", "-3.21 dB"),
    ];
    let (segments, _len) = build_id3v2_segments(&tags, &[], &[]).unwrap();
    let mut buf = Vec::new();
    for seg in &segments {
        if let Segment::Inline(bytes) = seg {
            buf.extend_from_slice(bytes);
        }
    }
    let read = read_tags(&buf);
    for expected in [
        ("title", "Song"),
        ("TBPM", "120"),
        ("MyRating", "5"),
        ("comment", "nice"),
        ("lyrics", "la la"),
        ("replaygain_track_gain", "-3.21 dB"),
    ] {
        assert!(
            read.contains(&(expected.0.to_string(), expected.1.to_string())),
            "missing {expected:?} in {read:?}"
        );
    }
}

#[test]
fn synchsafe_decode_assembles_7bit_groups() {
    assert_eq!(synchsafe_decode(&[0x01, 0x02, 0x03, 0x04]), 0x0020_8184);

    assert_eq!(synchsafe_decode(&[0xFF, 0xFF, 0xFF, 0xFF]), 0x0FFF_FFFF);

    assert_eq!(synchsafe_decode(&[0x7F, 0x00, 0x00, 0x00]), 0x0FE0_0000);

    assert_eq!(synchsafe_decode(&[0x00, 0x7F, 0x00, 0x00]), 0x001F_C000);
}

#[test]
fn syncsafe_encodes_and_round_trips() {
    assert_eq!(syncsafe(0x0FE0_0000), [0x7F, 0x00, 0x00, 0x00]);
    assert_eq!(syncsafe(0x001F_C000), [0x00, 0x7F, 0x00, 0x00]);

    for n in [0u32, 1, 127, 128, 0x0123_4567, 0x0FFF_FFFF] {
        assert_eq!(synchsafe_decode(&syncsafe(n)), n);
    }
}

#[test]
fn locate_audio_no_id3_starts_at_zero() {
    let data = [0xFF, 0xFB, 0x90, 0x00, 0, 0, 0, 0, 0, 0];
    let b = locate_audio(&data).unwrap();
    assert_eq!(b.audio_offset, 0);
    assert_eq!(b.audio_length, 10);
}

#[test]
fn locate_audio_skips_id3v2_then_finds_sync() {
    let mut data = Vec::new();
    data.extend_from_slice(b"ID3");
    data.extend_from_slice(&[0x04, 0x00, 0x00]);
    data.extend_from_slice(&[0x00, 0x00, 0x00, 0x04]);
    data.extend_from_slice(&[0xAA, 0xBB, 0xCC, 0xDD]);
    data.extend_from_slice(&[0xFF, 0xFB, 0x90, 0x00]);
    let b = locate_audio(&data).unwrap();
    assert_eq!(b.audio_offset, 14);
    assert_eq!(b.audio_length, 4);
}

#[test]
fn locate_audio_honors_footer_flag() {
    let mut data = Vec::new();
    data.extend_from_slice(b"ID3");
    data.extend_from_slice(&[0x04, 0x00, 0x10]);
    data.extend_from_slice(&[0x00, 0x00, 0x00, 0x00]);
    data.extend_from_slice(&[0u8; 10]);
    data.extend_from_slice(&[0xFF, 0xFB, 0x90, 0x00]);
    let b = locate_audio(&data).unwrap();
    assert_eq!(b.audio_offset, 20);
}

#[test]
fn locate_audio_requires_frame_sync() {
    let data = [0xFF, 0x00, 0x00, 0x00, 0, 0, 0, 0, 0, 0];
    assert_eq!(locate_audio(&data), Err(FormatError::NotMp3));

    assert_eq!(locate_audio(&[0xFF]), Err(FormatError::NotMp3));
}

#[test]
fn push_frame_header_size_boundary_is_inclusive() {
    let mut out = Vec::new();
    assert!(push_frame_header(&mut out, b"TIT2", 0x0FFF_FFFF).is_ok());
    let mut over = Vec::new();
    assert_eq!(
        push_frame_header(&mut over, b"TIT2", 0x1000_0000),
        Err(FormatError::TooLarge)
    );
}

#[test]
fn is_id3_text_frame_id_classifies_text_frames() {
    assert!(is_id3_text_frame_id("TPE1"));
    assert!(is_id3_text_frame_id("TIT2"));
    assert!(!is_id3_text_frame_id("TXXX"));
    assert!(!is_id3_text_frame_id("COMM"));
    assert!(!is_id3_text_frame_id("TPE"));
    assert!(!is_id3_text_frame_id("Txx1"));
}

#[test]
fn build_id3v2_segments_emits_standard_text_frame_as_itself() {
    let tags = vec![TagInput::new("TPE1", "Band")];
    let (segments, _len) = build_id3v2_segments(&tags, &[], &[]).unwrap();
    let mut buf = Vec::new();
    for seg in &segments {
        if let Segment::Inline(b) = seg {
            buf.extend_from_slice(b);
        }
    }

    assert!(
        buf.windows(4).any(|w| w == b"TPE1"),
        "TPE1 frame not emitted: routed elsewhere"
    );

    let read = read_tags(&buf);
    assert!(
        read.contains(&("artist".to_string(), "Band".to_string())),
        "got {read:?}"
    );
}

#[test]
fn build_id3v2_segments_rejects_oversized_total_tag() {
    let mk = |data_len: u64| ArtInput {
        art_id: 1,
        mime: "image/png".to_string(),
        description: String::new(),
        picture_type: 3,
        width: 0,
        height: 0,
        data_len,
    };
    assert_eq!(
        build_id3v2_segments(&[], &[], &[mk(0x1000_0000)]).err(),
        Some(FormatError::TooLarge)
    );
    assert!(build_id3v2_segments(&[], &[], &[mk(16)]).is_ok());

    let (_, total_at_one) = build_id3v2_segments(&[], &[], &[mk(1)]).unwrap();
    let overhead = total_at_one - 10 - 1;
    let boundary_data_len = 0x0FFF_FFFF - overhead;
    assert!(
        build_id3v2_segments(&[], &[], &[mk(boundary_data_len)]).is_ok(),
        "exact boundary (frames_len == 0x0FFF_FFFF) should be accepted"
    );
    assert_eq!(
        build_id3v2_segments(&[], &[], &[mk(boundary_data_len + 1)]).err(),
        Some(FormatError::TooLarge),
        "one byte past boundary must be rejected"
    );
}

#[test]
fn build_id3v2_segments_skips_zero_byte_art() {
    let empty = ArtInput {
        art_id: 1,
        mime: "image/png".to_string(),
        description: String::new(),
        picture_type: 3,
        width: 0,
        height: 0,
        data_len: 0,
    };
    let (segments, _len) = build_id3v2_segments(&[], &[], &[empty]).unwrap();
    assert!(
        !segments
            .iter()
            .any(|s| matches!(s, Segment::ArtImage { .. })),
        "zero-byte art must not emit an ArtImage segment"
    );
    let mut buf = Vec::new();
    for seg in &segments {
        if let Segment::Inline(b) = seg {
            buf.extend_from_slice(b);
        }
    }
    assert!(
        !buf.windows(4).any(|w| w == b"APIC"),
        "zero-byte art must not emit an APIC frame"
    );
}

#[test]
fn build_id3v2_segments_keeps_real_art_when_mixed_with_empty() {
    let mk = |art_id: i64, data_len: u64| ArtInput {
        art_id,
        mime: "image/png".to_string(),
        description: String::new(),
        picture_type: 3,
        width: 0,
        height: 0,
        data_len,
    };
    let (segments, _len) = build_id3v2_segments(&[], &[], &[mk(1, 0), mk(2, 16)]).unwrap();
    let art_segs: Vec<_> = segments
        .iter()
        .filter_map(|s| match s {
            Segment::ArtImage { art_id, len } => Some((*art_id, len.get())),
            _ => None,
        })
        .collect();
    assert_eq!(
        art_segs,
        vec![(2_i64, 16_u64)],
        "only the non-empty art should be emitted"
    );
}

/// Four synchsafe bytes.
fn ss(n: u32) -> [u8; 4] {
    [
        ((n >> 21) & 0x7F) as u8,
        ((n >> 14) & 0x7F) as u8,
        ((n >> 7) & 0x7F) as u8,
        (n & 0x7F) as u8,
    ]
}

/// Build an ID3v2 tag: "ID3", `major`, rev=0, `flags`, synchsafe `body` size,
/// then the raw `frames` bytes.
fn id3v2(major: u8, flags: u8, body: u32, frames: &[u8]) -> Vec<u8> {
    let mut v = Vec::new();
    v.extend_from_slice(b"ID3");
    v.push(major);
    v.push(0x00);
    v.push(flags);
    v.extend_from_slice(&ss(body));
    v.extend_from_slice(frames);
    v
}

#[test]
fn alloc_safe_accepts_minimal_valid_header() {
    let tag = id3v2(0x04, 0x00, 0, &[]);
    assert_eq!(tag.len(), 10);
    assert!(id3v2_alloc_safe(&tag));
}

#[test]
fn alloc_safe_rejects_short_and_non_id3() {
    assert!(!id3v2_alloc_safe(b"ID3xx"));

    assert!(!id3v2_alloc_safe(b"XXX\x04\x00\x00\x00\x00\x00\x00"));
}

#[test]
fn alloc_safe_rejects_bad_version_and_header_flags() {
    assert!(!id3v2_alloc_safe(&id3v2(0x05, 0x00, 0, &[])));
    assert!(!id3v2_alloc_safe(&id3v2(0x01, 0x00, 0, &[])));

    assert!(!id3v2_alloc_safe(&id3v2(0x04, 0x40, 0, &[])));
    assert!(!id3v2_alloc_safe(&id3v2(0x04, 0x80, 0, &[])));
}

#[test]
fn alloc_safe_rejects_high_bit_in_body_size() {
    let tag = vec![b'I', b'D', b'3', 0x04, 0x00, 0x00, 0x80, 0x80, 0x00, 0x00];
    assert!(!id3v2_alloc_safe(&tag));

    let tag1 = vec![b'I', b'D', b'3', 0x04, 0x00, 0x00, 0x00, 0x00, 0x00, 0x80];
    assert!(!id3v2_alloc_safe(&tag1));
}

#[test]
fn alloc_safe_rejects_high_bit_in_v24_frame_size() {
    let mut frame = b"TIT2".to_vec();
    frame.extend_from_slice(&[0x80, 0x80, 0x00, 0x00]);
    frame.extend_from_slice(&[0x00, 0x00]);
    let tag = id3v2(0x04, 0x00, 10, &frame);
    assert!(!id3v2_alloc_safe(&tag));
}

/// A valid ID3v2.3 frame: 4-byte id, 4-byte plain big-endian size, 2 flag bytes,
/// then `payload`.
fn v23_frame(id: &[u8; 4], size: u32, payload: &[u8]) -> Vec<u8> {
    let mut v = id.to_vec();
    v.extend_from_slice(&size.to_be_bytes());
    v.extend_from_slice(&[0x00, 0x00]);
    v.extend_from_slice(payload);
    v
}

#[test]
fn alloc_safe_v22_24bit_size_decode() {
    let mut f_mid = b"TT2".to_vec();
    f_mid.extend_from_slice(&[0x00, 0x01, 0x00]);
    assert!(!id3v2_alloc_safe(&id3v2(0x02, 0x00, 6, &f_mid)));

    let mut f_hi = b"TT2".to_vec();
    f_hi.extend_from_slice(&[0x01, 0x00, 0x00]);
    assert!(!id3v2_alloc_safe(&id3v2(0x02, 0x00, 6, &f_hi)));

    let mut f_ok = b"TT2".to_vec();
    f_ok.extend_from_slice(&[0x00, 0x00, 0x04]);
    f_ok.extend_from_slice(&[1, 2, 3, 4]);
    assert!(id3v2_alloc_safe(&id3v2(0x02, 0x00, 10, &f_ok)));
}

#[test]
fn alloc_safe_rejects_nonzero_frame_flags() {
    let mut f3 = b"TIT2".to_vec();
    f3.extend_from_slice(&4u32.to_be_bytes());
    f3.extend_from_slice(&[0x00, 0x01]);
    f3.extend_from_slice(&[1, 2, 3, 4]);
    assert!(!id3v2_alloc_safe(&id3v2(0x03, 0x00, 14, &f3)));

    let mut f4 = b"TIT2".to_vec();
    f4.extend_from_slice(&ss(4));
    f4.extend_from_slice(&[0x00, 0x01]);
    f4.extend_from_slice(&[1, 2, 3, 4]);
    assert!(!id3v2_alloc_safe(&id3v2(0x04, 0x00, 14, &f4)));
}

#[test]
fn alloc_safe_rejects_chap_and_ctoc() {
    let chap = v23_frame(b"CHAP", 4, &[1, 2, 3, 4]);
    assert!(!id3v2_alloc_safe(&id3v2(0x03, 0x00, 14, &chap)));
    let ctoc = v23_frame(b"CTOC", 4, &[1, 2, 3, 4]);
    assert!(!id3v2_alloc_safe(&id3v2(0x03, 0x00, 14, &ctoc)));
}

#[test]
fn alloc_safe_frame_size_bounds() {
    let ok = v23_frame(b"TIT2", 4, &[1, 2, 3, 4]);
    assert!(id3v2_alloc_safe(&id3v2(0x03, 0x00, 14, &ok)));

    let over = v23_frame(b"TIT2", 5, &[1, 2, 3, 4]);
    assert!(!id3v2_alloc_safe(&id3v2(0x03, 0x00, 14, &over)));
}

#[test]
fn alloc_safe_data_start_equal_to_tag_end_is_ok() {
    let zero = v23_frame(b"TIT2", 0, &[]);
    assert!(id3v2_alloc_safe(&id3v2(0x03, 0x00, 10, &zero)));
}

#[test]
fn alloc_safe_rejects_bad_second_frame_in_body() {
    let mut frames = v23_frame(b"TIT2", 2, &[0xAA, 0xBB]);
    frames.extend_from_slice(&v23_frame(b"TPE1", 100, &[1, 2, 3, 4]));
    assert!(!id3v2_alloc_safe(&id3v2(0x03, 0x00, 26, &frames)));
}

#[test]
fn alloc_safe_stops_at_tag_body_end() {
    let mut frames = v23_frame(b"TIT2", 0, &[]);
    frames.extend_from_slice(&v23_frame(b"TPE1", 100, &[1, 2, 3, 4]));
    assert!(id3v2_alloc_safe(&id3v2(0x03, 0x00, 10, &frames)));
}

#[test]
fn alloc_safe_walks_two_frames_and_stops_at_padding() {
    let mut frames = v23_frame(b"TIT2", 2, &[0xAA, 0xBB]);
    frames.extend_from_slice(&v23_frame(b"TPE1", 2, &[0xCC, 0xDD]));
    frames.extend_from_slice(&[0u8; 10]);
    assert!(id3v2_alloc_safe(&id3v2(0x03, 0x00, 25, &frames)));
}

#[test]
fn alloc_safe_rejects_frame_size_exceeding_tag_end() {
    let huge = v23_frame(b"TIT2", 100, &[1, 2, 3, 4]);
    assert!(!id3v2_alloc_safe(&id3v2(0x03, 0x00, 14, &huge)));
}

/// ID3v2 header declaring `body` bytes of tag, then a frame-sync byte pair,
/// then `audio`. Returns (full, audio_offset).
fn mp3_with_id3v2(body_len: usize, audio: &[u8]) -> (Vec<u8>, u64) {
    let mut v = b"ID3\x04\x00\x00".to_vec();
    v.extend_from_slice(&syncsafe(body_len as u32));
    v.extend(std::iter::repeat_n(0u8, body_len));
    let audio_offset = v.len() as u64;
    v.extend_from_slice(&[0xFF, 0xFB]);
    v.extend_from_slice(audio);
    (v, audio_offset)
}

#[test]
fn locate_audio_bounded_complete_with_no_id3v1() {
    let (full, audio_offset) = mp3_with_id3v2(8, b"frames");
    let prefix = &full[..audio_offset as usize + 2];
    let file_len = full.len() as u64;
    match locate_audio_bounded(prefix, file_len, None).unwrap() {
        Extent::Complete(b) => {
            assert_eq!(b.audio_offset, audio_offset);
            assert_eq!(b.audio_length, file_len - audio_offset);
        }
        other @ Extent::NeedMore { .. } => panic!("expected Complete, got {other:?}"),
    }
}

#[test]
fn locate_audio_bounded_needmore_when_tag_exceeds_prefix() {
    let (full, _audio_offset) = mp3_with_id3v2(4096, b"frames");
    let prefix = &full[..32];
    let file_len = full.len() as u64;
    match locate_audio_bounded(prefix, file_len, None).unwrap() {
        Extent::NeedMore { up_to } => assert_eq!(up_to, 10 + 4096 + 2),
        other @ Extent::Complete(_) => panic!("expected NeedMore, got {other:?}"),
    }
}

#[test]
fn locate_audio_bounded_strips_id3v1_tail() {
    let (mut full, audio_offset) = mp3_with_id3v2(8, b"frames");
    let body_end = full.len();
    full.extend_from_slice(b"TAG");
    full.extend(std::iter::repeat_n(0u8, 125));
    let file_len = full.len() as u64;
    let tail: [u8; 128] = full[full.len() - 128..].try_into().unwrap();
    let prefix = &full[..audio_offset as usize + 2];
    match locate_audio_bounded(prefix, file_len, Some(&tail)).unwrap() {
        Extent::Complete(b) => {
            assert_eq!(b.audio_offset, audio_offset);
            assert_eq!(b.audio_length, body_end as u64 - audio_offset);
        }
        other @ Extent::NeedMore { .. } => panic!("expected Complete, got {other:?}"),
    }
}

#[test]
fn locate_audio_bounded_rejects_audio_start_past_eof() {
    let mut full = b"ID3\x04\x00\x00".to_vec();
    full.extend_from_slice(&syncsafe(8));
    full.extend(std::iter::repeat_n(0u8, 8));
    let file_len = full.len() as u64;
    match locate_audio_bounded(&full, file_len, None) {
        Err(FormatError::NotMp3) => {}
        other => panic!("expected Err(NotMp3), got {other:?}"),
    }
}

#[test]
fn locate_audio_bounded_plain_mp3_no_id3_starts_at_zero() {
    let data = [0xFF, 0xFB, 0x90, 0x00, 1, 2, 3, 4, 5, 6, 7, 8];
    let file_len = data.len() as u64;
    match locate_audio_bounded(&data, file_len, None).unwrap() {
        Extent::Complete(b) => {
            assert_eq!(b.audio_offset, 0);
            assert_eq!(b.audio_length, file_len);
        }
        other @ Extent::NeedMore { .. } => {
            panic!("expected Complete at offset 0, got {other:?}")
        }
    }
}

#[test]
fn locate_audio_bounded_short_non_id3_with_small_file() {
    let data = [0xFF, 0xFB, 0x90, 0x00, 0x00];
    let file_len = data.len() as u64;
    match locate_audio_bounded(&data, file_len, None).unwrap() {
        Extent::Complete(b) => {
            assert_eq!(b.audio_offset, 0);
            assert_eq!(b.audio_length, 5);
        }
        other @ Extent::NeedMore { .. } => panic!("expected Complete, got {other:?}"),
    }
}

#[test]
fn locate_audio_bounded_footer_flag_adds_ten() {
    let body = 6usize;
    let mut full = b"ID3\x04\x00".to_vec();
    full.push(0x10);
    full.extend_from_slice(&syncsafe(body as u32));
    full.extend(std::iter::repeat_n(0u8, body));
    full.extend(std::iter::repeat_n(0u8, 10));
    let expected_offset = full.len() as u64;
    full.extend_from_slice(&[0xFF, 0xFB]);
    full.extend_from_slice(b"audio");
    let file_len = full.len() as u64;
    match locate_audio_bounded(&full, file_len, None).unwrap() {
        Extent::Complete(b) => {
            assert_eq!(b.audio_offset, 26);
            assert_eq!(b.audio_offset, expected_offset);
            assert_eq!(b.audio_length, file_len - 26);
        }
        other @ Extent::NeedMore { .. } => {
            panic!("expected Complete at offset 26, got {other:?}")
        }
    }
}

#[test]
fn locate_audio_bounded_tag_len_equals_file_len_is_notmp3_not_malformed() {
    let body = 8usize;
    let mut full = b"ID3\x04\x00\x00".to_vec();
    full.extend_from_slice(&syncsafe(body as u32));
    full.extend(std::iter::repeat_n(0u8, body));
    let file_len = full.len() as u64;
    match locate_audio_bounded(&full, file_len, None) {
        Err(FormatError::NotMp3) => {}
        other => panic!("expected Err(NotMp3) for tag_len==file_len, got {other:?}"),
    }
}

#[test]
fn locate_audio_bounded_tag_len_exceeds_file_len_is_malformed() {
    let mut full = b"ID3\x04\x00\x00".to_vec();
    full.extend_from_slice(&syncsafe(100));
    full.extend_from_slice(&[0xFF, 0xFB]);
    let file_len = full.len() as u64;
    match locate_audio_bounded(&full, file_len, None) {
        Err(FormatError::Malformed) => {}
        other => panic!("expected Err(Malformed), got {other:?}"),
    }
}

#[test]
fn locate_audio_bounded_short_prefix_large_file_needs_header() {
    let prefix = [0x00, 0x00, 0x00, 0x00, 0x00];
    let file_len = 64u64;
    match locate_audio_bounded(&prefix, file_len, None).unwrap() {
        Extent::NeedMore { up_to } => assert_eq!(up_to, 10),
        other @ Extent::Complete(_) => panic!("expected NeedMore{{up_to:10}}, got {other:?}"),
    }
}

#[test]
fn locate_audio_bounded_prefix_len_exactly_ten_proceeds() {
    let prefix = [0xFF, 0xFB, 0x90, 0x00, 0x00, 0x00, 0x00, 0x00, 0x00, 0x00];
    let file_len = 64u64;
    match locate_audio_bounded(&prefix, file_len, None).unwrap() {
        Extent::Complete(b) => {
            assert_eq!(b.audio_offset, 0);
            assert_eq!(b.audio_length, file_len);
        }
        other @ Extent::NeedMore { .. } => {
            panic!("expected Complete (10<10 false), got {other:?}")
        }
    }
}

#[test]
fn locate_audio_bounded_short_prefix_small_file_proceeds() {
    let data = [0xFF, 0xFB, 0x90, 0x00, 0x00];

    let file_len = 8u64;
    match locate_audio_bounded(&data, file_len, None).unwrap() {
        Extent::Complete(b) => {
            assert_eq!(b.audio_offset, 0);
            assert_eq!(b.audio_length, 8);
        }
        other @ Extent::NeedMore { .. } => {
            panic!("expected Complete (file_len<10), got {other:?}")
        }
    }
}

#[test]
fn locate_audio_bounded_sync_one_byte_past_eof_is_notmp3() {
    let body = 4usize;
    let mut full = b"ID3\x04\x00\x00".to_vec();
    full.extend_from_slice(&syncsafe(body as u32));
    full.extend(std::iter::repeat_n(0u8, body));
    let audio_offset = full.len() as u64;
    full.push(0xFF);

    let file_len = audio_offset + 1;
    match locate_audio_bounded(&full, file_len, None) {
        Err(FormatError::NotMp3) => {}
        other => panic!("expected Err(NotMp3) (sync past EOF), got {other:?}"),
    }
}

#[test]
fn locate_audio_bounded_sync_fits_in_file_proceeds() {
    let (full, audio_offset) = mp3_with_id3v2(4, b"frames");
    let file_len = full.len() as u64;
    match locate_audio_bounded(&full, file_len, None).unwrap() {
        Extent::Complete(b) => assert_eq!(b.audio_offset, audio_offset),
        other @ Extent::NeedMore { .. } => panic!("expected Complete, got {other:?}"),
    }
}

#[test]
fn locate_audio_bounded_sync_exactly_at_eof_proceeds() {
    let body = 4usize;
    let mut full = b"ID3\x04\x00\x00".to_vec();
    full.extend_from_slice(&syncsafe(body as u32));
    full.extend(std::iter::repeat_n(0u8, body));
    let audio_offset = full.len() as u64;
    full.push(0xFF);
    full.push(0xFB);
    let file_len = full.len() as u64;

    match locate_audio_bounded(&full, file_len, None).unwrap() {
        Extent::Complete(b) => {
            assert_eq!(b.audio_offset, audio_offset);
            assert_eq!(b.audio_length, 2);
        }
        other @ Extent::NeedMore { .. } => {
            panic!("expected Complete (exact fit), got {other:?}")
        }
    }
}

#[test]
fn locate_audio_bounded_rejects_bad_second_sync_byte() {
    let data = [
        0xFF, 0x00, 0x90, 0x00, 0x00, 0x00, 0x00, 0x00, 0x00, 0x00, 0x00, 0x00,
    ];
    let file_len = data.len() as u64;
    match locate_audio_bounded(&data, file_len, None) {
        Err(FormatError::NotMp3) => {}
        other => panic!("expected Err(NotMp3) (bad sync byte 1), got {other:?}"),
    }
}

#[test]
fn locate_audio_bounded_rejects_bad_second_sync_byte_after_id3() {
    let body = 4usize;
    let mut full = b"ID3\x04\x00\x00".to_vec();
    full.extend_from_slice(&syncsafe(body as u32));
    full.extend(std::iter::repeat_n(0u8, body));
    full.extend_from_slice(&[0xFF, 0x00]);
    full.extend_from_slice(b"tail");
    let file_len = full.len() as u64;
    match locate_audio_bounded(&full, file_len, None) {
        Err(FormatError::NotMp3) => {}
        other => panic!("expected Err(NotMp3) (bad sync at 15), got {other:?}"),
    }
}

#[test]
fn locate_audio_bounded_needmore_for_sync_past_prefix() {
    let body = 4usize;
    let mut full = b"ID3\x04\x00\x00".to_vec();
    full.extend_from_slice(&syncsafe(body as u32));
    full.extend(std::iter::repeat_n(0u8, body));
    full.extend_from_slice(&[0xFF, 0xFB]);
    full.extend_from_slice(b"more audio bytes here");
    let file_len = full.len() as u64;
    let prefix = &full[..15];
    match locate_audio_bounded(prefix, file_len, None).unwrap() {
        Extent::NeedMore { up_to } => assert_eq!(up_to, 16),
        other @ Extent::Complete(_) => panic!("expected NeedMore{{up_to:16}}, got {other:?}"),
    }
}

#[test]
fn locate_audio_bounded_trims_id3v1_when_tag_and_room() {
    let (mut full, audio_offset) = mp3_with_id3v2(8, b"frames");
    let body_end = full.len();
    full.extend_from_slice(b"TAG");
    full.extend(std::iter::repeat_n(0u8, 125));
    let file_len = full.len() as u64;
    assert!(file_len >= audio_offset + 128);
    let tail: [u8; 128] = full[full.len() - 128..].try_into().unwrap();
    let prefix = &full[..audio_offset as usize + 2];
    match locate_audio_bounded(prefix, file_len, Some(&tail)).unwrap() {
        Extent::Complete(b) => {
            assert_eq!(b.audio_offset, audio_offset);

            assert_eq!(b.audio_length, file_len - audio_offset - 128);
            assert_eq!(b.audio_length, body_end as u64 - audio_offset);
        }
        other @ Extent::NeedMore { .. } => panic!("expected Complete (trimmed), got {other:?}"),
    }
}

#[test]
fn locate_audio_bounded_no_trim_when_tail_not_tag() {
    let (mut full, audio_offset) = mp3_with_id3v2(8, b"frames");

    full.extend(std::iter::repeat_n(0u8, 200));
    let file_len = full.len() as u64;
    assert!(file_len >= audio_offset + 128);
    let tail: [u8; 128] = full[full.len() - 128..].try_into().unwrap();
    assert_ne!(&tail[0..3], b"TAG");
    let prefix = &full[..audio_offset as usize + 2];
    match locate_audio_bounded(prefix, file_len, Some(&tail)).unwrap() {
        Extent::Complete(b) => {
            assert_eq!(b.audio_offset, audio_offset);

            assert_eq!(b.audio_length, file_len - audio_offset);
        }
        other @ Extent::NeedMore { .. } => panic!("expected Complete (no trim), got {other:?}"),
    }
}

#[test]
fn locate_audio_bounded_no_trim_when_no_room_even_with_tag_tail() {
    let (mut full, audio_offset) = mp3_with_id3v2(8, b"frames");

    full.extend_from_slice(b"TAGxx");
    let file_len = full.len() as u64;
    assert!(file_len < audio_offset + 128);

    let mut tail = [0u8; 128];
    tail[0..3].copy_from_slice(b"TAG");
    let prefix = &full[..audio_offset as usize + 2];
    match locate_audio_bounded(prefix, file_len, Some(&tail)).unwrap() {
        Extent::Complete(b) => {
            assert_eq!(b.audio_offset, audio_offset);
            assert_eq!(b.audio_length, file_len - audio_offset);
        }
        other @ Extent::NeedMore { .. } => {
            panic!("expected Complete (no room, no trim), got {other:?}")
        }
    }
}

/// Build a minimal ID3v2.4 tag containing the given frames, with header
/// flags=0 (no unsync, no extended header) and per-frame flags=0 so
/// `id3v2_alloc_safe` accepts it. Used by `read_binary_tags` tests that
/// need a tag without going through the `id3` crate's encoder (which would
/// re-encode `Unknown` bodies and defeat the byte-exact property).
fn build_v24_tag(frames: &[(&[u8; 4], &[u8])]) -> Vec<u8> {
    let total_body: usize = frames.iter().map(|(_, b)| 10 + b.len()).sum();
    let mut out = Vec::new();
    out.extend_from_slice(b"ID3");
    out.extend_from_slice(&[0x04, 0x00, 0x00]);
    out.extend_from_slice(&ss(total_body as u32));
    for (id, body) in frames {
        out.extend_from_slice(*id);
        out.extend_from_slice(&ss(body.len() as u32));
        out.extend_from_slice(&[0x00, 0x00]);
        out.extend_from_slice(body);
    }
    out
}

#[test]
fn read_binary_tags_promotes_popm_and_mbid_and_passes_through_priv() {

    let mut tag = Tag::new();
    tag.add_frame(Popularimeter {
        user: "a@b.c".into(),
        rating: 200,
        counter: 7,
    });
    tag.add_frame(UniqueFileIdentifier {
        owner_identifier: "http://musicbrainz.org".into(),
        identifier: b"mbid-123".to_vec(),
    });
    tag.add_frame(UniqueFileIdentifier {
        owner_identifier: "http://other.example".into(),
        identifier: b"other".to_vec(),
    });
    tag.add_frame(Frame::with_content(
        "PRIV",
        Content::Unknown(Unknown {
            data: vec![9, 8, 7],
            version: Version::Id3v24,
        }),
    ));
    let mut buf = Vec::new();
    Encoder::new()
        .version(Version::Id3v24)
        .encode(&tag, &mut buf)
        .unwrap();

    let (opaque, promoted) = read_binary_tags(&buf);
    assert!(promoted.contains(&("rating".to_string(), "200".to_string())));
    assert!(promoted.contains(&("playcount".to_string(), "7".to_string())));
    assert!(promoted.contains(&("musicbrainz_trackid".to_string(), "mbid-123".to_string())));
    let keys: Vec<&str> = opaque.iter().map(|e| e.key.as_str()).collect();
    assert!(keys.contains(&"PRIV"));

    assert_eq!(keys.iter().filter(|k| **k == "UFID").count(), 1);
    assert_eq!(
        opaque.iter().find(|e| e.key == "PRIV").unwrap().payload,
        vec![9, 8, 7]
    );
}

#[test]
fn read_binary_tags_preserves_geob_body_byte_exact() {
    let geob_body: Vec<u8> = {
        let mut b = vec![0x00];
        b.extend_from_slice(b"application/octet-stream\0");
        b.extend_from_slice(b"Serato Overview\0");
        b.extend_from_slice(b"\0");
        b.extend_from_slice(&[0xDE, 0xAD, 0xBE, 0xEF]);
        b
    };
    let tag = build_v24_tag(&[(b"GEOB", &geob_body)]);

    let (opaque, _promoted) = read_binary_tags(&tag);
    let geob = opaque
        .iter()
        .find(|e| e.key == "GEOB")
        .expect("GEOB preserved");
    assert_eq!(
        geob.payload, geob_body,
        "GEOB body must survive byte-identical"
    );
}

#[test]
fn build_id3v2_segments_rebuilds_popm_ufid_and_streams_opaque() {
    let tags = vec![
        TagInput::new("artist", "A"),
        TagInput::new("rating", "200"),
        TagInput::new("playcount", "7"),
        TagInput::new("musicbrainz_trackid", "mbid-123"),
    ];
    let bin = vec![BinaryTagInput {
        key: "PRIV".into(),
        payload_id: 42,
        len: 3,
    }];
    let (segments, _len) = build_id3v2_segments(&tags, &bin, &[]).unwrap();

    assert!(
        segments.iter().any(|s| matches!(
            s,
            Segment::BinaryTag {
                payload_id: 42,
                len,
            } if len.get() == 3
        )),
        "opaque PRIV must stream as Segment::BinaryTag"
    );

    let inline: Vec<u8> = segments
        .iter()
        .flat_map(|s| match s {
            Segment::Inline(b) => b.clone(),
            _ => Vec::new(),
        })
        .collect();
    assert!(find_sub(&inline, b"POPM"), "POPM not rebuilt");
    assert!(find_sub(&inline, b"UFID"), "UFID not rebuilt");
    assert!(
        find_sub(&inline, b"http://musicbrainz.org"),
        "UFID owner missing"
    );
    assert!(!find_sub(&inline, b"rating"), "promoted key leaked as TXXX");
    assert!(
        !find_sub(&inline, b"musicbrainz_trackid"),
        "promoted key leaked as TXXX"
    );
}

fn find_sub(hay: &[u8], needle: &[u8]) -> bool {
    hay.windows(needle.len()).any(|w| w == needle)
}
