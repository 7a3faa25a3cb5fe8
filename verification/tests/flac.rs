use musefs_format::error::FormatError;
use musefs_format::flac::{BLOCK_APPLICATION, BLOCK_CUESHEET, BLOCK_PICTURE, BLOCK_SEEKTABLE, BLOCK_STREAMINFO, BLOCK_VORBIS_COMMENT, MAX_BLOCK_BODY, MetadataBlock, parse_blocks, parse_picture_block, picture_body_framing, push_block_header, read_metadata_bounded, read_pictures, read_u32_be, read_vorbis_comments, split_preserved, structural_block_type, synthesize_layout};
use musefs_format::input::{ArtInput, BinaryTagInput, TagInput};
use musefs_format::probe::Extent;
use musefs_format::vorbiscomment::build;

fn usize_from(v: u64) -> usize {
    usize::try_from(v).unwrap()
}

/// Build a minimal FLAC: marker + a single last STREAMINFO (type 0, 34-byte
/// body) + `audio` bytes. Returns (full_bytes, audio_offset).
fn flac_with_streaminfo(audio: &[u8]) -> (Vec<u8>, u64) {
    let mut v = b"fLaC".to_vec();
    push_block_header(&mut v, BLOCK_STREAMINFO, 34, true).unwrap();
    v.extend(std::iter::repeat_n(0u8, 34));
    let audio_offset = v.len() as u64;
    v.extend_from_slice(audio);
    (v, audio_offset)
}

#[test]
fn read_metadata_bounded_complete_when_prefix_covers_blocks() {
    let (full, audio_offset) = flac_with_streaminfo(b"AUDIOAUDIO");

    let prefix = &full[..usize_from(audio_offset) + 2];
    match read_metadata_bounded(prefix).unwrap() {
        Extent::Complete(meta) => assert_eq!(meta.audio_offset, audio_offset),
        other @ Extent::NeedMore { .. } => panic!("expected Complete, got {other:?}"),
    }
}

#[test]
fn read_metadata_bounded_needmore_when_block_body_truncated() {
    let (full, audio_offset) = flac_with_streaminfo(b"AUDIO");

    let prefix = &full[..8];
    match read_metadata_bounded(prefix).unwrap() {
        Extent::NeedMore { up_to } => assert_eq!(up_to, audio_offset),
        other @ Extent::Complete(_) => panic!("expected NeedMore, got {other:?}"),
    }
}

#[test]
fn read_u32_be_assembles_big_endian_and_guards_length() {
    let data = [0x11u8, 0x22, 0x33, 0x44, 0x55];
    assert_eq!(read_u32_be(&data, 0).unwrap(), 0x1122_3344);

    assert_eq!(read_u32_be(&data, 1).unwrap(), 0x2233_4455);
    assert_eq!(read_u32_be(&data, 2), Err(FormatError::Malformed));
}

#[test]
fn push_block_header_emits_24bit_length_big_endian() {
    let mut out = Vec::new();
    push_block_header(&mut out, BLOCK_PICTURE, 0x12_3456, false).unwrap();
    assert_eq!(out, vec![BLOCK_PICTURE, 0x12, 0x34, 0x56]);

    let mut last = Vec::new();
    push_block_header(&mut last, BLOCK_VORBIS_COMMENT, 0, true).unwrap();
    assert_eq!(last, vec![0x80 | BLOCK_VORBIS_COMMENT, 0x00, 0x00, 0x00]);
}

/// One FLAC metadata block: 4-byte header (last-flag, type, 24-bit BE length)
/// + body. `len_override` lets a test claim a
///   length different from `body.len()`.
fn raw_block(block_type: u8, body: &[u8], last: bool, len_override: Option<usize>) -> Vec<u8> {
    let n = len_override.unwrap_or(body.len());
    let mut v = vec![(if last { 0x80 } else { 0 }) | (block_type & 0x7F)];
    v.extend_from_slice(&u32::try_from(n).unwrap().to_be_bytes()[1..]);
    v.extend_from_slice(body);
    v
}

/// `fLaC` + the given blocks (no audio).
fn flac_with(blocks: &[Vec<u8>]) -> Vec<u8> {
    let mut f = b"fLaC".to_vec();
    for b in blocks {
        f.extend_from_slice(b);
    }
    f
}

#[test]
fn parse_blocks_rejects_short_and_wrong_marker() {
    assert_eq!(parse_blocks(b"fLa"), Err(FormatError::NotFlac));

    assert_eq!(parse_blocks(b"fLaC"), Err(FormatError::Malformed));
    assert_eq!(parse_blocks(b"XXXX____"), Err(FormatError::NotFlac));
}

#[test]
fn parse_blocks_guards_truncated_block_header() {
    assert_eq!(parse_blocks(b"fLaC\x80"), Err(FormatError::Malformed));
}

#[test]
fn parse_blocks_accepts_header_flush_with_end() {
    let file = flac_with(&[raw_block(BLOCK_STREAMINFO, &[], true, None)]);
    let meta = parse_blocks(&file).unwrap();
    assert_eq!(meta.audio_offset, 8);
}

#[test]
fn parse_blocks_decodes_24bit_length_high_byte() {
    let file = flac_with(&[raw_block(BLOCK_STREAMINFO, &[], true, Some(0x01_0000))]);
    assert_eq!(parse_blocks(&file), Err(FormatError::Malformed));
}

#[test]
fn parse_blocks_preserves_structural_blocks() {
    let si = vec![0xAA; 34];
    let file = flac_with(&[raw_block(BLOCK_STREAMINFO, &si, true, None)]);
    let meta = parse_blocks(&file).unwrap();
    assert_eq!(meta.audio_offset, 4 + 4 + 34);
    assert_eq!(meta.preserved.len(), 1);
    assert_eq!(meta.preserved[0].block_type, BLOCK_STREAMINFO);
    assert_eq!(meta.preserved[0].body, si);
}

/// A VORBIS_COMMENT body: u32-LE vendor length, vendor, u32-LE count, then each
/// comment as u32-LE length + bytes.
fn vc_body(vendor: &str, comments: &[&str]) -> Vec<u8> {
    let mut v = Vec::new();
    v.extend_from_slice(&u32::try_from(vendor.len()).unwrap().to_le_bytes());
    v.extend_from_slice(vendor.as_bytes());
    v.extend_from_slice(&u32::try_from(comments.len()).unwrap().to_le_bytes());
    for c in comments {
        v.extend_from_slice(&u32::try_from(c.len()).unwrap().to_le_bytes());
        v.extend_from_slice(c.as_bytes());
    }
    v
}

#[test]
fn read_vorbis_comments_returns_pairs_and_guards_marker() {
    let vc = vc_body("v", &["TITLE=Hi", "ARTIST=Me"]);
    let file = flac_with(&[raw_block(BLOCK_VORBIS_COMMENT, &vc, true, None)]);
    let got = read_vorbis_comments(&file).unwrap();
    assert_eq!(
        got,
        vec![
            ("title".to_string(), "Hi".to_string()),
            ("artist".to_string(), "Me".to_string()),
        ]
    );

    assert_eq!(read_vorbis_comments(b"fLa"), Err(FormatError::NotFlac));

    assert_eq!(read_vorbis_comments(b"fLaC"), Err(FormatError::Malformed));
}

#[test]
fn read_vorbis_comments_guards_block_walk() {
    assert_eq!(
        read_vorbis_comments(b"fLaC\x80"),
        Err(FormatError::Malformed)
    );

    let file = flac_with(&[raw_block(BLOCK_STREAMINFO, &[], true, None)]);
    assert_eq!(read_vorbis_comments(&file).unwrap(), Vec::new());
}

#[test]
fn read_vorbis_comments_decodes_24bit_length() {
    let hi = flac_with(&[raw_block(BLOCK_STREAMINFO, &[], true, Some(0x01_0000))]);
    assert_eq!(read_vorbis_comments(&hi), Err(FormatError::Malformed));

    let mid = flac_with(&[raw_block(BLOCK_STREAMINFO, &[], true, Some(0x00_0100))]);
    assert_eq!(read_vorbis_comments(&mid), Err(FormatError::Malformed));
}

/// A FLAC PICTURE block body (big-endian fields), independent of production.
fn picture_body(ptype: u32, mime: &str, desc: &str, w: u32, h: u32, data: &[u8]) -> Vec<u8> {
    let mut v = Vec::new();
    v.extend_from_slice(&ptype.to_be_bytes());
    v.extend_from_slice(&u32::try_from(mime.len()).unwrap().to_be_bytes());
    v.extend_from_slice(mime.as_bytes());
    v.extend_from_slice(&u32::try_from(desc.len()).unwrap().to_be_bytes());
    v.extend_from_slice(desc.as_bytes());
    v.extend_from_slice(&w.to_be_bytes());
    v.extend_from_slice(&h.to_be_bytes());
    v.extend_from_slice(&0u32.to_be_bytes());
    v.extend_from_slice(&0u32.to_be_bytes());
    v.extend_from_slice(&u32::try_from(data.len()).unwrap().to_be_bytes());
    v.extend_from_slice(data);
    v
}

#[test]
fn parse_picture_block_roundtrips_fields() {
    let body = picture_body(3, "image/png", "desc", 4, 5, b"PIXELS");
    let p = parse_picture_block(&body).unwrap();
    assert_eq!(p.picture_type.get(), 3);
    assert_eq!(p.mime, "image/png");
    assert_eq!(p.description, "desc");
    assert_eq!(p.width, 4);
    assert_eq!(p.height, 5);
    assert_eq!(p.data, b"PIXELS");
}

#[test]
fn parse_picture_block_guards_field_bounds() {
    let mut bad_mime = 3u32.to_be_bytes().to_vec();
    bad_mime.extend_from_slice(&16u32.to_be_bytes());
    bad_mime.extend_from_slice(b"ab");
    assert_eq!(parse_picture_block(&bad_mime), Err(FormatError::Malformed));

    let mut bad_desc = 3u32.to_be_bytes().to_vec();
    bad_desc.extend_from_slice(&3u32.to_be_bytes());
    bad_desc.extend_from_slice(b"png");
    bad_desc.extend_from_slice(&16u32.to_be_bytes());
    bad_desc.extend_from_slice(b"x");
    assert_eq!(parse_picture_block(&bad_desc), Err(FormatError::Malformed));

    let mut trailing = picture_body(3, "png", "", 1, 1, b"DA");
    trailing.push(0xFF);
    assert!(parse_picture_block(&trailing).is_ok());
}

#[test]
fn read_pictures_extracts_and_guards_marker() {
    let pic = picture_body(3, "image/jpeg", "front", 8, 8, b"IMG");
    let file = flac_with(&[raw_block(BLOCK_PICTURE, &pic, true, None)]);
    let pics = read_pictures(&file).unwrap();
    assert_eq!(pics.len(), 1);
    assert_eq!(pics[0].mime, "image/jpeg");
    assert_eq!(pics[0].data, b"IMG");

    assert_eq!(read_pictures(b"fLa"), Err(FormatError::NotFlac));

    assert_eq!(read_pictures(b"fLaC"), Err(FormatError::Malformed));
}

#[test]
fn read_pictures_guards_block_walk_and_length() {
    assert_eq!(read_pictures(b"fLaC\x80"), Err(FormatError::Malformed));

    let none = flac_with(&[raw_block(BLOCK_STREAMINFO, &[], true, None)]);
    assert_eq!(read_pictures(&none).unwrap(), Vec::new());

    let hi = flac_with(&[raw_block(BLOCK_STREAMINFO, &[], true, Some(0x01_0000))]);
    assert_eq!(read_pictures(&hi), Err(FormatError::Malformed));

    let mid = flac_with(&[raw_block(BLOCK_STREAMINFO, &[], true, Some(0x00_0100))]);
    assert_eq!(read_pictures(&mid), Err(FormatError::Malformed));
}

#[test]
fn bounded_rejects_short_and_wrong_marker() {
    assert_eq!(read_metadata_bounded(b"fLa"), Err(FormatError::NotFlac));

    match read_metadata_bounded(b"fLaC").unwrap() {
        Extent::NeedMore { up_to } => assert_eq!(up_to, 8),
        other @ Extent::Complete(_) => panic!("expected NeedMore{{up_to:8}}, got {other:?}"),
    }

    assert_eq!(read_metadata_bounded(b"XXXX"), Err(FormatError::NotFlac));
}

#[test]
fn bounded_needmore_up_to_is_pos_plus_4_for_truncated_header() {
    let file = flac_with(&[raw_block(BLOCK_STREAMINFO, &[], false, None)]);

    assert_eq!(file.len(), 8);
    match read_metadata_bounded(&file).unwrap() {
        Extent::NeedMore { up_to } => assert_eq!(up_to, 12),
        other @ Extent::Complete(_) => panic!("expected NeedMore{{up_to:12}}, got {other:?}"),
    }
}

#[test]
fn bounded_is_last_flag_continues_past_nonlast_block() {
    let b1 = raw_block(BLOCK_STREAMINFO, &[0xAA, 0xAA], false, None);
    let b2 = raw_block(BLOCK_STREAMINFO, &[0xBB, 0xBB, 0xBB], true, None);
    let file = flac_with(&[b1, b2]);
    let expected_offset = (4 + 6 + 7) as u64;
    match read_metadata_bounded(&file).unwrap() {
        Extent::Complete(meta) => {
            assert_eq!(meta.audio_offset, expected_offset);

            assert_eq!(meta.preserved.len(), 2);
        }
        other @ Extent::NeedMore { .. } => panic!("expected Complete, got {other:?}"),
    }
}

#[test]
fn bounded_block_type_mask_preserves_streaminfo() {
    let body = vec![0x5A; 8];
    let file = flac_with(&[raw_block(BLOCK_STREAMINFO, &body, true, None)]);
    match read_metadata_bounded(&file).unwrap() {
        Extent::Complete(meta) => {
            assert_eq!(meta.preserved.len(), 1);
            assert_eq!(meta.preserved[0].block_type, BLOCK_STREAMINFO);
            assert_eq!(meta.preserved[0].body, body);
        }
        other @ Extent::NeedMore { .. } => panic!("expected Complete, got {other:?}"),
    }
}

#[test]
fn bounded_decodes_24bit_length_exactly() {
    let len = 0x01_0203usize;
    let body = vec![0u8; len];
    let file = flac_with(&[raw_block(BLOCK_STREAMINFO, &body, true, None)]);
    let expected_offset = (4 + 4 + len) as u64;
    match read_metadata_bounded(&file).unwrap() {
        Extent::Complete(meta) => {
            assert_eq!(meta.audio_offset, expected_offset);
        }
        other @ Extent::NeedMore { .. } => panic!("expected Complete, got {other:?}"),
    }
}

#[test]
fn bounded_length_decodes_high_and_mid_bytes() {
    let file = flac_with(&[raw_block(BLOCK_STREAMINFO, &[], true, Some(0x01_0100))]);
    match read_metadata_bounded(&file).unwrap() {
        Extent::NeedMore { up_to } => {
            assert_eq!(up_to, 8 + 0x01_0100);
        }
        other @ Extent::Complete(_) => panic!("expected NeedMore, got {other:?}"),
    }
}

#[test]
fn bounded_body_end_equal_to_prefix_is_complete() {
    let body = vec![0xCC; 6];
    let file = flac_with(&[raw_block(BLOCK_STREAMINFO, &body, true, None)]);
    let total = file.len() as u64;
    match read_metadata_bounded(&file).unwrap() {
        Extent::Complete(meta) => assert_eq!(meta.audio_offset, total),
        other @ Extent::NeedMore { .. } => {
            panic!("expected Complete (exact fit), got {other:?}")
        }
    }
}

#[test]
fn bounded_preserves_all_structural_block_types() {
    let b_si = raw_block(BLOCK_STREAMINFO, &[0x01], false, None);
    let b_app = raw_block(BLOCK_APPLICATION, &[0x02, 0x02], false, None);
    let b_seek = raw_block(BLOCK_SEEKTABLE, &[0x03, 0x03, 0x03], false, None);
    let b_cue = raw_block(BLOCK_CUESHEET, &[0x04], true, None);
    let file = flac_with(&[b_si, b_app, b_seek, b_cue]);
    match read_metadata_bounded(&file).unwrap() {
        Extent::Complete(meta) => {
            let types: Vec<u8> = meta.preserved.iter().map(|b| b.block_type).collect();
            assert_eq!(
                types,
                vec![
                    BLOCK_STREAMINFO,
                    BLOCK_APPLICATION,
                    BLOCK_SEEKTABLE,
                    BLOCK_CUESHEET,
                ]
            );
            assert_eq!(meta.preserved[0].body, vec![0x01]);
            assert_eq!(meta.preserved[1].body, vec![0x02, 0x02]);
            assert_eq!(meta.preserved[2].body, vec![0x03, 0x03, 0x03]);
            assert_eq!(meta.preserved[3].body, vec![0x04]);
        }
        other @ Extent::NeedMore { .. } => panic!("expected Complete, got {other:?}"),
    }
}

#[test]
fn split_preserved_classifies_structural_and_binary() {
    let blocks = vec![
        MetadataBlock {
            block_type: 0,
            body: vec![0xAA],
        },
        MetadataBlock {
            block_type: 2,
            body: b"testDATA".to_vec(),
        },
        MetadataBlock {
            block_type: 3,
            body: vec![0xBB],
        },
        MetadataBlock {
            block_type: 5,
            body: vec![0xCC; 4],
        },
    ];
    let (structural, binary) = split_preserved(&blocks);

    assert_eq!(
        structural,
        vec![
            ("STREAMINFO".to_string(), vec![0xAA]),
            ("SEEKTABLE".to_string(), vec![0xBB]),
        ]
    );
    assert_eq!(binary.len(), 2);
    assert_eq!(binary[0].key, "APPLICATION");
    assert_eq!(binary[0].payload, b"testDATA");
    assert_eq!(binary[1].key, "CUESHEET");
    assert_eq!(binary[1].payload, vec![0xCC; 4]);

    assert_eq!(structural_block_type("STREAMINFO"), Some(0));
    assert_eq!(structural_block_type("SEEKTABLE"), Some(3));
    assert_eq!(structural_block_type("APPLICATION"), None);
    assert_eq!(structural_block_type("bogus"), None);
}

#[test]
fn synthesize_layout_picture_block_size_boundary_is_inclusive() {
    let mk = |data_len: u64| ArtInput {
        art_id: 1,
        mime: "image/png".to_string(),
        description: String::new(),
        picture_type: 3,
        width: 0,
        height: 0,
        data_len,
    };

    let framing_len = picture_body_framing(&mk(0)).unwrap().len() as u64;
    let at_limit = 0x00FF_FFFF - framing_len;

    assert!(synthesize_layout(&[], 0, 0, &[], &[], &[mk(at_limit)]).is_ok());

    assert_eq!(
        synthesize_layout(&[], 0, 0, &[], &[], &[mk(at_limit + 1)]),
        Err(FormatError::TooLarge)
    );
}

#[test]
fn synthesize_layout_vorbis_comment_block_size_boundary_is_inclusive() {
    let overhead = build(&[TagInput::new("title", "")])
        .unwrap()
        .len() as u64;
    let at_limit = "x".repeat(usize_from(MAX_BLOCK_BODY - overhead));
    let tags = [TagInput::new("title", at_limit.as_str())];
    assert!(synthesize_layout(&[], 0, 0, &tags, &[], &[]).is_ok());

    let over = format!("{at_limit}x");
    let tags = [TagInput::new("title", over.as_str())];
    assert_eq!(
        synthesize_layout(&[], 0, 0, &tags, &[], &[]),
        Err(FormatError::TooLarge)
    );
}

#[test]
fn synthesize_layout_binary_tag_block_size_boundary_is_inclusive() {
    let mk = |len: u64| BinaryTagInput {
        key: "APPLICATION".to_string(),
        payload_id: 1,
        len,
    };

    assert!(synthesize_layout(&[], 0, 0, &[], &[mk(0x00FF_FFFF)], &[]).is_ok());

    assert_eq!(
        synthesize_layout(&[], 0, 0, &[], &[mk(0x0100_0000)], &[]),
        Err(FormatError::TooLarge)
    );
}
