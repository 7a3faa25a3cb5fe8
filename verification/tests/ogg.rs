use musefs_format::error::FormatError;
use musefs_format::flac::{MAX_BLOCK_BODY, parse_picture_block, push_block_header};
use musefs_format::input::{ArtInput, TagInput};
use musefs_format::layout::{RegionLayout, Segment};
use musefs_format::ogg::art_source::{ArtSource, MapArtSource};
use musefs_format::ogg::header::{Chaining, Codec, FLAC_LAST_BLOCK, MAX_TAIL_CRC_CHECKS, OGGFLAC_STREAMINFO_POS, OggHeader, PictureDrop, classify_tail, classify_whole, comment_body, comment_packet_index, detect_codec, locate_audio, oggflac_following_packets, read_header, read_metadata, read_metadata_bounded, read_pictures, read_pictures_reporting, read_tags};
use musefs_format::ogg::b64::{b64_window, encode_b64_slice};
use musefs_format::ogg::page::{CAPTURE, verify_page_crc, build_header, lace_packet, parse_page, patch_page_header};
use musefs_format::ogg::synth::{OggArt, build_packets_with_art, oggflac_packets_with_art, picture_prefix, synthesize_layout};
use musefs_format::probe::Extent;
use musefs_format::vorbiscomment::{VENDOR, build, parse};

use base64::Engine;
use std::cell::Cell;

fn usize_from(v: u64) -> usize {
    usize::try_from(v).unwrap()
}

/// An empty VorbisComment body (vendor + zero comments).
fn vorbis_body_empty() -> Vec<u8> {
    build(&[]).unwrap()
}

/// A VorbisComment body carrying `comments` in order.
fn vorbis_body_with(comments: &[(&str, &str)]) -> Vec<u8> {
    let inputs: Vec<TagInput> = comments
        .iter()
        .map(|(k, v)| TagInput::new(k, v))
        .collect();
    build(&inputs).unwrap()
}

/// An art source that records the largest single read.
struct Counting<'a> {
    inner: MapArtSource,
    max: &'a Cell<usize>,
}
impl ArtSource for Counting<'_> {
    fn read_window(&self, art_id: i64, offset: u64, buf: &mut [u8]) -> musefs_format::Result<()> {
        self.max.set(self.max.get().max(buf.len()));
        self.inner.read_window(art_id, offset, buf)
    }
}


fn opus_headers() -> Vec<u8> {
    let head = b"OpusHead\x01\x02\x38\x01\x80\xbb\x00\x00\x00\x00\x00".to_vec();
    let tags = b"OpusTags\x06\x00\x00\x00musefs\x00\x00\x00\x00".to_vec();
    let (bytes, _) = build_header(0x1234, &[&head, &tags]);
    bytes
}

#[test]
fn locate_audio_reports_bounds() {
    let mut data = opus_headers();
    let header_len = data.len();
    let (audio, _) = lace_packet(0x1234, 2, false, 960, &[0u8; 120]);
    data.extend_from_slice(&audio);

    let scan = locate_audio(&data).unwrap();
    assert_eq!(scan.codec, Codec::Opus);
    assert_eq!(scan.audio_offset, header_len as u64);
    assert_eq!(scan.audio_length, (data.len() - header_len) as u64);
}

#[test]
fn reads_opus_header() {
    let mut data = opus_headers();

    let (audio, _) = lace_packet(0x1234, 2, false, 960, &[0u8; 100]);
    let header_len = data.len();
    data.extend_from_slice(&audio);

    let h = read_header(&data).unwrap();
    assert_eq!(h.codec, Codec::Opus);
    assert_eq!(h.serial, 0x1234);
    assert_eq!(h.packets.len(), 2);
    assert_eq!(h.audio_offset, header_len as u64);
    assert_eq!(h.header_pages, 2);
}

#[test]
fn oggflac_following_packets_accepts_minimal_9_byte_packet() {
    let mut pkt = [0u8; 9];
    pkt[7] = 0x00;
    pkt[8] = 0x03;
    assert_eq!(oggflac_following_packets(&pkt).unwrap(), 3);
}

#[test]
fn comment_body_accepts_packet_with_empty_body() {
    assert!(comment_body(Codec::Opus, b"OpusTags").unwrap().is_empty());
}

#[test]
fn read_tags_opus() {
    let body =
        build(&[TagInput::new("title", "Sun")]).unwrap();
    let mut tags_pkt = b"OpusTags".to_vec();
    tags_pkt.extend_from_slice(&body);
    let head = b"OpusHead\x01\x02\x38\x01\x80\xbb\x00\x00\x00\x00\x00".to_vec();
    let (mut data, _) = build_header(7, &[&head, &tags_pkt]);
    let (audio, _) = lace_packet(7, 2, false, 960, &[0u8; 50]);
    data.extend_from_slice(&audio);

    let tags = read_tags(&data).unwrap();
    assert_eq!(tags, vec![("title".to_string(), "Sun".to_string())]);
}

#[test]
fn read_tags_excludes_metadata_block_picture() {
    let mut block = Vec::new();
    block.extend_from_slice(&3u32.to_be_bytes());
    block.extend_from_slice(&9u32.to_be_bytes());
    block.extend_from_slice(b"image/png");
    block.extend_from_slice(&0u32.to_be_bytes());
    block.extend_from_slice(&1u32.to_be_bytes());
    block.extend_from_slice(&1u32.to_be_bytes());
    block.extend_from_slice(&8u32.to_be_bytes());
    block.extend_from_slice(&0u32.to_be_bytes());
    block.extend_from_slice(&1u32.to_be_bytes());
    block.push(0xAB);
    let pic_value = base64::engine::general_purpose::STANDARD.encode(&block);

    let body = build(&[
        TagInput::new("title", "Sun"),
        TagInput::new("METADATA_BLOCK_PICTURE", &pic_value),
    ])
    .unwrap();
    let mut tags_pkt = b"OpusTags".to_vec();
    tags_pkt.extend_from_slice(&body);
    let head = b"OpusHead\x01\x02\x38\x01\x80\xbb\x00\x00\x00\x00\x00".to_vec();
    let (mut data, _) = build_header(7, &[&head, &tags_pkt]);
    let (audio, _) = lace_packet(7, 2, false, 960, &[0u8; 50]);
    data.extend_from_slice(&audio);

    let tags = read_tags(&data).unwrap();
    assert_eq!(tags, vec![("title".to_string(), "Sun".to_string())]);

    let pics = read_pictures(&data).unwrap();
    assert_eq!(pics.len(), 1);
    assert_eq!(pics[0].data, vec![0xAB]);
}

/// A FLAC PICTURE block body (the payload a `METADATA_BLOCK_PICTURE` value
/// base64-encodes) carrying a PNG of `len` bytes, every one of them `marker`.
fn picture_block_n(marker: u8, len: usize) -> Vec<u8> {
    let mut block = Vec::new();
    block.extend_from_slice(&3u32.to_be_bytes());
    block.extend_from_slice(&9u32.to_be_bytes());
    block.extend_from_slice(b"image/png");
    block.extend_from_slice(&0u32.to_be_bytes());
    block.extend_from_slice(&1u32.to_be_bytes());
    block.extend_from_slice(&1u32.to_be_bytes());
    block.extend_from_slice(&8u32.to_be_bytes());
    block.extend_from_slice(&0u32.to_be_bytes());
    block.extend_from_slice(&u32::try_from(len).unwrap().to_be_bytes());
    block.extend(std::iter::repeat_n(marker, len));
    block
}

/// [`picture_block_n`] with a single image byte.
fn picture_block(marker: u8) -> Vec<u8> {
    picture_block_n(marker, 1)
}

/// A complete Opus file whose comment packet carries `comments`, plus one
/// audio page so `audio_offset` lands before EOF.
fn opus_with_comments(comments: &[(&str, &str)]) -> Vec<u8> {
    let inputs: Vec<TagInput> = comments
        .iter()
        .map(|(k, v)| TagInput::new(k, v))
        .collect();
    let mut tags_pkt = b"OpusTags".to_vec();
    tags_pkt.extend_from_slice(&build(&inputs).unwrap());
    let head = b"OpusHead\x01\x02\x38\x01\x80\xbb\x00\x00\x00\x00\x00".to_vec();
    let (mut data, _) = build_header(7, &[&head, &tags_pkt]);
    let (audio, _) = lace_packet(7, 2, false, 960, &[0u8; 50]);
    data.extend_from_slice(&audio);
    data
}

/// Wrap `s` at 76 columns with CRLF, the older MIME base64 style.
fn wrap76(s: &str) -> String {
    s.as_bytes()
        .chunks(76)
        .map(|c| std::str::from_utf8(c).unwrap())
        .collect::<Vec<_>>()
        .join("\r\n")
}

#[test]
fn read_pictures_accepts_whitespace_wrapped_base64() {
    let value = base64::engine::general_purpose::STANDARD.encode(picture_block_n(0xAB, 200));
    let wrapped = wrap76(&value);
    assert!(wrapped.contains("\r\n"), "test value must actually wrap");

    let data = opus_with_comments(&[("METADATA_BLOCK_PICTURE", &wrapped)]);
    let (pics, dropped) = read_pictures_reporting(&data).unwrap();
    assert_eq!(dropped, vec![]);
    assert_eq!(pics.len(), 1);
    assert_eq!(pics[0].data, vec![0xAB; 200]);
}

#[test]
fn read_pictures_skips_one_bad_value_and_keeps_the_others() {
    let good_a = base64::engine::general_purpose::STANDARD.encode(picture_block(0xAA));
    let good_b = base64::engine::general_purpose::STANDARD.encode(picture_block(0xBB));
    let data = opus_with_comments(&[
        ("METADATA_BLOCK_PICTURE", "not!valid!base64"),
        ("METADATA_BLOCK_PICTURE", &good_a),
        ("METADATA_BLOCK_PICTURE", &good_b),
    ]);

    let (pics, dropped) = read_pictures_reporting(&data).unwrap();
    assert_eq!(pics.len(), 2);
    assert_eq!(pics[0].data, vec![0xAA]);
    assert_eq!(pics[1].data, vec![0xBB]);
    assert_eq!(
        dropped,
        vec![PictureDrop {
            reason: "undecodable base64",
            bytes: "not!valid!base64".len(),
        }]
    );
}

#[test]
fn read_pictures_reports_a_decodable_but_malformed_picture_block() {
    let truncated = base64::engine::general_purpose::STANDARD.encode([0u8; 3]);
    let good = base64::engine::general_purpose::STANDARD.encode(picture_block(0xCD));
    let data = opus_with_comments(&[
        ("METADATA_BLOCK_PICTURE", &truncated),
        ("METADATA_BLOCK_PICTURE", &good),
    ]);

    let (pics, dropped) = read_pictures_reporting(&data).unwrap();
    assert_eq!(pics.len(), 1);
    assert_eq!(pics[0].data, vec![0xCD]);
    assert_eq!(
        dropped,
        vec![PictureDrop {
            reason: "malformed PICTURE block",
            bytes: 3,
        }]
    );
}

#[test]
fn read_pictures_ignores_oggflac_packets_that_are_not_pictures() {
    let mut mapping = vec![0x7F];
    mapping.extend_from_slice(b"FLAC");
    mapping.push(1);
    mapping.push(0);
    mapping.extend_from_slice(&1u16.to_be_bytes());
    mapping.extend_from_slice(b"fLaC");
    let mut streaminfo = Vec::new();
    push_block_header(&mut streaminfo, 0, 34, false).unwrap();
    streaminfo.extend(std::iter::repeat_n(0u8, 34));
    mapping.extend_from_slice(&streaminfo);

    let mut comment = Vec::new();
    push_block_header(&mut comment, 4, 8, true).unwrap();
    comment.extend(std::iter::repeat_n(0u8, 8));

    let (data, _) = build_header(78, &[&mapping, &comment]);
    assert_eq!(read_header(&data).unwrap().codec, Codec::OggFlac);

    let (pics, dropped) = read_pictures_reporting(&data).unwrap();
    assert!(pics.is_empty());
    assert_eq!(
        dropped,
        vec![],
        "a non-picture block is not a dropped picture"
    );
}

#[test]
fn read_pictures_still_errors_on_a_malformed_container() {
    assert!(read_pictures_reporting(b"not an ogg stream").is_err());
}

#[test]
fn synthesize_opus_emits_valid_header_and_audio_segment() {
    let mut data = opus_headers();
    let scan = locate_audio({
        let (audio, _) = lace_packet(0x1234, 2, false, 960, &[0u8; 80]);
        data.extend_from_slice(&audio);
        &data
    })
    .unwrap();
    let header = read_metadata(&data[..usize_from(scan.audio_offset)]).unwrap();

    let layout = synthesize_layout(
        &header,
        scan.audio_offset,
        scan.audio_length,
        &[TagInput::new("album", "Geogaddi")],
        &[],
        &MapArtSource::default(),
    )
    .unwrap();

    let mut header_bytes: Vec<u8> = Vec::new();
    let mut audio_seg = None;
    for seg in layout.segments() {
        match seg {
            Segment::Inline(b) => header_bytes.extend_from_slice(b),
            Segment::OggAudio { offset, len, .. } => {
                audio_seg = Some((*offset, *len));
                break;
            }
            other => panic!("unexpected segment {other:?}"),
        }
    }
    let h = read_header(&header_bytes).unwrap();
    assert_eq!(h.codec, Codec::Opus);
    let body = comment_body(Codec::Opus, &h.packets[1]).unwrap();
    let tags = parse(body).unwrap();
    assert_eq!(tags, vec![("album".to_string(), "Geogaddi".to_string())]);
    let (offset, len) = audio_seg.expect("expected OggAudio segment");
    assert_eq!(offset, scan.audio_offset);
    assert_eq!(len, scan.audio_length);
}

#[test]
fn synthesize_emits_nonzero_seq_delta_when_header_page_count_changes() {
    let mut data = opus_headers();
    let (audio, _) = lace_packet(0x1234, 2, false, 960, &[0u8; 80]);
    data.extend_from_slice(&audio);
    let scan = locate_audio(&data).unwrap();
    let mut header =
        read_metadata(&data[..usize_from(scan.audio_offset)]).unwrap();

    let baseline = synthesize_layout(
        &header,
        scan.audio_offset,
        scan.audio_length,
        &[],
        &[],
        &MapArtSource::default(),
    )
    .unwrap();
    let synth_pages = baseline
        .segments()
        .iter()
        .filter(|s| matches!(s, Segment::Inline(_)))
        .count();
    assert!(synth_pages >= 1);

    let original_pages = u32::try_from(synth_pages).unwrap() + 3;
    header.header_pages = original_pages;
    let layout = synthesize_layout(
        &header,
        scan.audio_offset,
        scan.audio_length,
        &[],
        &[],
        &MapArtSource::default(),
    )
    .unwrap();
    let delta = layout
        .segments()
        .iter()
        .find_map(|s| match s {
            Segment::OggAudio { seq_delta, .. } => Some(*seq_delta),
            _ => None,
        })
        .expect("expected an OggAudio segment");
    assert_eq!(
        delta,
        i64::try_from(synth_pages).unwrap() - i64::from(original_pages),
        "seq_delta must be synthesized pages minus original header pages"
    );
    assert_eq!(delta, -3);
}

fn vorbis_headers_with(setup: &[u8]) -> Vec<u8> {
    let mut id = b"\x01vorbis".to_vec();
    id.extend_from_slice(&0u32.to_le_bytes());
    id.push(2);
    id.extend_from_slice(&44100u32.to_le_bytes());
    id.extend_from_slice(&0u32.to_le_bytes());
    id.extend_from_slice(&128_000u32.to_le_bytes());
    id.extend_from_slice(&0u32.to_le_bytes());
    id.push(0xB8);
    id.push(0x01);
    let mut comment = b"\x03vorbis".to_vec();
    comment.extend_from_slice(&build(&[]).unwrap());
    comment.push(0x01);
    let (bytes, _) = build_header(55, &[&id, &comment, setup]);
    bytes
}

#[test]
fn synthesize_vorbis_preserves_setup_and_rewrites_comment() {
    let setup = b"\x05vorbis-SETUP-CODEBOOKS-PLACEHOLDER".to_vec();
    let mut data = vorbis_headers_with(&setup);
    let (audio, _) = lace_packet(55, 99, false, 1024, &[0u8; 64]);
    data.extend_from_slice(&audio);

    let scan = locate_audio(&data).unwrap();
    assert_eq!(scan.codec, Codec::Vorbis);
    let header = read_metadata(&data[..usize_from(scan.audio_offset)]).unwrap();

    assert_eq!(header.packets[2], setup);

    let layout = synthesize_layout(
        &header,
        scan.audio_offset,
        scan.audio_length,
        &[TagInput::new("artist", "Autechre")],
        &[],
        &MapArtSource::default(),
    )
    .unwrap();

    let mut header_bytes: Vec<u8> = Vec::new();
    for seg in layout.segments() {
        match seg {
            Segment::Inline(b) => header_bytes.extend_from_slice(b),
            Segment::OggAudio { .. } => break,
            other => panic!("unexpected segment {other:?}"),
        }
    }
    let h = read_header(&header_bytes).unwrap();
    assert_eq!(h.codec, Codec::Vorbis);
    assert_eq!(h.packets[2], setup);
    let body = comment_body(Codec::Vorbis, &h.packets[1]).unwrap();
    let tags = parse(body).unwrap();
    assert_eq!(tags, vec![("artist".to_string(), "Autechre".to_string())]);
}

#[test]
fn read_pictures_opus_decodes_metadata_block_picture() {

    let mut pic = Vec::new();
    pic.extend_from_slice(&3u32.to_be_bytes());
    let mime = b"image/png";
    pic.extend_from_slice(&u32::try_from(mime.len()).unwrap().to_be_bytes());
    pic.extend_from_slice(mime);
    pic.extend_from_slice(&0u32.to_be_bytes());
    pic.extend_from_slice(&1u32.to_be_bytes());
    pic.extend_from_slice(&1u32.to_be_bytes());
    pic.extend_from_slice(&0u32.to_be_bytes());
    pic.extend_from_slice(&0u32.to_be_bytes());
    let img = b"PNG";
    pic.extend_from_slice(&u32::try_from(img.len()).unwrap().to_be_bytes());
    pic.extend_from_slice(img);
    let b64 = base64::engine::general_purpose::STANDARD.encode(&pic);

    let mut body = Vec::new();
    body.extend_from_slice(
        &u32::try_from(VENDOR.len())
            .unwrap()
            .to_le_bytes(),
    );
    body.extend_from_slice(VENDOR.as_bytes());
    body.extend_from_slice(&1u32.to_le_bytes());
    let comment = format!("METADATA_BLOCK_PICTURE={b64}");
    body.extend_from_slice(&u32::try_from(comment.len()).unwrap().to_le_bytes());
    body.extend_from_slice(comment.as_bytes());

    let mut tags_pkt = b"OpusTags".to_vec();
    tags_pkt.extend_from_slice(&body);
    let head = b"OpusHead\x01\x02\x38\x01\x80\xbb\x00\x00\x00\x00\x00".to_vec();
    let (mut data, _) = build_header(7, &[&head, &tags_pkt]);
    let (audio, _) = lace_packet(7, 2, false, 960, &[0u8; 50]);
    data.extend_from_slice(&audio);

    let pics = read_pictures(&data).unwrap();
    assert_eq!(pics.len(), 1);
    assert_eq!(pics[0].mime, "image/png");
    assert_eq!(pics[0].data, b"PNG");
}

#[test]
fn read_pictures_oggflac_short_picture_packet_does_not_panic() {
    let mut mapping = vec![0x7F];
    mapping.extend_from_slice(b"FLAC");
    mapping.push(1);
    mapping.push(0);
    mapping.extend_from_slice(&1u16.to_be_bytes());
    mapping.extend_from_slice(b"fLaC");
    let mut streaminfo = Vec::new();
    push_block_header(&mut streaminfo, 0, 34, false).unwrap();
    streaminfo.extend(std::iter::repeat_n(0u8, 34));
    mapping.extend_from_slice(&streaminfo);

    let short_picture = vec![0x06u8];

    let (data, _) = build_header(77, &[&mapping, &short_picture]);

    assert_eq!(read_header(&data).unwrap().codec, Codec::OggFlac);
    let (pics, dropped) = read_pictures_reporting(&data).unwrap();
    assert!(pics.is_empty());

    assert_eq!(
        dropped,
        vec![PictureDrop {
            reason: "truncated PICTURE block header",
            bytes: 1,
        }]
    );
}

fn oggflac_headers() -> Vec<u8> {
    let mut streaminfo = Vec::new();
    push_block_header(&mut streaminfo, 0, 34, false).unwrap();
    streaminfo.extend(std::iter::repeat_n(0u8, 34));

    let mut mapping = vec![0x7F];
    mapping.extend_from_slice(b"FLAC");
    mapping.push(1);
    mapping.push(0);
    mapping.extend_from_slice(&2u16.to_be_bytes());
    mapping.extend_from_slice(b"fLaC");
    mapping.extend_from_slice(&streaminfo);

    let mut seektable = Vec::new();
    push_block_header(&mut seektable, 3, 18, false).unwrap();
    seektable.extend(std::iter::repeat_n(0xEEu8, 18));

    let mut old_vc = Vec::new();
    let body = build(&[TagInput::new("x", "old")]).unwrap();
    push_block_header(&mut old_vc, 4, body.len(), true).unwrap();
    old_vc.extend_from_slice(&body);

    let (bytes, _) = build_header(77, &[&mapping, &seektable, &old_vc]);
    bytes
}

#[test]
fn rejects_multiplexed_second_bitstream() {
    let head = b"OpusHead\x01\x02\x38\x01\x80\xbb\x00\x00\x00\x00\x00".to_vec();
    let (mut data, _) = lace_packet(0x1111, 0, true, 0, &head);

    let (other, _) = lace_packet(
        0x2222,
        0,
        true,
        0,
        b"OpusHead\x01\x02\x38\x01\x80\xbb\x00\x00\x00\x00\x00".as_ref(),
    );
    data.extend_from_slice(&other);

    let (audio, _) = lace_packet(0x1111, 1, false, 960, &[0u8; 50]);
    data.extend_from_slice(&audio);
    assert!(read_header(&data).is_err());
    assert!(locate_audio(&data).is_err());
}

/// Stream A (the `opus_headers` bitstream, serial 0x1234) complete, then a
/// whole second logical bitstream appended under its own serial — a chain, in
/// the shape RFC 3533 defines. Returns the file and stream A's length.
fn chained_opus() -> (Vec<u8>, usize) {
    let mut data = opus_headers();
    let (audio, _) = lace_packet(0x1234, 2, false, 960, &[0u8; 120]);
    data.extend_from_slice(&audio);
    let stream_a_len = data.len();

    let head = b"OpusHead\x01\x02\x38\x01\x80\xbb\x00\x00\x00\x00\x00".to_vec();
    let tags = b"OpusTags\x06\x00\x00\x00musefs\x00\x00\x00\x00".to_vec();
    let (b_header, b_pages) = build_header(0x5678, &[&head, &tags]);
    data.extend_from_slice(&b_header);
    let (b_audio, _) = lace_packet(0x5678, b_pages, false, 960, &[1u8; 120]);
    data.extend_from_slice(&b_audio);
    (data, stream_a_len)
}

#[test]
fn rejects_chained_second_bitstream() {
    let (data, stream_a_len) = chained_opus();

    assert!(read_header(&data).is_ok());
    assert_eq!(classify_whole(&data, 0x1234), Chaining::Chained);
    assert!(locate_audio(&data).is_err());

    assert!(locate_audio(&data[..stream_a_len]).is_ok());
}

#[test]
fn classify_tail_works_from_a_window_anchored_mid_file() {
    let (data, _) = chained_opus();
    let start = data.len() - 200;
    assert_eq!(
        classify_tail(&data[start..], start as u64, 0x1234),
        Chaining::Chained
    );

    let short = data.len() - 64;
    assert_eq!(
        classify_tail(&data[short..], short as u64, 0x1234),
        Chaining::Unknown
    );
}

#[test]
fn classify_tail_rejects_ogg_captures_that_are_not_the_final_page() {
    let mut tail = vec![0u8; 4096];
    for i in 0..tail.len() - 27 {
        tail[i..i + 4].copy_from_slice(&CAPTURE);
    }
    assert_eq!(classify_tail(&tail, 0, 0x1234), Chaining::Unknown);
}

#[test]
fn classify_whole_covers_a_file_that_is_a_single_page() {
    let (page, _) = lace_packet(0x1234, 0, true, 0, &[7u8; 40]);
    assert_eq!(classify_whole(&page, 0x1234), Chaining::Single);
    assert_eq!(classify_whole(&page, 0x5678), Chaining::Chained);
}

/// One valid page of serial 0x5678 whose payload hides `decoys` fake page
/// headers, each declaring a length that lands exactly on EOF so only the CRC
/// can reject it. The backward scan meets every decoy before the real page.
fn tail_with_decoys(decoys: usize) -> Vec<u8> {
    let stride = 300usize;
    let payload = vec![0u8; stride * (decoys + 1)];
    let (mut page, _) = lace_packet(0x5678, 9, false, 0, &payload);
    let h = parse_page(&page, 0).unwrap();
    let len = page.len();

    for k in 1..=decoys {
        let i = len - k * stride;
        assert!(
            i >= h.header_len,
            "decoys must not overwrite the real header"
        );
        page[i..i + 4].copy_from_slice(&CAPTURE);
        page[i + 4] = 0;
        page[i + 5] = 0;

        page[i + 26] = 255;
        let mut left = len - i - 27 - 255;
        for seg in 0..255usize {
            let v = left.min(255);
            page[i + 27 + seg] = u8::try_from(v).expect("v <= 255");
            left -= v;
        }
        assert_eq!(left, 0, "decoy payload must fit one page's lacing table");
        assert_eq!(parse_page(&page, i).unwrap().total_len(), len - i);
    }

    let patched = patch_page_header(&page, h.seq).unwrap();
    page[..h.header_len].copy_from_slice(&patched);
    assert!(verify_page_crc(&page).unwrap());
    page
}

#[test]
fn classify_tail_stops_after_a_bounded_number_of_crc_checks() {
    let within = tail_with_decoys(MAX_TAIL_CRC_CHECKS - 1);
    assert_eq!(classify_tail(&within, 0, 0x1234), Chaining::Chained);
    assert_eq!(classify_tail(&within, 0, 0x5678), Chaining::Single);

    let past = tail_with_decoys(MAX_TAIL_CRC_CHECKS);
    assert_eq!(classify_tail(&past, 0, 0x1234), Chaining::Unknown);
}

#[test]
fn truncated_stream_is_not_mistaken_for_a_chain() {
    let mut data = opus_headers();
    let (audio, _) = lace_packet(0x1234, 2, false, 960, &[0u8; 120]);
    data.extend_from_slice(&audio);
    data.truncate(data.len() - 7);
    assert_eq!(classify_whole(&data, 0x1234), Chaining::Unknown);
    assert!(locate_audio(&data).is_ok());
}

#[test]
fn a_whole_single_stream_classifies_as_single() {
    let mut data = opus_headers();
    let (audio, _) = lace_packet(0x1234, 2, false, 960, &[0u8; 120]);
    data.extend_from_slice(&audio);
    assert_eq!(classify_whole(&data, 0x1234), Chaining::Single);
}

#[test]
fn synthesize_oggflac_keeps_seektable_replaces_comment_and_count() {
    let mut data = oggflac_headers();
    let (audio, _) = lace_packet(77, 3, false, 4096, &[0u8; 64]);
    data.extend_from_slice(&audio);

    let scan = locate_audio(&data).unwrap();
    assert_eq!(scan.codec, Codec::OggFlac);
    let header = read_metadata(&data[..usize_from(scan.audio_offset)]).unwrap();

    let layout = synthesize_layout(
        &header,
        scan.audio_offset,
        scan.audio_length,
        &[TagInput::new("title", "Kaini Industries")],
        &[],
        &MapArtSource::default(),
    )
    .unwrap();

    let mut header_bytes: Vec<u8> = Vec::new();
    for seg in layout.segments() {
        match seg {
            Segment::Inline(b) => header_bytes.extend_from_slice(b),
            Segment::OggAudio { .. } => break,
            other => panic!("unexpected segment {other:?}"),
        }
    }
    let h = read_header(&header_bytes).unwrap();
    assert_eq!(h.codec, Codec::OggFlac);

    assert_eq!(u16::from_be_bytes([h.packets[0][7], h.packets[0][8]]), 2);

    assert!(h.packets.iter().skip(1).any(|p| (p[0] & 0x7F) == 3));

    let vc = h
        .packets
        .iter()
        .skip(1)
        .find(|p| (p[0] & 0x7F) == 4)
        .unwrap();
    assert_eq!(vc[0] & 0x80, 0x80);
    let tags = parse(&vc[4..]).unwrap();
    assert_eq!(
        tags,
        vec![("title".to_string(), "Kaini Industries".to_string())]
    );
}

/// Build an OggFLAC file: a mapping packet declaring `declared` following
/// packets with STREAMINFO flagged `streaminfo_last`, then `blocks` as one
/// metadata packet each, then one audio page. Returns the file and the byte
/// length of its header region.
fn oggflac_file(declared: u16, streaminfo_last: bool, blocks: &[Vec<u8>]) -> (Vec<u8>, usize) {
    let mut streaminfo = Vec::new();
    push_block_header(&mut streaminfo, 0, 34, streaminfo_last).unwrap();
    streaminfo.extend(std::iter::repeat_n(0u8, 34));

    let mut mapping = vec![0x7F];
    mapping.extend_from_slice(b"FLAC");
    mapping.push(1);
    mapping.push(0);
    mapping.extend_from_slice(&declared.to_be_bytes());
    mapping.extend_from_slice(b"fLaC");
    mapping.extend_from_slice(&streaminfo);

    let mut packets: Vec<&[u8]> = vec![&mapping];
    packets.extend(blocks.iter().map(Vec::as_slice));
    let (header, pages) = build_header(77, &packets);
    let header_len = header.len();

    let mut data = header;

    let (audio, _) =
        lace_packet(77, pages, false, 4096, &[0xFFu8, 0xF8, 0x69, 0x18]);
    data.extend_from_slice(&audio);
    (data, header_len)
}

fn vorbis_comment_block(last: bool, title: &str) -> Vec<u8> {
    let body =
        build(&[TagInput::new("title", title)]).unwrap();
    let mut blk = Vec::new();
    push_block_header(&mut blk, 4, body.len(), last).unwrap();
    blk.extend_from_slice(&body);
    blk
}

#[test]
fn oggflac_unknown_count_discovers_the_header_run() {
    let blocks = vec![vorbis_comment_block(true, "RealTitle")];
    let (unknown, header_len) = oggflac_file(0, false, &blocks);
    let (declared, _) = oggflac_file(1, false, &blocks);

    let h = read_header(&unknown).unwrap();
    assert_eq!(h.codec, Codec::OggFlac);
    assert_eq!(h.packets.len(), 2, "mapping packet + VORBIS_COMMENT");
    assert_eq!(h.audio_offset, header_len as u64);
    assert_eq!(
        read_tags(&unknown).unwrap(),
        vec![("title".to_string(), "RealTitle".to_string())]
    );

    let d = read_header(&declared).unwrap();
    assert_eq!(h.packets[1..], d.packets[1..]);
    assert_eq!(
        (h.header_pages, h.audio_offset),
        (d.header_pages, d.audio_offset)
    );
    assert_eq!(
        locate_audio(&unknown).unwrap(),
        locate_audio(&declared).unwrap()
    );
}

#[test]
fn oggflac_unknown_count_walks_past_blocks_that_are_not_last() {
    let seektable = {
        let mut b = Vec::new();
        push_block_header(&mut b, 3, 18, false).unwrap();
        b.extend(std::iter::repeat_n(0xEEu8, 18));
        b
    };
    let blocks = vec![seektable, vorbis_comment_block(true, "RealTitle")];
    let (data, header_len) = oggflac_file(0, false, &blocks);

    let h = read_header(&data).unwrap();
    assert_eq!(h.packets.len(), 3, "mapping + SEEKTABLE + VORBIS_COMMENT");
    assert_eq!(h.audio_offset, header_len as u64);
    assert_eq!(
        read_tags(&data).unwrap(),
        vec![("title".to_string(), "RealTitle".to_string())]
    );
}

#[test]
fn oggflac_unknown_count_ends_at_a_streaminfo_flagged_last() {
    let (data, header_len) = oggflac_file(0, true, &[]);
    let h = read_header(&data).unwrap();
    assert_eq!(h.packets.len(), 1);
    assert_eq!(h.audio_offset, header_len as u64);
    assert_eq!(read_tags(&data).unwrap(), Vec::new());
}

#[test]
fn oggflac_run_that_never_flags_its_last_block_is_malformed() {
    let (data, _) = oggflac_file(0, false, &[vorbis_comment_block(false, "T")]);
    assert!(read_header(&data).is_err());
    assert!(locate_audio(&data).is_err());
}

#[test]
fn synthesize_oggflac_from_unknown_count_clears_the_streaminfo_last_flag() {
    let (data, _) = oggflac_file(0, true, &[]);
    let scan = locate_audio(&data).unwrap();
    let header = read_metadata(&data[..usize_from(scan.audio_offset)]).unwrap();
    let layout = synthesize_layout(
        &header,
        scan.audio_offset,
        scan.audio_length,
        &[TagInput::new("title", "Kaini Industries")],
        &[],
        &MapArtSource::default(),
    )
    .unwrap();

    let mut header_bytes: Vec<u8> = Vec::new();
    for seg in layout.segments() {
        match seg {
            Segment::Inline(b) => header_bytes.extend_from_slice(b),
            Segment::OggAudio { .. } => break,
            other => panic!("unexpected segment {other:?}"),
        }
    }
    let h = read_header(&header_bytes).unwrap();
    assert_eq!(
        h.packets[0][OGGFLAC_STREAMINFO_POS] & FLAC_LAST_BLOCK,
        0,
        "STREAMINFO is no longer the last metadata block"
    );
    assert_eq!(u16::from_be_bytes([h.packets[0][7], h.packets[0][8]]), 1);
    assert_eq!(
        read_tags(&header_bytes).unwrap(),
        vec![("title".to_string(), "Kaini Industries".to_string())]
    );
}

#[test]
fn synthesize_opus_embeds_art_that_round_trips() {
    let mut data = opus_headers();
    let (audio, _) = lace_packet(0x1234, 2, false, 960, &[0u8; 80]);
    data.extend_from_slice(&audio);
    let scan = locate_audio(&data).unwrap();
    let header = read_metadata(&data[..usize_from(scan.audio_offset)]).unwrap();

    let image: Vec<u8> = (0..5000u32).map(|i| (i % 251) as u8).collect();
    let meta = ArtInput {
        art_id: 7,
        mime: "image/jpeg".to_string(),
        description: String::new(),
        picture_type: 3,
        width: 64,
        height: 64,
        data_len: image.len() as u64,
    };
    let src = MapArtSource::new(vec![(meta.art_id, image.clone())]);
    let layout = synthesize_layout(
        &header,
        scan.audio_offset,
        scan.audio_length,
        &[TagInput::new("title", "Cover")],
        &[OggArt { meta: &meta }],
        &src,
    )
    .unwrap();

    let mut bytes = Vec::new();
    for s in layout.segments() {
        match s {
            Segment::Inline(b) => bytes.extend_from_slice(b),
            Segment::OggArtSlice {
                offset,
                len,
                base64,
                art_total,
                ..
            } => {
                assert!(*base64);
                let w = b64_window(*offset, len.get(), *art_total);
                let raw = &image[usize_from(w.in_start)
                    ..usize_from(w.in_start + w.in_len)];
                bytes.extend_from_slice(
                    &encode_b64_slice(raw, w.skip, usize_from(len.get()))
                        .expect("window lies within the encoded output"),
                );
            }
            Segment::OggAudio { .. } => break,
            other => panic!("unexpected {other:?}"),
        }
    }

    let pics = read_pictures(&bytes).unwrap();
    assert_eq!(pics.len(), 1);
    assert_eq!(pics[0].mime, "image/jpeg");
    assert_eq!(pics[0].data, image);
    let h = read_header(&bytes).unwrap();
    assert_eq!(h.codec, Codec::Opus);
}

fn materialize_header(layout: &RegionLayout, images: &[(i64, &[u8])]) -> Vec<u8> {
    let mut bytes = Vec::new();
    for s in layout.segments() {
        match s {
            Segment::Inline(b) => bytes.extend_from_slice(b),
            Segment::OggArtSlice {
                art_id,
                offset,
                len,
                base64,
                art_total,
            } => {
                let img = images.iter().find(|(id, _)| id == art_id).expect("image").1;
                if *base64 {
                    let w = b64_window(*offset, len.get(), *art_total);
                    let raw = &img[usize_from(w.in_start)
                        ..usize_from(w.in_start + w.in_len)];
                    bytes.extend_from_slice(
                        &encode_b64_slice(raw, w.skip, usize_from(len.get()))
                            .expect("window lies within the encoded output"),
                    );
                } else {
                    bytes.extend_from_slice(
                        &img[usize_from(*offset)
                            ..usize_from(*offset + len.get())],
                    );
                }
            }
            Segment::OggAudio { .. } => break,
            other => panic!("unexpected {other:?}"),
        }
    }
    bytes
}

fn art_input(art_id: i64, mime: &str, len: usize) -> ArtInput {
    ArtInput {
        art_id,
        mime: mime.to_string(),
        description: String::new(),
        picture_type: 3,
        width: 10,
        height: 10,
        data_len: len as u64,
    }
}

#[test]
fn synthesize_vorbis_embeds_art_that_round_trips() {
    let setup = b"\x05vorbis-SETUP".to_vec();
    let mut data = vorbis_headers_with(&setup);
    let (audio, _) = lace_packet(55, 99, false, 1024, &[0u8; 64]);
    data.extend_from_slice(&audio);
    let scan = locate_audio(&data).unwrap();
    let header = read_metadata(&data[..usize_from(scan.audio_offset)]).unwrap();

    let image: Vec<u8> = (0..4000u32).map(|i| (i % 251) as u8).collect();
    let meta = art_input(11, "image/png", image.len());
    let src = MapArtSource::new(vec![(meta.art_id, image.clone())]);
    let layout = synthesize_layout(
        &header,
        scan.audio_offset,
        scan.audio_length,
        &[TagInput::new("artist", "X")],
        &[OggArt { meta: &meta }],
        &src,
    )
    .unwrap();

    let bytes = materialize_header(&layout, &[(11, &image)]);
    let h = read_header(&bytes).unwrap();
    assert_eq!(h.codec, Codec::Vorbis);
    assert_eq!(h.packets[2], setup);
    let pics = read_pictures(&bytes).unwrap();
    assert_eq!(pics.len(), 1);
    assert_eq!(pics[0].data, image);
}

#[test]
fn synthesize_oggflac_embeds_art_that_round_trips() {
    let mut data = oggflac_headers();
    let (audio, _) = lace_packet(77, 3, false, 4096, &[0u8; 64]);
    data.extend_from_slice(&audio);
    let scan = locate_audio(&data).unwrap();
    let header = read_metadata(&data[..usize_from(scan.audio_offset)]).unwrap();

    let image: Vec<u8> = (0..4000u32).map(|i| (i % 251) as u8).collect();
    let meta = art_input(22, "image/png", image.len());
    let src = MapArtSource::new(vec![(meta.art_id, image.clone())]);
    let layout = synthesize_layout(
        &header,
        scan.audio_offset,
        scan.audio_length,
        &[TagInput::new("title", "Y")],
        &[OggArt { meta: &meta }],
        &src,
    )
    .unwrap();

    let bytes = materialize_header(&layout, &[(22, &image)]);
    let h = read_header(&bytes).unwrap();
    assert_eq!(h.codec, Codec::OggFlac);
    let pics = read_pictures(&bytes).unwrap();
    assert_eq!(pics.len(), 1);
    assert_eq!(pics[0].data, image);
}

#[test]
fn synthesize_oggflac_embeds_large_art_spanning_pages_round_trips() {
    let mut data = oggflac_headers();
    let (audio, _) = lace_packet(77, 3, false, 4096, &[0u8; 64]);
    data.extend_from_slice(&audio);
    let scan = locate_audio(&data).unwrap();
    let header = read_metadata(&data[..usize_from(scan.audio_offset)]).unwrap();

    let image: Vec<u8> = (0..200_000u32).map(|i| (i % 251) as u8).collect();
    let meta = art_input(31, "image/png", image.len());
    let src = MapArtSource::new(vec![(meta.art_id, image.clone())]);
    let layout = synthesize_layout(
        &header,
        scan.audio_offset,
        scan.audio_length,
        &[TagInput::new("title", "Big")],
        &[OggArt { meta: &meta }],
        &src,
    )
    .unwrap();

    let art_slices = layout
        .segments()
        .iter()
        .filter(|s| matches!(s, Segment::OggArtSlice { base64: false, .. }))
        .count();
    assert!(
        art_slices >= 2,
        "expected the raw art to span multiple pages, got {art_slices} slice(s)"
    );

    let bytes = materialize_header(&layout, &[(31, &image)]);
    let h = read_header(&bytes).unwrap();
    assert_eq!(h.codec, Codec::OggFlac);
    let pics = read_pictures(&bytes).unwrap();
    assert_eq!(pics.len(), 1);
    assert_eq!(
        pics[0].data, image,
        "large art must round-trip byte-for-byte"
    );
}

#[test]
fn synthesize_opus_embeds_multiple_images() {
    let mut data = opus_headers();
    let (audio, _) = lace_packet(0x1234, 2, false, 960, &[0u8; 64]);
    data.extend_from_slice(&audio);
    let scan = locate_audio(&data).unwrap();
    let header = read_metadata(&data[..usize_from(scan.audio_offset)]).unwrap();

    let img_a: Vec<u8> = (0..3000u32).map(|i| (i % 251) as u8).collect();
    let img_b: Vec<u8> = (0..1500u32).map(|i| ((i * 3) % 251) as u8).collect();
    let meta_a = art_input(1, "image/png", img_a.len());
    let meta_b = art_input(2, "image/jpeg", img_b.len());
    let src = MapArtSource::new(vec![
        (meta_a.art_id, img_a.clone()),
        (meta_b.art_id, img_b.clone()),
    ]);
    let layout = synthesize_layout(
        &header,
        scan.audio_offset,
        scan.audio_length,
        &[TagInput::new("title", "Multi")],
        &[OggArt { meta: &meta_a }, OggArt { meta: &meta_b }],
        &src,
    )
    .unwrap();

    let bytes = materialize_header(&layout, &[(1, &img_a), (2, &img_b)]);
    let h = read_header(&bytes).unwrap();
    assert_eq!(h.codec, Codec::Opus);
    let pics = read_pictures(&bytes).unwrap();
    assert_eq!(pics.len(), 2);
    assert_eq!(pics[0].data, img_a);
    assert_eq!(pics[1].data, img_b);
}

#[test]
fn oversized_full_art_value_rejected_by_build_packets() {
    let meta = ArtInput {
        art_id: 0,
        mime: "image/jpeg".to_string(),
        description: String::new(),
        data_len: u64::from(u32::MAX),
        picture_type: 3,
        width: 0,
        height: 0,
    };
    let art = OggArt { meta: &meta };
    let header = OggHeader {
        codec: Codec::Vorbis,
        serial: 0,
        packets: vec![vec![], vec![], vec![]],
        header_pages: 1,
        audio_offset: 0,
    };
    let result = build_packets_with_art(&header, &[], &[art]);
    assert!(result.is_err(), "expected Err for oversized art");
}

#[test]
fn sum_overflow_art_value_rejected_by_build_packets() {
    let meta = ArtInput {
        art_id: 0,
        mime: "image/png".to_string(),
        description: "x".repeat(256),
        data_len: 3_221_225_470,
        picture_type: 3,
        width: 0,
        height: 0,
    };
    let art = OggArt { meta: &meta };
    let header = OggHeader {
        codec: Codec::Vorbis,
        serial: 0,
        packets: vec![vec![], vec![], vec![]],
        header_pages: 1,
        audio_offset: 0,
    };
    let result = build_packets_with_art(&header, &[], &[art]);
    assert!(
        result.is_err(),
        "expected Err when key + b64(prefix) + b64(data) overflows u32"
    );
}

#[test]
fn art_value_at_u32_max_boundary_is_accepted_by_build_packets() {
    let meta = ArtInput {
        art_id: 0,
        mime: "image/png".to_string(),
        description: String::new(),
        data_len: 3_221_225_412,
        picture_type: 3,
        width: 0,
        height: 0,
    };
    let art = OggArt { meta: &meta };
    let header = OggHeader {
        codec: Codec::Vorbis,
        serial: 0,
        packets: vec![vec![], vec![], vec![]],
        header_pages: 1,
        audio_offset: 0,
    };
    let accepted = build_packets_with_art(&header, &[], &[art]).is_ok();
    assert!(
        accepted,
        "value_len exactly u32::MAX must be accepted by build_packets_with_art"
    );
}

#[test]
fn near_u64_max_art_value_rejected_by_build_packets() {
    let meta = ArtInput {
        art_id: 0,
        mime: "image/jpeg".to_string(),
        description: String::new(),
        data_len: u64::MAX,
        picture_type: 3,
        width: 0,
        height: 0,
    };
    let art = OggArt { meta: &meta };
    let header = OggHeader {
        codec: Codec::Vorbis,
        serial: 0,
        packets: vec![vec![], vec![], vec![]],
        header_pages: 1,
        audio_offset: 0,
    };
    let result = build_packets_with_art(&header, &[], &[art]);
    let is_too_large = matches!(&result, Err(FormatError::TooLarge));
    assert!(is_too_large, "expected Err(TooLarge) for near-u64::MAX art");
}

#[test]
fn near_u64_max_art_value_rejected_by_oggflac_build_packets() {
    let meta = ArtInput {
        art_id: 0,
        mime: "image/jpeg".to_string(),
        description: String::new(),
        data_len: u64::MAX,
        picture_type: 3,
        width: 0,
        height: 0,
    };
    let art = OggArt { meta: &meta };
    let header = OggHeader {
        codec: Codec::OggFlac,
        serial: 0,
        packets: vec![vec![0x7F]],
        header_pages: 1,
        audio_offset: 0,
    };
    let result = build_packets_with_art(&header, &[], &[art]);
    let is_too_large = matches!(&result, Err(FormatError::TooLarge));
    assert!(is_too_large, "expected Err(TooLarge) for near-u64::MAX art");
}

#[test]
fn picture_prefix_is_3_aligned_and_declares_image_len() {
    let art = ArtInput {
        art_id: 1,
        mime: "image/png".to_string(),
        description: String::new(),
        picture_type: 3,
        width: 1,
        height: 1,
        data_len: 12345,
    };
    let p = picture_prefix(&art).unwrap();
    assert_eq!(p.len() % 3, 0);

    let dl = u32::from_be_bytes(p[p.len() - 4..].try_into().unwrap());
    assert_eq!(dl, 12345);

    let mut body = p.clone();
    body.extend(std::iter::repeat_n(0u8, 12345));
    let pic = parse_picture_block(&body).unwrap();
    assert_eq!(pic.mime, "image/png");
    assert_eq!(pic.picture_type.get(), 3);
}

#[test]
fn detect_codec_matches_each_magic_and_rejects_others() {
    assert_eq!(detect_codec(b"OpusHead........").unwrap(), Codec::Opus);
    assert_eq!(detect_codec(b"\x01vorbis...").unwrap(), Codec::Vorbis);
    assert_eq!(detect_codec(b"\x7FFLAC...").unwrap(), Codec::OggFlac);

    assert!(detect_codec(b"OpusHea").is_err());
    assert!(detect_codec(b"XXXXXXXX").is_err());
    assert!(detect_codec(b"\x01vorbi").is_err());
}

#[test]
fn comment_body_strips_each_codec_prefix_and_guards_length() {
    assert_eq!(comment_body(Codec::Opus, b"OpusTagsBODY").unwrap(), b"BODY");
    assert_eq!(
        comment_body(Codec::Vorbis, b"\x03vorbisBODY").unwrap(),
        b"BODY"
    );
    assert_eq!(
        comment_body(Codec::OggFlac, b"\x04\x00\x00\x00BODY").unwrap(),
        b"BODY"
    );

    assert!(comment_body(Codec::Opus, b"OpusTa").is_err());
    assert!(comment_body(Codec::OggFlac, b"\x04\x00\x00").is_err());
}

#[test]
fn oggflac_following_packets_reads_be_count_and_guards_length() {
    let pkt = b"\x7FFLAC\x01\x00\x00\x05rest";
    assert_eq!(oggflac_following_packets(pkt).unwrap(), 5);
    assert!(oggflac_following_packets(b"\x7FFLAC\x01\x00").is_err());
}

#[test]
fn oggflac_comment_block_size_boundary_is_inclusive() {
    let header = OggHeader {
        codec: Codec::OggFlac,
        serial: 1,
        packets: vec![vec![0x7F; 9]],
        header_pages: 1,
        audio_offset: 0,
    };
    let overhead = build(&[TagInput::new("title", "")])
        .unwrap()
        .len() as u64;
    let at_limit = "x".repeat(usize_from(
        MAX_BLOCK_BODY - overhead,
    ));
    let tags = [TagInput::new("title", at_limit.as_str())];
    assert!(oggflac_packets_with_art(&header, &tags, &[]).is_ok());

    let over = format!("{at_limit}x");
    let tags = [TagInput::new("title", over.as_str())];
    assert!(matches!(
        oggflac_packets_with_art(&header, &tags, &[]),
        Err(FormatError::TooLarge)
    ));
}

#[test]
fn oggflac_picture_block_size_boundary_is_inclusive() {
    let header = OggHeader {
        codec: Codec::OggFlac,
        serial: 1,
        packets: vec![vec![0x7F; 9]],
        header_pages: 1,
        audio_offset: 0,
    };
    let mk = |data_len: u64| ArtInput {
        art_id: 1,
        mime: "image/png".to_string(),
        description: String::new(),
        picture_type: 3,
        width: 0,
        height: 0,
        data_len: data_len,
    };
    let framing_len = picture_prefix(&mk(1)).unwrap().len() as u64;
    let at_limit = mk(MAX_BLOCK_BODY - framing_len);
    let arts = [OggArt { meta: &at_limit }];
    assert!(oggflac_packets_with_art(&header, &[], &arts).is_ok());

    let over = mk(MAX_BLOCK_BODY - framing_len + 1);
    let arts = [OggArt { meta: &over }];
    assert!(matches!(
        oggflac_packets_with_art(&header, &[], &arts),
        Err(FormatError::TooLarge)
    ));
}

#[test]
fn comment_packet_index_locates_the_comment_block() {
    let opus = OggHeader {
        codec: Codec::Opus,
        serial: 1,
        packets: vec![vec![], vec![]],
        header_pages: 1,
        audio_offset: 0,
    };
    assert_eq!(comment_packet_index(&opus), 1);

    let oggflac = OggHeader {
        codec: Codec::OggFlac,
        serial: 1,
        packets: vec![vec![0x7F], vec![0x01], vec![0x84]],
        header_pages: 1,
        audio_offset: 0,
    };
    assert_eq!(comment_packet_index(&oggflac), 2);

    let none = OggHeader {
        codec: Codec::OggFlac,
        serial: 1,
        packets: vec![vec![0x7F], vec![0x01], vec![0x05]],
        header_pages: 1,
        audio_offset: 0,
    };
    assert_eq!(comment_packet_index(&none), 0);
}

#[test]
fn locate_audio_accepts_empty_audio_region() {
    let file = opus_headers();
    let scan = locate_audio(&file).unwrap();
    assert_eq!(scan.codec, Codec::Opus);
    assert_eq!(scan.audio_offset, file.len() as u64);
    assert_eq!(scan.audio_length, 0);
}

#[test]
fn picture_prefix_declared_desc_len_pins_padding() {
    let art = ArtInput {
        art_id: 1,
        mime: "image/png".into(),
        description: "x".into(),
        picture_type: 3,
        width: 1,
        height: 1,
        data_len: 100,
    };
    let prefix = picture_prefix(&art).unwrap();
    assert_eq!(prefix.len() % 3, 0);

    let off = 8 + art.mime.len();
    let declared = u32::from_be_bytes(prefix[off..off + 4].try_into().unwrap());
    let pad = declared - u32::try_from(art.description.len()).unwrap();
    assert!(pad <= 2, "pad must be 0..=2, got {pad}");
    assert_eq!(pad, 0, "base % 3 == 0 implies pad 0");
}

#[test]
fn synthesis_reads_art_in_page_bounded_windows() {
    let mut data = opus_headers();
    let scan = locate_audio({
        let (audio, _) = lace_packet(0x1234, 2, false, 960, &[0u8; 80]);
        data.extend_from_slice(&audio);
        &data
    })
    .unwrap();
    let header = read_metadata(&data[..usize_from(scan.audio_offset)]).unwrap();

    let image: Vec<u8> = (0..500_000u32).map(|i| (i % 251) as u8).collect();
    let meta = ArtInput {
        art_id: 7,
        mime: "image/jpeg".to_string(),
        description: String::new(),
        picture_type: 3,
        width: 0,
        height: 0,
        data_len: image.len() as u64,
    };
    let max = Cell::new(0usize);
    let src = Counting {
        inner: MapArtSource::new(vec![(7i64, image.clone())]),
        max: &max,
    };
    synthesize_layout(
        &header,
        scan.audio_offset,
        scan.audio_length,
        &[],
        &[OggArt { meta: &meta }],
        &src,
    )
    .unwrap();

    assert!(
        max.get() > 0 && max.get() <= 65_025,
        "max single read was {}",
        max.get()
    );
}
#[test]
fn vorbis_body_empty_is_a_parseable_empty_comment() {
    let body = vorbis_body_empty();
    let parsed = parse(&body).unwrap();
    assert!(parsed.is_empty());
}

#[test]
fn vorbis_body_with_round_trips_its_comments() {
    let body =
        vorbis_body_with(&[("TITLE", "Sun"), ("ARTIST", "Boc")]);
    let parsed = parse(&body).unwrap();
    assert_eq!(
        parsed,
        vec![
            ("title".to_string(), "Sun".to_string()),
            ("artist".to_string(), "Boc".to_string()),
        ]
    );
}

/// A minimal Opus stream: OpusHead + OpusTags header packets, then a trailing
/// audio page. Returns (full, audio_offset).
fn opus_stream() -> (Vec<u8>, u64) {
    let head = b"OpusHead\x01\x02\x38\x01\x80\xbb\x00\x00\x00\x00\x00".to_vec();
    let mut tags = b"OpusTags".to_vec();
    tags.extend_from_slice(&vorbis_body_empty());
    let serial = 0x1234;
    let (mut v, _) = build_header(serial, &[&head, &tags]);
    let audio_offset = v.len() as u64;
    let (audio, _) = lace_packet(serial, 2, false, 960, &[0u8; 100]);
    v.extend_from_slice(&audio);
    (v, audio_offset)
}

#[test]
fn read_metadata_bounded_complete_when_prefix_covers_header() {
    let (full, audio_offset) = opus_stream();
    let file_len = full.len() as u64;
    let prefix = &full[..usize_from(audio_offset)];
    match read_metadata_bounded(prefix, file_len).unwrap() {
        Extent::Complete(h) => assert_eq!(h.audio_offset, audio_offset),
        other @ Extent::NeedMore { .. } => panic!("expected Complete, got {other:?}"),
    }
}

#[test]
fn read_metadata_bounded_needmore_when_header_truncated() {
    let (full, _audio_offset) = opus_stream();
    let file_len = full.len() as u64;
    let prefix = &full[..20];
    match read_metadata_bounded(prefix, file_len).unwrap() {
        Extent::NeedMore { up_to } => assert!(up_to > 20 && up_to <= file_len),
        other @ Extent::Complete(_) => panic!("expected NeedMore, got {other:?}"),
    }
}

#[test]
fn read_metadata_bounded_errors_when_whole_file_is_unparseable() {
    let bad: &[u8] = b"not an ogg stream at all";

    assert!(read_header(bad).is_err());
    let len = bad.len() as u64;

    match read_metadata_bounded(bad, len) {
        Err(_) => {}
        Ok(other) => panic!("expected Err when whole file unparseable, got {other:?}"),
    }
}

#[test]
fn read_metadata_bounded_doubles_window_exactly() {
    let buf = vec![0u8; 100_000];

    assert!(read_header(&buf).is_err());
    let file_len = 10_000_000u64;
    match read_metadata_bounded(&buf, file_len).unwrap() {
        Extent::NeedMore { up_to } => assert_eq!(up_to, 200_000),
        other @ Extent::Complete(_) => panic!("expected NeedMore, got {other:?}"),
    }
}

#[test]
fn read_metadata_bounded_floor_is_64kib_for_small_prefix() {
    let buf = vec![0u8; 100];
    assert!(read_header(&buf).is_err());
    let file_len = 10_000_000u64;

    match read_metadata_bounded(&buf, file_len).unwrap() {
        Extent::NeedMore { up_to } => assert_eq!(up_to, 65_536),
        other @ Extent::Complete(_) => panic!("expected NeedMore, got {other:?}"),
    }
}

#[test]
fn read_metadata_bounded_grows_when_truncated_prefix_shorter_than_file() {
    let (full, _audio_offset) = opus_stream();
    let file_len = full.len() as u64;
    let prefix = &full[..10];
    assert!(read_header(prefix).is_err());
    match read_metadata_bounded(prefix, file_len).unwrap() {
        Extent::NeedMore { up_to } => assert!(up_to > prefix.len() as u64),
        other @ Extent::Complete(_) => panic!("expected NeedMore, got {other:?}"),
    }
}
