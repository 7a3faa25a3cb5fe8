use musefs_format::error::FormatError;
use musefs_format::layout::Segment;
use musefs_format::ogg::art_source::MapArtSource;
use musefs_format::ogg::chunks::{PayloadChunk, lace_chunks_to_segments};
use musefs_format::ogg::crc::crc32;
use musefs_format::ogg::page::{CAPTURE, FLAG_BOS, FLAG_CONTINUED, FLAG_EOS, build_header, lace_packet, parse_page, patch_page_header, patch_page_header_algebraic, read_packets, verify_page_crc};

fn usize_from(v: u64) -> usize {
    usize::try_from(v).unwrap()
}

fn hand_page() -> Vec<u8> {
    let mut p = Vec::new();
    p.extend_from_slice(&CAPTURE);
    p.push(0);
    p.push(FLAG_BOS);
    p.extend_from_slice(&0u64.to_le_bytes());
    p.extend_from_slice(&0xDEAD_BEEFu32.to_le_bytes());
    p.extend_from_slice(&7u32.to_le_bytes());
    p.extend_from_slice(&0x1122_3344u32.to_le_bytes());
    p.push(2);
    p.push(0x10);
    p.push(0x20);
    p.extend(std::iter::repeat_n(0xAB, 0x30));
    p
}

#[test]
fn parses_fields_and_lengths() {
    let p = hand_page();
    let h = parse_page(&p, 0).unwrap();
    assert_eq!(h.header_type, FLAG_BOS);
    assert_eq!(h.serial, 0xDEAD_BEEF);
    assert_eq!(h.seq, 7);
    assert_eq!(h.crc, 0x1122_3344);
    assert_eq!(h.seg_count, 2);
    assert_eq!(h.payload_len, 0x30);
    assert_eq!(h.header_len, 29);
    assert_eq!(h.total_len(), 0x30 + 29);
}

#[test]
fn rejects_bad_capture() {
    let mut p = hand_page();
    p[0] = b'X';
    assert_eq!(parse_page(&p, 0), Err(FormatError::Malformed));
}

#[test]
fn rejects_nonzero_version() {
    let mut p = hand_page();
    p[4] = 1;
    assert_eq!(parse_page(&p, 0), Err(FormatError::Malformed));
}

#[test]
fn single_page_packet_round_trips_and_crc_valid() {
    let packet: Vec<u8> = (0..200u8).collect();
    let (bytes, pages) = lace_packet(0xABCD, 0, true, 0, &packet);
    assert_eq!(pages, 1);
    let h = parse_page(&bytes, 0).unwrap();
    assert_eq!(h.header_type, FLAG_BOS);
    assert_eq!(h.payload_len, 200);

    let mut z = bytes.clone();
    z[22..26].copy_from_slice(&0u32.to_le_bytes());
    assert_eq!(crc32(&z), h.crc);
}

#[test]
fn exact_multiple_of_255_appends_terminating_zero() {
    let packet = vec![0u8; 255];
    let (bytes, pages) = lace_packet(1, 0, false, 0, &packet);
    assert_eq!(pages, 1);
    let h = parse_page(&bytes, 0).unwrap();

    assert_eq!(h.seg_count, 2);
    assert_eq!(h.payload_len, 255);
}

#[test]
fn large_packet_spans_multiple_pages_with_continuation() {
    let packet = vec![0x5Au8; 70_000];
    let (bytes, pages) = lace_packet(2, 5, false, 0, &packet);
    assert_eq!(pages, 2);
    let p0 = parse_page(&bytes, 0).unwrap();
    assert_eq!(p0.header_type & FLAG_CONTINUED, 0);
    assert_eq!(p0.payload_len, 65_025);
    let p1 = parse_page(&bytes, p0.total_len()).unwrap();
    assert_eq!(p1.header_type & FLAG_CONTINUED, FLAG_CONTINUED);
    assert_eq!(p1.seq, 6);
    assert_eq!(p0.payload_len + p1.payload_len, 70_000);
}

#[test]
fn build_header_numbers_pages_and_sets_bos_once() {
    let a = vec![1u8; 10];
    let b = vec![2u8; 10];
    let (bytes, count) = build_header(9, &[&a, &b]);
    assert_eq!(count, 2);
    let p0 = parse_page(&bytes, 0).unwrap();
    let p1 = parse_page(&bytes, p0.total_len()).unwrap();
    assert_eq!(p0.header_type & FLAG_BOS, FLAG_BOS);
    assert_eq!(p1.header_type & FLAG_BOS, 0);
    assert_eq!(p0.seq, 0);
    assert_eq!(p1.seq, 1);
}

#[test]
fn read_packets_reassembles_multipage_packet() {
    let small = vec![7u8; 5];
    let big = vec![9u8; 70_000];
    let (mut bytes, _) = lace_packet(3, 0, true, 0, &small);
    let (b2, _) = lace_packet(3, 1, false, 0, &big);
    bytes.extend_from_slice(&b2);

    let pkts = read_packets(&bytes, 2).unwrap();
    assert_eq!(pkts.len(), 2);
    assert_eq!(pkts[0].data, small);
    assert_eq!(pkts[1].data, big);
    assert_eq!(pkts[1].pages_through_end, 3);
    assert_eq!(pkts[1].end_offset, bytes.len());
}

#[test]
fn multipage_payload_cursor_advances_across_pages() {
    let packet: Vec<u8> = (0..70_000u32).map(|i| (i % 251) as u8).collect();
    let (bytes, pages) = lace_packet(2, 0, false, 0, &packet);
    assert_eq!(pages, 2);
    let pkts = read_packets(&bytes, 1).unwrap();
    assert_eq!(pkts[0].data, packet);
}

#[test]
fn patch_page_header_updates_seq_and_crc() {
    let packet = vec![0x42u8; 300];
    let (page, _) = lace_packet(0xCAFE, 10, false, 7, &packet);
    let patched = patch_page_header(&page, 12).unwrap();
    let h0 = parse_page(&page, 0).unwrap();
    assert_eq!(patched.len(), h0.header_len);

    let mut full = patched.clone();
    full.extend_from_slice(&page[h0.header_len..h0.total_len()]);
    let h1 = parse_page(&full, 0).unwrap();
    assert_eq!(h1.seq, 12);
    let mut z = full.clone();
    z[22..26].copy_from_slice(&0u32.to_le_bytes());
    assert_eq!(crc32(&z), h1.crc);
}

fn flatten(segments: &[Segment], art_out: &[u8]) -> Vec<u8> {
    let mut v = Vec::new();
    for s in segments {
        match s {
            Segment::Inline(b) => v.extend_from_slice(b),
            Segment::OggArtSlice {
                offset,
                len,
                base64,
                ..
            } => {
                assert!(*base64);
                v.extend_from_slice(
                    &art_out[usize::try_from(*offset).unwrap()
                        ..usize::try_from(*offset + len.get()).unwrap()],
                );
            }
            other => panic!("unexpected segment {other:?}"),
        }
    }
    v
}

#[test]
fn chunk_lacer_splits_art_across_pages_and_crcs_validate() {
    let head = vec![0xA0u8; 50];

    let image: Vec<u8> = (0..60_000u32).map(|i| (i % 251) as u8).collect();
    let art_out = musefs_format::ogg::b64::encode_b64_slice(
        &image,
        0,
        usize_from(musefs_format::ogg::b64::b64_len(image.len() as u64)),
    )
    .expect("full-length window lies within the encoded output");
    let tail = vec![0xB0u8; 10];
    let chunks = vec![
        PayloadChunk::Bytes(head.clone()),
        PayloadChunk::Art {
            art_id: 42,
            base64: true,
            art_total: image.len() as u64,
        },
        PayloadChunk::Bytes(tail.clone()),
    ];
    let src = MapArtSource::new(vec![(42i64, image.clone())]);
    let (segments, pages) = lace_chunks_to_segments(0x1234, 0, true, &chunks, &src).unwrap();
    assert!(pages >= 2, "art run should span multiple pages");

    let flat = flatten(&segments, &art_out);

    let mut pos = 0usize;
    let mut payload = Vec::new();
    let mut seq_expected = 0u32;
    while pos < flat.len() {
        let h = parse_page(&flat, pos).unwrap();

        let is_first = seq_expected == 0;
        if is_first {
            assert_eq!(h.header_type & FLAG_BOS, FLAG_BOS);
            assert_eq!(h.header_type & FLAG_CONTINUED, 0);
        } else {
            assert_eq!(h.header_type & FLAG_BOS, 0);
            assert_eq!(h.header_type & FLAG_CONTINUED, FLAG_CONTINUED);
        }
        assert_eq!(h.seq, seq_expected);
        seq_expected += 1;

        let mut z = flat[pos..pos + h.total_len()].to_vec();
        z[22..26].copy_from_slice(&0u32.to_le_bytes());
        assert_eq!(crc32(&z), h.crc);
        payload.extend_from_slice(&flat[pos + h.header_len..pos + h.total_len()]);
        pos += h.total_len();
    }
    let mut expected = head.clone();
    expected.extend_from_slice(&art_out);
    expected.extend_from_slice(&tail);
    assert_eq!(payload, expected);

    let art_served: u64 = segments
        .iter()
        .filter_map(|s| match s {
            Segment::OggArtSlice { len, .. } => Some(len.get()),
            _ => None,
        })
        .sum();
    assert_eq!(art_served, art_out.len() as u64);
}

#[test]
fn eos_bit_is_preserved_through_renumber() {
    let (mut page, _) = lace_packet(0xEE, 3, false, 9, &[0x11u8; 120]);
    page[5] |= FLAG_EOS;

    let mut z = page.clone();
    z[22..26].copy_from_slice(&0u32.to_le_bytes());
    let crc = crc32(&z);
    page[22..26].copy_from_slice(&crc.to_le_bytes());

    let patched = patch_page_header(&page, 99).unwrap();
    let h0 = parse_page(&page, 0).unwrap();
    let mut full = patched.clone();
    full.extend_from_slice(&page[h0.header_len..h0.total_len()]);
    let h1 = parse_page(&full, 0).unwrap();
    assert_eq!(h1.seq, 99);
    assert_eq!(h1.header_type & FLAG_EOS, FLAG_EOS, "EOS bit dropped");
    assert_eq!(h1.header_type, h0.header_type, "header_type changed");
}

#[test]
fn parse_page_rejects_truncated_header_and_table() {
    let p = hand_page();
    assert_eq!(parse_page(&p[..26], 0), Err(FormatError::Malformed));
    assert!(parse_page(&p[..27], 0).is_err());

    assert_eq!(parse_page(&p[..28], 0), Err(FormatError::Malformed));

    assert!(parse_page(&p, 0).is_ok());
}

#[test]
fn parse_page_accepts_27_byte_zero_segment_page() {
    let mut page = vec![0u8; 27];
    page[0..4].copy_from_slice(&CAPTURE);
    page[26] = 0;
    let h = parse_page(&page, 0).unwrap();
    assert_eq!(h.seg_count, 0);
    assert_eq!(h.total_len(), 27);
}

#[test]
fn patch_page_header_rejects_truncated_page() {
    let (page, _) = lace_packet(0xCAFE, 1, false, 0, &vec![0x42u8; 300]);
    let h = parse_page(&page, 0).unwrap();

    assert_eq!(
        patch_page_header(&page[..h.total_len() - 10], 2),
        Err(FormatError::Malformed)
    );
}

#[test]
fn read_packets_stops_exactly_at_want_within_a_page() {
    let mut page = Vec::new();
    page.extend_from_slice(&CAPTURE);
    page.push(0);
    page.push(FLAG_BOS);
    page.extend_from_slice(&0u64.to_le_bytes());
    page.extend_from_slice(&7u32.to_le_bytes());
    page.extend_from_slice(&0u32.to_le_bytes());
    page.extend_from_slice(&0u32.to_le_bytes());
    page.push(2);
    page.push(3);
    page.push(4);
    page.extend_from_slice(&[1, 2, 3, 9, 9, 9, 9]);
    let mut z = page.clone();
    z[22..26].copy_from_slice(&0u32.to_le_bytes());
    let crc = crc32(&z);
    page[22..26].copy_from_slice(&crc.to_le_bytes());

    let pkts = read_packets(&page, 1).unwrap();
    assert_eq!(pkts.len(), 1);
    assert_eq!(pkts[0].data, vec![1, 2, 3]);
}

#[test]
fn patch_algebraic_matches_full_page() {
    for &payload_len in &[0usize, 1, 255, 3000, 65025] {
        for &old_seq in &[0u32, 1, 42, u32::MAX - 5] {
            for &new_seq in &[old_seq, old_seq.wrapping_add(1), old_seq.wrapping_add(10)] {
                let payload = vec![0xA5u8; payload_len];
                let (page_bytes, _) = lace_packet(0x1234, old_seq, false, 0, &payload);

                let want = patch_page_header(&page_bytes, new_seq).unwrap();

                let h = parse_page(&page_bytes, 0).unwrap();
                let got =
                    patch_page_header_algebraic(&page_bytes[..h.header_len], new_seq).unwrap();
                assert_eq!(
                    got, want,
                    "payload_len={payload_len} old_seq={old_seq} new_seq={new_seq}"
                );
            }
        }
    }
}

#[test]
fn verify_page_crc_accepts_valid_rejects_tampered() {
    let (page, _) = lace_packet(0x55, 9, false, 42, &vec![0x7Eu8; 500]);
    assert!(
        verify_page_crc(&page).unwrap(),
        "valid page must verify true"
    );

    let mut tampered = page.clone();
    let h = parse_page(&page, 0).unwrap();
    tampered[h.header_len] ^= 0xFF;
    assert!(
        !verify_page_crc(&tampered).unwrap(),
        "tampered payload must verify false"
    );

    let mut bad_crc = page.clone();
    bad_crc[22] ^= 0x01;
    assert!(
        !verify_page_crc(&bad_crc).unwrap(),
        "corrupt stored CRC must verify false"
    );
}

#[test]
fn patch_algebraic_accepts_zero_segment_header() {
    let mut hdr = vec![0u8; 27];
    hdr[..4].copy_from_slice(b"OggS");
    hdr[18..22].copy_from_slice(&7u32.to_le_bytes());

    let out = patch_page_header_algebraic(&hdr, 9).unwrap();
    assert_eq!(out.len(), 27);
    assert_eq!(u32::from_le_bytes(out[18..22].try_into().unwrap()), 9);
}

#[test]
fn patch_algebraic_rejects_truncated_segment_table() {
    let mut hdr = vec![0u8; 27];
    hdr[..4].copy_from_slice(b"OggS");
    hdr[26] = 5;
    assert!(patch_page_header_algebraic(&hdr, 1).is_err());
}

#[test]
fn verify_page_crc_rejects_truncated_page() {
    let (page, _) = lace_packet(0x55, 1, false, 0, &vec![0u8; 300]);
    let h = parse_page(&page, 0).unwrap();
    let truncated = &page[..h.total_len() - 10];
    assert!(verify_page_crc(truncated).is_err());
}
