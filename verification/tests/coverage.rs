use musefs_format::coverage::backing_covers_audio;
use musefs_format::layout::{RegionLayout, Segment};
use musefs_format::ogg::page::{build_header, lace_packet};

/// The layout must serve the audio range exactly once, contiguously.
fn assert_backing_covers_audio(audio_offset: u64, audio_length: u64, layout: &RegionLayout) {
    assert!(backing_covers_audio(audio_offset, audio_length, layout));
}

/// Build a FLAC metadata block (4-byte header + body).
fn flac_block(block_type: u8, body: &[u8], is_last: bool) -> Vec<u8> {
    let mut out = Vec::new();
    let first = (if is_last { 0x80 } else { 0 }) | (block_type & 0x7F);
    out.push(first);
    let len = body.len();
    out.push(u8::try_from((len >> 16) & 0xFF).expect("masked to 0xFF"));
    out.push(u8::try_from((len >> 8) & 0xFF).expect("masked to 0xFF"));
    out.push(u8::try_from(len & 0xFF).expect("masked to 0xFF"));
    out.extend_from_slice(body);
    out
}

/// A structurally valid STREAMINFO body: 44100 Hz, 2 channels, 16-bit, unknown frame/sample counts.
fn streaminfo_body() -> Vec<u8> {
    let mut b = vec![
        0x10, 0x00,
        0x10, 0x00,
        0x00, 0x00, 0x00,
        0x00, 0x00, 0x00,
        0x0A, 0xC4, 0x42,
        0xF0,
        0x00, 0x00, 0x00, 0x00,
    ];
    b.extend_from_slice(&[0u8; 16]);
    b
}

/// Minimal VORBIS_COMMENT body with the given already-formatted `KEY=value` comments.
fn vorbis_comment_body(vendor: &str, comments: &[&str]) -> Vec<u8> {
    let mut out = Vec::new();
    out.extend_from_slice(&u32::try_from(vendor.len()).unwrap().to_le_bytes());
    out.extend_from_slice(vendor.as_bytes());
    out.extend_from_slice(&u32::try_from(comments.len()).unwrap().to_le_bytes());
    for c in comments {
        out.extend_from_slice(&u32::try_from(c.len()).unwrap().to_le_bytes());
        out.extend_from_slice(c.as_bytes());
    }
    out
}

/// Assemble a full FLAC byte stream: marker + blocks (last-flag auto-set on the final block) + audio.
fn make_flac(blocks: &[(u8, Vec<u8>)], audio: &[u8]) -> Vec<u8> {
    let mut out = Vec::new();
    out.extend_from_slice(b"fLaC");
    for (i, (bt, body)) in blocks.iter().enumerate() {
        let is_last = i == blocks.len() - 1;
        out.extend_from_slice(&flac_block(*bt, body, is_last));
    }
    out.extend_from_slice(audio);
    out
}

/// FLAC = `fLaC` + STREAMINFO + VORBIS_COMMENT + `audio`.
fn flac(audio: &[u8]) -> Vec<u8> {
    make_flac(
        &[
            (0, streaminfo_body()),
            (4, vorbis_comment_body("orig", &["TITLE=Orig"])),
        ],
        audio,
    )
}

fn bx(kind: &[u8; 4], payload: &[u8]) -> Vec<u8> {
    let mut v = u32::try_from(8 + payload.len())
        .unwrap()
        .to_be_bytes()
        .to_vec();
    v.extend_from_slice(kind);
    v.extend_from_slice(payload);
    v
}
fn m4a_data_atom(type_code: u32, value: &[u8]) -> Vec<u8> {
    let mut p = type_code.to_be_bytes().to_vec();
    p.extend_from_slice(&0u32.to_be_bytes());
    p.extend_from_slice(value);
    bx(b"data", &p)
}

/// Minimal moov-first M4A.
fn m4a(mdat_payload: &[u8]) -> Vec<u8> {
    m4a_with_extra_ilst(&[], mdat_payload)
}

/// `m4a` plus a `covr` atom holding two `data` children (jpeg + png) — the
/// iTunes multiple-artwork convention.
fn m4a_two_covers(mdat_payload: &[u8]) -> Vec<u8> {
    let covr = bx(
        b"covr",
        &[
            m4a_data_atom(13, &[0xFF, 0xD8, 0xFF, 0xE0, 1, 2, 3]),
            m4a_data_atom(14, &[0x89, b'P', b'N', b'G', 4, 5]),
        ]
        .concat(),
    );
    m4a_with_extra_ilst(&covr, mdat_payload)
}

fn m4a_with_extra_ilst(extra_ilst_atoms: &[u8], mdat_payload: &[u8]) -> Vec<u8> {
    let ilst_atoms = [
        bx(b"\xa9nam", &m4a_data_atom(1, b"Orig M4A")),
        bx(b"\xa9ART", &m4a_data_atom(1, b"Orig Artist")),
        extra_ilst_atoms.to_vec(),
    ]
    .concat();
    let ilst = bx(b"ilst", &ilst_atoms);
    let mut meta_hdlr = vec![0u8; 8];
    meta_hdlr.extend_from_slice(b"mdir");
    meta_hdlr.extend_from_slice(b"appl");
    meta_hdlr.extend_from_slice(&[0u8; 9]);
    let mut meta = vec![0u8; 4];
    meta.extend(bx(b"hdlr", &meta_hdlr));
    meta.extend(ilst);
    let udta = bx(b"udta", &bx(b"meta", &meta));
    let mut soun_hdlr = vec![0u8; 8];
    soun_hdlr.extend_from_slice(b"soun");
    soun_hdlr.extend_from_slice(&[0u8; 12]);
    let mut stco = vec![0u8; 4];
    stco.extend_from_slice(&1u32.to_be_bytes());
    stco.extend_from_slice(&0u32.to_be_bytes());
    let minf = bx(b"minf", &bx(b"stbl", &bx(b"stco", &stco)));
    let trak = bx(
        b"trak",
        &bx(b"mdia", &[bx(b"hdlr", &soun_hdlr), minf].concat()),
    );
    let moov = bx(b"moov", &[bx(b"mvhd", &[0u8; 8]), trak, udta].concat());
    let mut out = [bx(b"ftyp", b"M4A isom"), moov, bx(b"mdat", mdat_payload)].concat();

    let mdat_payload_offset = u32::try_from(out.len() - mdat_payload.len()).unwrap();
    let stco = out
        .windows(4)
        .position(|w| w == b"stco")
        .expect("stco present");
    let entry = stco + 4 + 4 + 4;
    out[entry..entry + 4].copy_from_slice(&mdat_payload_offset.to_be_bytes());
    out
}

/// Minimal Ogg Opus stream: two header packets and one audio page.
fn ogg_opus() -> Vec<u8> {
    let head = b"OpusHead\x01\x02\x38\x01\x80\xbb\x00\x00\x00\x00\x00".to_vec();
    let tags = b"OpusTags\x06\x00\x00\x00musefs\x00\x00\x00\x00".to_vec();
    let (mut data, _) = build_header(0x1234, &[&head, &tags]);
    let (audio, _) = lace_packet(0x1234, 2, false, 960, &[0u8; 120]);
    data.extend_from_slice(&audio);
    data
}

/// Minimal MP3 — a hand-crafted ID3v2.4 header (empty tag) followed by a
/// minimal MPEG frame sync. `locate_audio` requires only `ID3` marker +
/// syncsafe size + a valid `0xFF 0xE*` sync at the audio start; the "audio"
/// bytes that follow are never decoded by the synthesizer.
fn mp3() -> Vec<u8> {
    let mut out = Vec::new();
    out.extend_from_slice(b"ID3");
    out.push(0x04);
    out.push(0x00);
    out.push(0x00);

    out.extend_from_slice(&[0x00, 0x00, 0x00, 0x00]);

    out.extend_from_slice(&[0xFF, 0xFB, 0x90, 0x00]);
    out
}

#[test]
fn accepts_a_faithful_layout() {
    let layout = RegionLayout::new(vec![
        Segment::Inline(vec![0u8; 12]),
        Segment::BackingAudio {
            offset: 100,
            len: 50,
        },
    ]);
    assert_backing_covers_audio(100, 50, &layout);
}

#[test]
fn accepts_contiguous_ogg_runs() {
    let layout = RegionLayout::new(vec![
        Segment::Inline(vec![0u8; 4]),
        Segment::OggAudio {
            offset: 200,
            len: 30,
            seq_delta: 1,
            serial: 7,
        },
        Segment::OggAudio {
            offset: 230,
            len: 70,
            seq_delta: 1,
            serial: 7,
        },
    ]);
    assert_backing_covers_audio(200, 100, &layout);
}

#[test]
#[should_panic]
fn rejects_dropped_backing_bytes() {
    let layout = RegionLayout::new(vec![
        Segment::Inline(vec![0u8; 12]),
        Segment::BackingAudio {
            offset: 100,
            len: 40,
        },
    ]);
    assert_backing_covers_audio(100, 50, &layout);
}

#[test]
#[should_panic]
fn rejects_shifted_backing_offset() {
    let layout = RegionLayout::new(vec![Segment::BackingAudio {
        offset: 101,
        len: 50,
    }]);
    assert_backing_covers_audio(100, 50, &layout);
}

#[test]
#[should_panic]
fn rejects_backing_split_by_metadata() {
    let layout = RegionLayout::new(vec![
        Segment::BackingAudio {
            offset: 100,
            len: 25,
        },
        Segment::Inline(vec![0xFF]),
        Segment::BackingAudio {
            offset: 125,
            len: 25,
        },
    ]);
    assert_backing_covers_audio(100, 50, &layout);
}

#[test]
fn accepts_trailing_pad_after_backing() {
    let layout = RegionLayout::new(vec![
        Segment::Inline(vec![0u8; 8]),
        Segment::BackingAudio {
            offset: 100,
            len: 1,
        },
        Segment::Inline(vec![0x00]),
    ]);
    assert_backing_covers_audio(100, 1, &layout);
}

#[test]
fn flac_fixture_parses() {
    let f = flac(&[1, 2, 3, 4, 5, 6, 7, 8]);
    let scan = musefs_format::flac::locate_audio(&f).unwrap();
    assert_eq!(scan.audio_length, 8);
}

#[test]
fn flac_block_encodes_24bit_length_big_endian() {
    let len = 0x03_02_01usize;
    let body = vec![0xABu8; len];
    let block = flac_block(4, &body, false);
    assert_eq!(block[0], 4, "block type, last-flag clear");
    assert_eq!(
        &block[1..4],
        &[0x03, 0x02, 0x01],
        "24-bit big-endian length"
    );
    assert_eq!(block.len(), 4 + len);
}

#[test]
fn m4a_fixture_parses() {
    let f = m4a(&[9u8; 16]);
    let b = musefs_format::mp4::locate_audio(&f).unwrap();
    assert_eq!(b.audio_length, 16);
}

#[test]
fn m4a_two_covers_fixture_parses_with_both_pictures() {
    let f = m4a_two_covers(&[9u8; 16]);
    let b = musefs_format::mp4::locate_audio(&f).unwrap();
    assert_eq!(b.audio_length, 16);
    let pics = musefs_format::mp4::read_pictures(&f, usize::MAX);
    assert_eq!(pics.len(), 2);
    assert_eq!(pics[0].mime, "image/jpeg");
    assert_eq!(pics[0].data, [0xFF, 0xD8, 0xFF, 0xE0, 1, 2, 3]);
    assert_eq!(pics[1].mime, "image/png");
    assert_eq!(pics[1].data, [0x89, b'P', b'N', b'G', 4, 5]);
}

#[test]
fn m4a_stco_offset_points_at_mdat_payload() {
    let payload = b"AUDIOAUDIO";
    let f = m4a(payload);
    let expected = u32::try_from(f.len() - payload.len()).unwrap();
    let stco = f
        .windows(4)
        .position(|w| w == b"stco")
        .expect("stco present");

    let off = u32::from_be_bytes(f[stco + 12..stco + 16].try_into().unwrap());
    assert_eq!(off, expected);
    assert!(off > 0);
}

#[test]
fn mp3_fixture_parses() {
    let f = mp3();
    musefs_format::mp3::locate_audio(&f).unwrap();
}

#[test]
fn ogg_fixture_parses() {
    let f = ogg_opus();
    musefs_format::ogg::locate_audio(&f).unwrap();
}
