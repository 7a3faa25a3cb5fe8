use musefs_format::coverage::backing_covers_audio;
use musefs_format::mp3::read::{pictures_of_frames, tags_of_frames, Id3Frame};
use musefs_format::mp4::{Mp4ScanError, StructureWalk};
use musefs_format::ogg::chunks::read_page_window;
use musefs_format::ogg::{ArtSource, MapArtSource, OggArt};
use musefs_format::text::{decimal_text, parse_number, signed_decimal_text, utf16_text};
use musefs_format::{
    flac, id3v2, mp3, mp4, ogg, vorbiscomment, ArtInput, BlobLen, Extent, FormatError,
    LayoutError, OggHeader, RegionLayout, Segment, TagInput,
};

fn bx(kind: &[u8; 4], payload: &[u8]) -> Vec<u8> {
    let mut v = u32::try_from(8 + payload.len()).unwrap().to_be_bytes().to_vec();
    v.extend_from_slice(kind);
    v.extend_from_slice(payload);
    v
}

#[test]
fn every_error_says_what_is_wrong() {
    let cases = [
        (FormatError::NotFlac, "not a FLAC stream (missing fLaC marker)"),
        (
            FormatError::NotMp3,
            "not an MP3 stream (no MPEG frame sync at the audio offset)",
        ),
        (FormatError::Malformed, "truncated or malformed metadata"),
        (
            FormatError::TooLarge,
            "synthesized metadata exceeds the format's size limit",
        ),
        (FormatError::NotMp4, "not a supported MP4/M4A file"),
        (
            FormatError::Mp4Tracks("why".to_string()),
            "not a supported MP4/M4A file: why",
        ),
        (FormatError::NotWav, "not a supported WAV/RIFF file"),
        (
            FormatError::InvalidLayout(LayoutError::EmptySegment),
            "synthesized region layout violates producer invariants: \
             a segment reported zero length",
        ),
        (FormatError::ProducerBug("x"), "producer invariant violated: x"),
        (
            FormatError::ArtRead { art_id: -12 },
            "art bytes could not be read: -12",
        ),
    ];
    for (e, text) in cases {
        assert_eq!(e.message(), text);
    }
}

#[test]
fn every_layout_fault_is_found_and_named() {
    let slice = |offset: u64, len: u64, base64: bool, art_total: u64| Segment::OggArtSlice {
        art_id: 1,
        offset,
        len: BlobLen::new(len).unwrap(),
        base64,
        art_total,
    };
    let cases = [
        (
            vec![Segment::Inline(vec![])],
            LayoutError::EmptySegment,
            "a segment reported zero length",
        ),
        (
            vec![
                Segment::BackingAudio { offset: 0, len: u64::MAX },
                Segment::Inline(vec![1]),
            ],
            LayoutError::TotalOverflow,
            "total layout length overflowed u64",
        ),
        (
            vec![Segment::BackingAudio { offset: u64::MAX, len: 1 }],
            LayoutError::BackingRangeOverflow,
            "backing-audio range offset + length overflowed u64",
        ),
        (
            vec![slice(u64::MAX, 1, false, 4)],
            LayoutError::OggArtSliceRangeOverflow,
            "ogg art slice range (offset + length, or base64 output length) overflowed u64",
        ),
        (
            vec![slice(2, 3, false, 4)],
            LayoutError::OggArtSliceOutOfBounds,
            "ogg art slice output window exceeds the source art length",
        ),
    ];
    for (segments, fault, text) in cases {
        assert_eq!(fault.message(), text);
        assert_eq!(RegionLayout::validated(segments).unwrap_err(), fault);
    }
    assert_eq!(
        FormatError::from(LayoutError::TotalOverflow),
        FormatError::InvalidLayout(LayoutError::TotalOverflow)
    );
}

#[test]
fn a_layout_that_does_not_cover_the_audio_is_told() {
    let backing = |offset: u64, len: u64| Segment::BackingAudio { offset, len };
    let bad = [
        vec![Segment::Inline(vec![0; 12]), backing(100, 40)],
        vec![backing(101, 50)],
        vec![backing(100, 25), Segment::Inline(vec![0xff]), backing(125, 25)],
        vec![Segment::Inline(vec![0; 12])],
    ];
    for segments in bad {
        assert!(!backing_covers_audio(100, 50, &RegionLayout::new(segments)));
    }
    let good = RegionLayout::new(vec![backing(100, 25), backing(125, 25)]);
    assert!(backing_covers_audio(100, 50, &good));
}

#[test]
fn each_format_refuses_what_is_not_its_own() {
    assert_eq!(flac::locate_audio(b"RIFF....").unwrap_err(), FormatError::NotFlac);
    assert_eq!(mp3::locate_audio(b"RIFF").unwrap_err(), FormatError::NotMp3);
    assert_eq!(mp4::read_structure(b"").unwrap_err(), FormatError::NotMp4);
    assert_eq!(ogg::read_header(b"RIFF").unwrap_err(), FormatError::Malformed);
}

#[test]
fn art_that_is_missing_is_reported_by_id() {
    let header = OggHeader {
        codec: musefs_format::Codec::Opus,
        serial: 1,
        packets: vec![b"OpusHead".to_vec(), b"OpusTags".to_vec()],
        header_pages: 2,
        audio_offset: 0,
    };
    let art = ArtInput {
        art_id: 42,
        mime: "image/png".to_string(),
        description: String::new(),
        picture_type: 3,
        width: 0,
        height: 0,
        data_len: 5,
    };
    let src = MapArtSource::new(vec![]);
    let r = ogg::synthesize_layout(&header, 0, 1, &[], &[OggArt { meta: &art }], &src);
    assert_eq!(r.unwrap_err(), FormatError::ArtRead { art_id: 42 });
}

#[test]
fn text_that_is_not_utf8_is_read_with_replacement_characters() {
    let mut body = 3u32.to_be_bytes().to_vec();
    body.extend_from_slice(&9u32.to_be_bytes());
    body.extend_from_slice(b"image/png");
    body.extend_from_slice(&4u32.to_be_bytes());
    body.extend_from_slice(&[b'a', 0xff, 0xc3, 0xa9]);
    body.extend_from_slice(&[0; 16]);
    body.extend_from_slice(&1u32.to_be_bytes());
    body.push(7);
    let pic = flac::parse_picture_block(&body).unwrap();
    assert_eq!(pic.description, "a\u{fffd}\u{e9}");
    assert_eq!(pic.data, [7]);
}

#[test]
fn utf16_text_is_decoded_or_refused() {
    assert_eq!(
        utf16_text(&vec![0x48, 0xd83d, 0xde00]).unwrap(),
        "H\u{1f600}"
    );
    assert_eq!(utf16_text(&vec![0xde00]), None);
}

#[test]
fn numbers_and_their_text() {
    assert_eq!(decimal_text(0), "0");
    assert_eq!(decimal_text(u64::MAX), "18446744073709551615");
    assert_eq!(signed_decimal_text(i64::MIN), "-9223372036854775808");
    assert_eq!(parse_number(b"+070"), Some(70));
    assert_eq!(parse_number(b"18446744073709551615"), Some(u64::MAX));
    assert_eq!(parse_number(b"18446744073709551616"), None);
    assert_eq!(parse_number(b""), None);
    assert_eq!(parse_number(b"-1"), None);
}

#[test]
fn a_tag_of_another_form_is_still_read() {
    // v2.3: a UTF-16 title and two performers parted by a slash.
    let mut frames = Vec::new();
    let mut frame = |id: &[u8; 4], body: &[u8]| {
        frames.extend_from_slice(id);
        frames.extend_from_slice(&u32::try_from(body.len()).unwrap().to_be_bytes());
        frames.extend_from_slice(&[0, 0]);
        frames.extend_from_slice(body);
    };
    frame(b"TIT2", &[1, 0xff, 0xfe, 0x48, 0, 0x69, 0]);
    frame(b"TPE1", b"\0A/B");
    frame(b"APIC", b"\0image/png\0\x03\0PIC");
    let mut tag = b"ID3\x03\0\0".to_vec();
    tag.extend_from_slice(&[0, 0, 0, u8::try_from(frames.len()).unwrap()]);
    tag.extend_from_slice(&frames);
    let want: Vec<(String, String)> = [("title", "Hi"), ("artist", "A"), ("artist", "B")]
        .iter()
        .map(|(k, v)| (k.to_string(), v.to_string()))
        .collect();
    assert_eq!(mp3::read_tags(&tag), want);
    let pics = mp3::read_pictures(&tag);
    assert_eq!(pics.len(), 1);
    assert_eq!((pics[0].mime.as_str(), pics[0].data.as_slice()), ("image/png", b"PIC".as_slice()));
}

#[test]
fn what_was_read_of_the_frames_decides_the_pairs() {
    let frames = vec![
        Id3Frame::Text { id: "TPE1".to_string(), text: "A\0\0B".to_string() },
        Id3Frame::ExtendedText {
            description: "musicbrainz album id".to_string(),
            value: "x".to_string(),
        },
        Id3Frame::Comment { text: "c".to_string() },
        Id3Frame::Other,
        Id3Frame::Picture {
            mime: "image/png".to_string(),
            picture_type: 21,
            description: "d".to_string(),
            data: vec![1],
        },
    ];
    let want: Vec<(String, String)> = [
        ("artist", "A"),
        ("artist", "B"),
        ("musicbrainz_albumid", "x"),
        ("comment", "c"),
    ]
    .iter()
    .map(|(k, v)| (k.to_string(), v.to_string()))
    .collect();
    assert_eq!(tags_of_frames(&frames), want);
    let pics = pictures_of_frames(&frames);
    assert_eq!(pics.len(), 1);
    assert_eq!((pics[0].picture_type.get(), pics[0].description.as_str()), (0, "d"));
}

#[test]
fn a_walk_asks_for_headers_and_then_for_the_metadata() {
    let ftyp = bx(b"ftyp", b"M4A ");
    let moov = bx(b"moov", b"");
    let mdat = bx(b"mdat", &[1; 30]);
    let file = [ftyp.clone(), moov.clone(), mdat].concat();
    let mut walk = StructureWalk::new(file.len() as u64);
    let mut asked = Vec::new();
    while let Some(at) = walk.next_header() {
        asked.push(at);
        let first = &file[at as usize..at as usize + 8];
        let n = mp4::header_bytes(first);
        walk.step(&file[at as usize..at as usize + n]).unwrap();
    }
    assert_eq!(asked, [0, 12, 20]);
    let plan = walk.finish().unwrap();
    assert_eq!((plan.ftyp_at, plan.ftyp_len), (0, 12));
    assert_eq!((plan.moov_at, plan.moov_len), (12, 8));
    assert_eq!((plan.mdat_payload_offset, plan.mdat_payload_len), (28, 30));
}

#[test]
fn a_metadata_box_beyond_the_cap_is_named() {
    let mut walk = StructureWalk::new(1 << 40);
    walk.step(&[0, 0, 0, 8, b'f', b't', b'y', b'p']).unwrap();
    let mut moov = vec![0, 0, 0, 1, b'm', b'o', b'o', b'v'];
    let size: u64 = 1 << 36;
    moov.extend_from_slice(&size.to_be_bytes());
    walk.step(&moov).unwrap();
    walk.step(&[0, 0, 0, 8, b'm', b'd', b'a', b't']).unwrap();
    match walk.finish() {
        Err(Mp4ScanError::MetadataTooLarge { box_kind, size: n, cap }) => {
            assert_eq!((box_kind, n), ("moov", size));
            assert!(cap < size);
        }
        other => panic!("unexpected {other:?}"),
    }
}

#[test]
fn tag_runs_and_their_extents() {
    assert_eq!(id3v2::synchsafe_decode(&[0, 0, 2, 1]), 257);
    assert!(matches!(id3v2::leading_tags_len(b"no tag").unwrap(), Extent::Complete(0)));
}

#[test]
fn a_comment_keeps_every_value_of_a_key_in_order() {
    let tags = [
        TagInput::new("artist", "A"),
        TagInput::new("b\u{e4}d key", "dropped"),
        TagInput::new("artist", "B=b"),
    ];
    let body = vorbiscomment::build(&tags).unwrap();
    let want: Vec<(String, String)> = [("artist", "A"), ("artist", "B=b")]
        .iter()
        .map(|(k, v)| (k.to_string(), v.to_string()))
        .collect();
    assert_eq!(vorbiscomment::parse(&body).unwrap(), want);
}

#[test]
fn any_front_that_reaches_the_audio_has_the_same_header() {
    let tags = [b"OpusTags".as_slice(), &[0; 8]].concat();
    let (mut file, pages) = ogg::build_header(3, &[b"OpusHead\x01".as_slice(), &tags]);
    let (page, _) = ogg::lace_packet(3, pages, false, 960, &[7; 40]);
    file.extend_from_slice(&page);
    let whole = ogg::read_header(&file).unwrap();
    for n in whole.audio_offset as usize..=file.len() {
        assert_eq!(ogg::read_header(&file[..n]).unwrap(), whole);
    }
    assert!(ogg::read_header(&file[..40]).is_err());
}

#[test]
fn a_freeform_value_is_read_as_text_or_as_bytes_never_both() {
    let data = |kind: u32, value: &[u8]| {
        bx(b"data", &[kind.to_be_bytes().as_slice(), &[0; 4], value].concat())
    };
    let full = |kind: &[u8; 4], text: &[u8]| bx(kind, &[[0u8; 4].as_slice(), text].concat());
    let atom = bx(
        b"----",
        &[
            full(b"mean", b"m"),
            full(b"name", b"n"),
            data(1, b"text"),
            data(0, b"bytes"),
            data(1, &[0xff]),
        ]
        .concat(),
    );
    let meta = full(b"meta", &bx(b"ilst", &atom));
    let file = bx(b"moov", &bx(b"udta", &meta));
    let tags = mp4::read_tags(&file);
    assert_eq!(
        tags,
        vec![("n".to_string(), mp4::TagValue::Text("text".to_string()))]
    );
    let bins = mp4::read_binary_tags(&file, 100);
    assert_eq!(bins.len(), 1);
    assert_eq!((bins[0].key.as_str(), bins[0].payload.as_slice()), ("----:m:n", b"bytes".as_slice()));
}

#[test]
fn a_run_of_as_many_tags_as_the_cap_is_stepped_over() {
    let tag = b"ID3\x04\0\0\0\0\0\0";
    let mut run = tag.repeat(id3v2::MAX_LEADING_TAGS);
    assert!(matches!(id3v2::leading_tags_len(&run).unwrap(), Extent::Complete(640)));
    run.extend_from_slice(b"fLaC");
    assert!(matches!(id3v2::leading_tags_len(&run).unwrap(), Extent::Complete(640)));
    let longer = tag.repeat(id3v2::MAX_LEADING_TAGS + 1);
    assert_eq!(id3v2::leading_tags_len(&longer).unwrap_err(), FormatError::Malformed);
}

#[test]
fn a_copy_of_a_layout_is_the_same_layout() {
    let layout = RegionLayout::new(vec![
        Segment::Inline(vec![1, 2, 3]),
        Segment::ArtImage { art_id: 1, len: BlobLen::new(9).unwrap() },
        Segment::BinaryTag { payload_id: 2, len: BlobLen::new(4).unwrap() },
        Segment::OggArtSlice {
            art_id: 3,
            offset: 1,
            len: BlobLen::new(2).unwrap(),
            base64: true,
            art_total: 30,
        },
        Segment::OggAudio { offset: 5, len: 6, seq_delta: -1, serial: 7 },
        Segment::BackingAudio { offset: 8, len: 9 },
    ]);
    assert_eq!(layout.clone(), layout);
    assert_eq!(layout.clone().total_len(), 33);
}

#[test]
fn a_box_behind_its_parent_is_not_inside_it() {
    let inside = bx(b"mdia", &bx(b"hdlr", &[7; 12]));
    assert_eq!(mp4::find_path(&inside, &[b"mdia", b"hdlr"]).unwrap(), Some((16, 12)));
    let behind = [bx(b"mdia", b""), bx(b"hdlr", &[7; 12])].concat();
    assert_eq!(mp4::find_path(&behind, &[b"mdia", b"hdlr"]).unwrap(), None);
    // What follows the parent need not be readable.
    let followed = [bx(b"mdia", &bx(b"hdlr", &[7; 12])), vec![0, 0, 0, 4]].concat();
    assert_eq!(mp4::find_path(&followed, &[b"mdia", b"hdlr"]).unwrap(), Some((16, 12)));
}

#[test]
fn audio_beyond_a_signed_offset_is_too_large() {
    let scan = mp4::Mp4Scan {
        ftyp: bx(b"ftyp", b"M4A "),
        moov: bx(b"moov", b""),
        mdat_header: vec![0, 0, 0, 8, b'm', b'd', b'a', b't'],
        mdat_payload_offset: 1 << 63,
        mdat_payload_len: 0,
    };
    let r = mp4::synthesize_layout(&scan, &[], &[], &[]);
    assert_eq!(r.unwrap_err(), FormatError::TooLarge);
}

#[test]
fn a_changed_bit_of_a_page_is_detected() {
    let (page, _) = ogg::lace_packet(9, 3, false, 960, &[0xab; 300]);
    assert!(ogg::verify_page_crc(&page).unwrap());
    let header = page.len() - 300;
    for i in (0..26).chain(header..page.len()) {
        for bit in 0..8 {
            let mut bad = page.clone();
            bad[i] ^= 1 << bit;
            let verdict = ogg::verify_page_crc(&bad);
            if i < 5 {
                assert_eq!(verdict, Err(FormatError::Malformed));
            } else {
                assert_eq!(verdict, Ok(false));
            }
        }
    }
}

#[test]
fn a_picture_block_is_read_whole_or_not_at_all() {
    let mut body = 7u32.to_be_bytes().to_vec();
    body.extend_from_slice(&9u32.to_be_bytes());
    body.extend_from_slice(b"image/png");
    body.extend_from_slice(&2u32.to_be_bytes());
    body.extend_from_slice(b"hi");
    for n in [11u32, 12, 24, 256, 3] {
        body.extend_from_slice(&n.to_be_bytes());
    }
    body.extend_from_slice(&[1, 2, 3]);
    let whole = flac::parse_picture_block(&body).unwrap();
    assert_eq!((whole.width, whole.height, whole.data.as_slice()), (11, 12, [1, 2, 3].as_slice()));
    let followed = [body.as_slice(), b"junk"].concat();
    assert_eq!(flac::parse_picture_block(&followed).unwrap(), whole);
    for k in 0..body.len() {
        assert_eq!(flac::parse_picture_block(&body[..k]).unwrap_err(), FormatError::Malformed);
    }
}

#[test]
fn a_longer_tail_finds_the_same_trailer() {
    let mut file = vec![0xffu8; 300];
    let body = [1u8; 12];
    file.extend_from_slice(b"ID3\x04\0\x10\0\0\0\x0c");
    file.extend_from_slice(&body);
    file.extend_from_slice(b"3DI\x04\0\x10\0\0\0\x0c");
    file.extend_from_slice(b"TAG");
    file.extend_from_slice(&[0; 125]);
    let len = file.len() as u64;
    let whole = match mp3::locate_trailer(&file, len).unwrap() {
        Extent::Complete(t) => t,
        other => panic!("unexpected {other:?}"),
    };
    assert_eq!(whole.tags.len(), 2);
    let mut complete = false;
    for n in 0..=file.len() {
        match mp3::locate_trailer(&file[file.len() - n..], len).unwrap() {
            Extent::Complete(t) => {
                complete = true;
                assert_eq!(t, whole);
            }
            Extent::NeedMore { up_to } => {
                assert!(!complete);
                assert!(n as u64 + 1 <= up_to && up_to <= len);
            }
        }
    }
}

/// A source that never has anything.
struct Broken;

impl ArtSource for Broken {
    fn read_window(&self, _: i64, _: u64, _: &mut [u8]) -> musefs_format::Result<()> {
        Err(FormatError::ProducerBug("no art"))
    }
}

#[test]
fn a_source_is_not_asked_where_there_is_no_art() {
    let header = OggHeader {
        codec: musefs_format::Codec::Opus,
        serial: 1,
        packets: vec![b"OpusHead".to_vec(), b"OpusTags".to_vec()],
        header_pages: 2,
        audio_offset: 0,
    };
    let empty = ArtInput {
        art_id: 1,
        mime: "image/png".to_string(),
        description: String::new(),
        picture_type: 3,
        width: 0,
        height: 0,
        data_len: 0,
    };
    let tags = [TagInput::new("title", "T")];
    let arts = [OggArt { meta: &empty }];
    assert!(ogg::synthesize_layout(&header, 0, 9, &tags, &arts, &Broken).is_ok());
}

#[test]
fn art_is_read_by_the_groups_that_a_page_needs() {
    let image: Vec<u8> = (0..100).collect();
    let src = MapArtSource::new(vec![(1, image.clone())]);
    let raw = read_page_window(&src, 1, false, 100, 10, 20).unwrap();
    assert_eq!(raw, image[10..30]);
    let coded = read_page_window(&src, 1, true, 100, 5, 4).unwrap();
    assert_eq!(coded, image[3..9]);
    let last = read_page_window(&src, 1, true, 100, 132, 4).unwrap();
    assert_eq!(last, image[99..]);
    let missing = read_page_window(&src, 2, false, 100, 0, 1);
    assert_eq!(missing.unwrap_err(), FormatError::ArtRead { art_id: 2 });
}

#[test]
fn a_tag_without_frames_reads_as_nothing_whatever_follows() {
    let audio = [0xffu8, 0xfb, 0x90, 0x00, 1, 2, 3, 4, 5, 6, 7, 8];
    let layout = mp3::synthesize_layout(0, 12, &[], &[], &[]).unwrap();
    let mut file = Vec::new();
    for s in layout.segments() {
        match s {
            Segment::Inline(b) => file.extend_from_slice(b),
            Segment::BackingAudio { .. } => file.extend_from_slice(&audio),
            other => panic!("unexpected {other:?}"),
        }
    }
    assert!(mp3::read_tags(&file).is_empty());
    assert!(mp3::read_pictures(&file).is_empty());
    let (opaque, promoted) = mp3::read_binary_tags(&file);
    assert!(opaque.is_empty() && promoted.is_empty());
}
