use musefs_format::coverage::backing_covers_audio;
use musefs_format::ogg::{MapArtSource, OggArt};
use musefs_format::{
    flac, mp3, mp4, ogg, ArtInput, BinaryTagInput, Codec, RegionLayout, Segment, TagInput,
};

/// The bytes that a layout is served as.
fn serve(
    layout: &RegionLayout,
    backing: &[u8],
    art: &[(i64, Vec<u8>)],
    payloads: &[(i64, Vec<u8>)],
) -> Vec<u8> {
    let find = |store: &[(i64, Vec<u8>)], id: i64| {
        store.iter().find(|e| e.0 == id).unwrap().1.clone()
    };
    let mut out = Vec::new();
    for s in layout.segments() {
        match s {
            Segment::Inline(b) => out.extend_from_slice(b),
            Segment::ArtImage { art_id, .. } => out.extend(find(art, *art_id)),
            Segment::BinaryTag { payload_id, .. } => out.extend(find(payloads, *payload_id)),
            Segment::BackingAudio { offset, len } => {
                out.extend_from_slice(&backing[*offset as usize..(*offset + *len) as usize]);
            }
            Segment::OggArtSlice { art_id, offset, len, base64, art_total } => {
                let image = find(art, *art_id);
                if *base64 {
                    let w = ogg::b64_window(*offset, len.get(), *art_total);
                    let raw = &image[w.in_start as usize..(w.in_start + w.in_len) as usize];
                    out.extend(ogg::encode_b64_slice(raw, w.skip, len.get() as usize).unwrap());
                } else {
                    out.extend_from_slice(
                        &image[*offset as usize..(*offset + len.get()) as usize],
                    );
                }
            }
            Segment::OggAudio { offset, len, seq_delta, .. } => {
                let mut pos = *offset as usize;
                let end = (*offset + *len) as usize;
                while pos < end {
                    let h = ogg::parse_page(backing, pos).unwrap();
                    let page = &backing[pos..pos + h.total_len()];
                    let seq = u32::try_from(i64::from(h.seq) + *seq_delta).unwrap();
                    let head = ogg::patch_page_header(page, seq).unwrap();
                    out.extend_from_slice(&head);
                    out.extend_from_slice(&page[head.len()..]);
                    pos += h.total_len();
                }
            }
        }
    }
    assert_eq!(out.len() as u64, layout.total_len());
    out
}

fn cover(art_id: i64, picture_type: u32, description: &str, image: &[u8]) -> ArtInput {
    ArtInput {
        art_id,
        mime: "image/png".to_string(),
        description: description.to_string(),
        picture_type,
        width: 3,
        height: 4,
        data_len: image.len() as u64,
    }
}

fn pairs(list: &[(&str, &str)]) -> Vec<(String, String)> {
    list.iter().map(|(k, v)| (k.to_string(), v.to_string())).collect()
}

fn bx(kind: &[u8; 4], payload: &[u8]) -> Vec<u8> {
    let mut v = u32::try_from(8 + payload.len()).unwrap().to_be_bytes().to_vec();
    v.extend_from_slice(kind);
    v.extend_from_slice(payload);
    v
}

/// An M4A whose one chunk begins at the first byte of the audio.
fn m4a(audio: &[u8]) -> Vec<u8> {
    let build = |chunk: u32| {
        let mut hdlr = vec![0u8; 8];
        hdlr.extend_from_slice(b"soun");
        hdlr.extend_from_slice(&[0u8; 12]);
        let mut stco = vec![0u8; 4];
        stco.extend_from_slice(&1u32.to_be_bytes());
        stco.extend_from_slice(&chunk.to_be_bytes());
        let stbl = bx(b"stbl", &bx(b"stco", &stco));
        let mdia = bx(b"mdia", &[bx(b"hdlr", &hdlr), bx(b"minf", &stbl)].concat());
        let moov = bx(b"moov", &[bx(b"mvhd", &[0u8; 20]), bx(b"trak", &mdia)].concat());
        [bx(b"ftyp", b"M4A \0\0\0\0"), moov].concat()
    };
    let at = build(0).len() + 8;
    [build(u32::try_from(at).unwrap()), bx(b"mdat", audio)].concat()
}

#[test]
fn a_flac_file_reads_back_as_it_was_tagged() {
    let mut file = b"fLaC".to_vec();
    file.extend_from_slice(&[0x00, 0, 0, 34]);
    file.extend_from_slice(&[7u8; 34]);
    file.extend_from_slice(&[0x83, 0, 0, 18]);
    file.extend_from_slice(&[9u8; 18]);
    let audio = [0xff, 0xf8, 1, 2, 3];
    file.extend_from_slice(&audio);
    let scan = flac::locate_audio(&file).unwrap();
    assert_eq!(scan.audio_length, 5);
    let image = vec![1u8, 2, 3, 4, 5];
    let art = cover(1, 3, "front", &image);
    let app = vec![0x61, 0x70, 0x70, 0x6c, 1, 2];
    let bin = BinaryTagInput { key: "APPLICATION".to_string(), payload_id: 4, len: 6 };
    let layout = flac::synthesize_layout(
        &scan.preserved,
        scan.audio_offset,
        scan.audio_length,
        &[TagInput::new("title", "A"), TagInput::new("mood", "calm")],
        &[bin],
        &[art],
    )
    .unwrap();
    assert!(backing_covers_audio(scan.audio_offset, scan.audio_length, &layout));
    let out = serve(&layout, &file, &[(1, image.clone())], &[(4, app.clone())]);
    let back = flac::locate_audio(&out).unwrap();
    assert_eq!(&out[back.audio_offset as usize..], &audio);
    assert!(back.preserved.iter().any(|b| b.block_type == 0 && b.body == [7u8; 34]));
    assert!(back.preserved.iter().any(|b| b.block_type == 3 && b.body == [9u8; 18]));
    assert!(back.preserved.iter().any(|b| b.block_type == 2 && b.body == app));
    assert_eq!(
        flac::read_vorbis_comments(&out).unwrap(),
        pairs(&[("title", "A"), ("MOOD", "calm")])
    );
    let pics = flac::read_pictures(&out).unwrap();
    assert_eq!(pics.len(), 1);
    assert_eq!(pics[0].data, image);
    assert_eq!(pics[0].description, "front");
    assert_eq!((pics[0].width, pics[0].height, pics[0].picture_type.get()), (3, 4, 3));
}

#[test]
fn an_mp3_file_reads_back_as_it_was_tagged() {
    let file = [0xffu8, 0xfb, 0x90, 0x00, 1, 2, 3, 4];
    let bounds = mp3::locate_audio(&file).unwrap();
    let front = vec![1u8; 300];
    let back_image = vec![2u8; 10];
    let tags = [
        TagInput::new("artist", "One"),
        TagInput::new("artist", "Two"),
        TagInput::new("comment", "Nice \u{e9}"),
        TagInput::new("lyrics", "La\nla"),
        TagInput::new("rating", "200"),
        TagInput::new("playcount", "70000"),
        TagInput::new("musicbrainz_trackid", "abc-def"),
        TagInput::new("replaygain_track_gain", "-3 dB"),
        TagInput::new("Some Key", ""),
        TagInput::new("TKEY", "Am"),
        TagInput::new("TIT2", "Frame id"),
    ];
    let payloads = [
        (10, b"owner\0data".to_vec()),
        (11, b"other\0id".to_vec()),
        (12, vec![1u8, 2, 3]),
        (13, vec![9u8]),
        (14, b"\x00app/x\0f\0d\0body".to_vec()),
    ];
    let bins = [
        BinaryTagInput { key: "PRIV".to_string(), payload_id: 10, len: 10 },
        BinaryTagInput { key: "UFID".to_string(), payload_id: 11, len: 8 },
        BinaryTagInput { key: "XYZ1".to_string(), payload_id: 12, len: 3 },
        BinaryTagInput { key: "XYZ1".to_string(), payload_id: 13, len: 1 },
        BinaryTagInput { key: "GEOB".to_string(), payload_id: 14, len: 15 },
    ];
    let arts = [cover(1, 3, "front", &front), cover(2, 40, "", &back_image)];
    let layout = mp3::synthesize_layout(
        bounds.audio_offset,
        bounds.audio_length,
        &tags,
        &bins,
        &arts,
    )
    .unwrap();
    assert!(backing_covers_audio(bounds.audio_offset, bounds.audio_length, &layout));
    let store = [(1, front.clone()), (2, back_image.clone())];
    let out = serve(&layout, &file, &store, &payloads);
    assert!(mp3::id3v2_alloc_safe(&out));
    assert_eq!(
        mp3::read_tags(&out),
        pairs(&[
            ("artist", "One"),
            ("artist", "Two"),
            ("comment", "Nice \u{e9}"),
            ("lyrics", "La\nla"),
            ("replaygain_track_gain", "-3 dB"),
            ("Some Key", ""),
            ("TKEY", "Am"),
            ("title", "Frame id"),
        ])
    );
    let (opaque, promoted) = mp3::read_binary_tags(&out);
    let got: Vec<(String, Vec<u8>)> = opaque.into_iter().map(|t| (t.key, t.payload)).collect();
    let want: Vec<(String, Vec<u8>)> = bins
        .iter()
        .zip(payloads.iter())
        .map(|(b, p)| (b.key.clone(), p.1.clone()))
        .collect();
    assert_eq!(got, want);
    assert_eq!(
        promoted,
        pairs(&[
            ("rating", "200"),
            ("playcount", "70000"),
            ("musicbrainz_trackid", "abc-def"),
        ])
    );
    let pics = mp3::read_pictures(&out);
    assert_eq!(pics.len(), 2);
    assert_eq!((pics[0].picture_type.get(), pics[1].picture_type.get()), (3, 0));
    assert_eq!((pics[0].description.as_str(), pics[1].description.as_str()), ("front", ""));
    assert_eq!((&pics[0].data, &pics[1].data), (&front, &back_image));
    let again = mp3::locate_audio(&out).unwrap();
    assert_eq!(&out[again.audio_offset as usize..], &file);
}

#[test]
fn a_play_count_above_32_bits_comes_back_clamped() {
    let layout = mp3::synthesize_layout(
        0,
        0,
        &[TagInput::new("rating", "1"), TagInput::new("playcount", "4294967296")],
        &[],
        &[],
    )
    .unwrap();
    let out = serve(&layout, &[], &[], &[]);
    assert_eq!(
        mp3::read_binary_tags(&out).1,
        pairs(&[("rating", "1"), ("playcount", "4294967295")])
    );
}

#[test]
fn of_frames_that_are_alike_the_last_is_read() {
    let layout = mp3::synthesize_layout(
        0,
        0,
        &[TagInput::new("mood", "calm"), TagInput::new("mood", "wild")],
        &[],
        &[],
    )
    .unwrap();
    let out = serve(&layout, &[], &[], &[]);
    assert_eq!(mp3::read_tags(&out), pairs(&[("mood", "wild")]));
}

#[test]
fn an_mp4_file_reads_back_as_it_was_tagged() {
    let audio = b"AUDIOBYTES";
    let file = m4a(audio);
    let scan = mp4::read_structure(&file).unwrap();
    let image = vec![5u8; 20];
    let payload = vec![8u8, 9];
    let layout = mp4::synthesize_layout(
        &scan,
        &[
            TagInput::new("title", "T"),
            TagInput::new("tracknumber", "03/12"),
            TagInput::new("artist", "A"),
            TagInput::new("artist", "B"),
            TagInput::new("Mood", "calm"),
        ],
        &[BinaryTagInput { key: "----:com.x:blob".to_string(), payload_id: 2, len: 2 }],
        &[cover(1, 3, "", &image)],
    )
    .unwrap();
    assert!(backing_covers_audio(scan.mdat_payload_offset, scan.mdat_payload_len, &layout));
    let out = serve(&layout, &file, &[(1, image.clone())], &[(2, payload.clone())]);
    let got: Vec<(String, mp4::TagValue)> = mp4::read_tags(&out);
    let want: Vec<(String, mp4::TagValue)> = pairs(&[
        ("title", "T"),
        ("tracknumber", "3/12"),
        ("artist", "A"),
        ("artist", "B"),
        ("Mood", "calm"),
    ])
    .into_iter()
    .map(|(k, v)| (k, mp4::TagValue::Text(v)))
    .collect();
    assert_eq!(got, want);
    let pics = mp4::read_pictures(&out, 1000);
    assert_eq!(pics.len(), 1);
    assert_eq!(pics[0].data, image);
    let bins = mp4::read_binary_tags(&out, 1000);
    assert_eq!(bins.len(), 1);
    assert_eq!((bins[0].key.as_str(), &bins[0].payload), ("----:com.x:blob", &payload));
    // The chunk offset follows the audio, and a second pass changes nothing.
    let again = mp4::read_structure(&out).unwrap();
    let at = again.mdat_payload_offset as usize;
    assert_eq!(&out[at..at + audio.len()], audio);
    let stco = out.windows(4).position(|w| w == b"stco").unwrap();
    let chunk = u32::from_be_bytes(out[stco + 12..stco + 16].try_into().unwrap());
    assert_eq!(chunk as usize, at);
    assert_eq!(mp4::chunk_offsets(&scan.moov).unwrap(), [[scan.mdat_payload_offset]]);
    assert_eq!(mp4::chunk_offsets(&again.moov).unwrap(), [[again.mdat_payload_offset]]);
    assert!(mp4::chunk_offsets(&again.moov[..again.moov.len() - 1]).is_err());
    assert_eq!(again.mdat_payload_offset, layout.header_len());
    assert_eq!(again.mdat_payload_len, scan.mdat_payload_len);
}

fn opus_file(audio_pages: u32) -> Vec<u8> {
    let tags = {
        let mut t = b"OpusTags".to_vec();
        t.extend_from_slice(&[0, 0, 0, 0, 0, 0, 0, 0]);
        t
    };
    let (mut file, pages) = ogg::build_header(77, &[b"OpusHead\x01\x02".as_slice(), &tags]);
    for i in 0..audio_pages {
        let (page, _) = ogg::lace_packet(77, pages + i, false, 960, &[i as u8; 300]);
        file.extend_from_slice(&page);
    }
    file
}

#[test]
fn an_opus_file_reads_back_as_it_was_tagged() {
    let file = opus_file(3);
    let scan = ogg::locate_audio(&file).unwrap();
    let header = ogg::read_metadata(&file[..scan.audio_offset as usize]).unwrap();
    let image: Vec<u8> = (0..100_000u32).map(|i| (i % 253) as u8).collect();
    let art = cover(1, 3, "d", &image);
    let src = MapArtSource::new(vec![(1, image.clone())]);
    let layout = ogg::synthesize_layout(
        &header,
        scan.audio_offset,
        scan.audio_length,
        &[TagInput::new("title", "T"), TagInput::new("Mood", "m")],
        &[OggArt { meta: &art }],
        &src,
    )
    .unwrap();
    assert!(backing_covers_audio(scan.audio_offset, scan.audio_length, &layout));
    let out = serve(&layout, &file, &[(1, image.clone())], &[]);
    let back = ogg::read_header(&out).unwrap();
    assert_eq!((back.codec, back.serial, back.packets.len()), (Codec::Opus, 77, 2));
    assert_eq!(back.packets[0], header.packets[0]);
    // The slices of the image go from its first character to its last without a gap.
    let mut next = 0;
    for s in layout.segments() {
        if let Segment::OggArtSlice { offset, len, .. } = s {
            assert_eq!(*offset, next);
            next += len.get();
        }
    }
    assert_eq!(next, ogg::b64_len(image.len() as u64));
    let delta = i64::from(back.header_pages) - i64::from(header.header_pages);
    assert!(matches!(
        layout.segments().last(),
        Some(Segment::OggAudio { seq_delta, .. }) if *seq_delta == delta
    ));
    assert_eq!(ogg::read_tags(&out).unwrap(), pairs(&[("title", "T"), ("MOOD", "m")]));
    let pics = ogg::read_pictures(&out).unwrap();
    assert_eq!(pics.len(), 1);
    assert_eq!(pics[0].data, image);
    assert_eq!(pics[0].description.trim_end_matches(' '), "d");
    // Every page verifies, and the numbers count up from 0.
    let (mut pos, mut seq) = (0, 0);
    while pos < out.len() {
        let h = ogg::parse_page(&out, pos).unwrap();
        assert_eq!((h.seq, h.serial), (seq, 77));
        assert!(ogg::verify_page_crc(&out[pos..]).unwrap());
        pos += h.total_len();
        seq += 1;
    }
    // The audio packets are untouched.
    let audio = ogg::read_packets(&out, 5).unwrap();
    assert_eq!(audio[4].data, [2u8; 300]);
}

#[test]
fn an_oggflac_file_reads_back_as_it_was_tagged() {
    let mut mapping = b"\x7fFLAC\x01\x00\x00\x02fLaC".to_vec();
    mapping.extend_from_slice(&[0x00, 0, 0, 34]);
    mapping.extend_from_slice(&[3u8; 34]);
    let mut comment = vec![0x04, 0, 0, 8];
    comment.extend_from_slice(&[0u8; 8]);
    let mut table = vec![0x83, 0, 0, 18];
    table.extend_from_slice(&[6u8; 18]);
    let (mut file, pages) = ogg::build_header(5, &[mapping.as_slice(), &comment, &table]);
    let (page, _) = ogg::lace_packet(5, pages, false, 1, &[0xff, 0xf8, 1]);
    file.extend_from_slice(&page);
    let scan = ogg::locate_audio(&file).unwrap();
    let header = ogg::read_metadata(&file[..scan.audio_offset as usize]).unwrap();
    let image = vec![4u8; 70_000];
    let art = cover(9, 0, "back", &image);
    let src = MapArtSource::new(vec![(9, image.clone())]);
    let layout = ogg::synthesize_layout(
        &header,
        scan.audio_offset,
        scan.audio_length,
        &[TagInput::new("album", "L")],
        &[OggArt { meta: &art }],
        &src,
    )
    .unwrap();
    let out = serve(&layout, &file, &[(9, image.clone())], &[]);
    let back = ogg::read_header(&out).unwrap();
    assert_eq!((back.codec, back.packets.len()), (Codec::OggFlac, 4));
    assert_eq!(back.packets[1][4..], [6u8; 18]);
    assert_eq!(ogg::read_tags(&out).unwrap(), pairs(&[("album", "L")]));
    let pics = ogg::read_pictures(&out).unwrap();
    assert_eq!(pics.len(), 1);
    assert_eq!(pics[0].data, image);
}

#[test]
fn a_chapter_list_and_other_metadata_are_carried_through() {
    let keyed = {
        let mut hdlr = vec![0u8; 8];
        hdlr.extend_from_slice(b"mdta");
        hdlr.extend_from_slice(&[0u8; 12]);
        bx(b"meta", &bx(b"hdlr", &hdlr))
    };
    let foreign = {
        let mut hdlr = vec![0u8; 8];
        hdlr.extend_from_slice(b"ID32");
        hdlr.extend_from_slice(&[0u8; 12]);
        bx(b"meta", &bx(b"hdlr", &hdlr))
    };
    let mut soun = vec![0u8; 8];
    soun.extend_from_slice(b"soun");
    soun.extend_from_slice(&[0u8; 12]);
    let mut stco = vec![0u8; 4];
    stco.extend_from_slice(&1u32.to_be_bytes());
    stco.extend_from_slice(&1000u32.to_be_bytes());
    let minf = bx(b"minf", &bx(b"stbl", &bx(b"stco", &stco)));
    let trak = bx(b"trak", &bx(b"mdia", &[bx(b"hdlr", &soun), minf].concat()));
    let chpl = bx(b"chpl", b"chapters");
    let udta = bx(b"udta", &[bx(b"name", b"x"), chpl.clone()].concat());
    let mvhd = bx(b"mvhd", &[3; 20]);
    let moov = bx(b"moov", &[mvhd.clone(), keyed, udta, trak, foreign.clone()].concat());
    let file = [bx(b"ftyp", b"M4A "), moov, bx(b"mdat", b"AUDIO")].concat();
    let scan = mp4::read_structure(&file).unwrap();
    let layout =
        mp4::synthesize_layout(&scan, &[TagInput::new("title", "T")], &[], &[]).unwrap();
    let out = serve(&layout, &file, &[], &[]);
    let again = mp4::read_structure(&out).unwrap();
    let movie = &again.moov[8..];
    let kids = mp4::child_boxes(movie).unwrap();
    let kinds: Vec<[u8; 4]> = kids.iter().map(|b| b.kind).collect();
    assert_eq!(kinds, [*b"mvhd", *b"trak", *b"meta", *b"udta"]);
    assert_eq!(&movie[kids[0].start..kids[0].end()], &mvhd);
    assert_eq!(&movie[kids[2].start..kids[2].end()], &foreign);
    assert!(kids[3].payload(movie).ends_with(&chpl));
    assert!(mp4::keyed_metas(&out).is_empty());
    let delta = again.mdat_payload_offset - scan.mdat_payload_offset;
    assert_eq!(mp4::chunk_offsets(&again.moov).unwrap(), [[1000 + delta]]);
}

#[test]
fn a_track_that_leaves_its_size_open_is_written_with_one() {
    let file = m4a(b"AUDIO");
    let at = file.windows(4).position(|w| w == b"trak").unwrap() - 4;
    let mut open = file.clone();
    open[at..at + 4].copy_from_slice(&[0; 4]);
    let scan = mp4::read_structure(&open).unwrap();
    let layout =
        mp4::synthesize_layout(&scan, &[TagInput::new("title", "T")], &[], &[]).unwrap();
    let out = serve(&layout, &open, &[], &[]);
    let again = mp4::read_structure(&out).unwrap();
    assert_eq!(again.mdat_payload_offset, layout.header_len());
    assert_eq!(mp4::chunk_offsets(&again.moov).unwrap(), [[again.mdat_payload_offset]]);
    assert_eq!(
        mp4::read_tags(&out),
        vec![("title".to_string(), mp4::TagValue::Text("T".to_string()))]
    );
}
