use musefs_format::id3v2::is_update;
use musefs_format::mp3::locate::Mp3Bounds;
use musefs_format::mp3::merge::{Mp3Metadata, read_metadata};
use musefs_format::mp3::read::{id3v2_alloc_safe, read_binary_tags};

fn ss(n: usize) -> [u8; 4] {
    let n = u32::try_from(n).unwrap();
    [
        ((n >> 21) & 0x7F) as u8,
        ((n >> 14) & 0x7F) as u8,
        ((n >> 7) & 0x7F) as u8,
        (n & 0x7F) as u8,
    ]
}

/// A v2.4 tag of `frames`, with an extended header carrying the update flag
/// when `update`.
fn tag(frames: &[(&[u8; 4], Vec<u8>)], update: bool) -> Vec<u8> {
    let mut body = Vec::new();
    if update {
        body.extend_from_slice(&[0, 0, 0, 6, 0x01, 0x40]);
    }
    for (id, frame) in frames {
        body.extend_from_slice(*id);
        body.extend_from_slice(&ss(frame.len()));
        body.extend_from_slice(&[0, 0]);
        body.extend_from_slice(frame);
    }
    let mut out = vec![b'I', b'D', b'3', 4, 0, if update { 0x40 } else { 0 }];
    out.extend_from_slice(&ss(body.len()));
    out.extend(body);
    out
}

fn text(value: &str) -> Vec<u8> {
    let mut v = vec![3];
    v.extend_from_slice(value.as_bytes());
    v
}

fn txxx(description: &str, value: &str) -> Vec<u8> {
    let mut v = text(description);
    v.push(0);
    v.extend_from_slice(value.as_bytes());
    v
}

fn apic(picture_type: u8, description: &str, data: &[u8]) -> Vec<u8> {
    let mut v = b"\0image/png\0".to_vec();
    v.push(picture_type);
    v.extend_from_slice(description.as_bytes());
    v.push(0);
    v.extend_from_slice(data);
    v
}

/// A v2.3 tag of `frames`: plain 32-bit frame sizes, and no extended header.
fn tag_v23(frames: &[(&[u8; 4], Vec<u8>)]) -> Vec<u8> {
    let mut body = Vec::new();
    for (id, frame) in frames {
        body.extend_from_slice(*id);
        body.extend_from_slice(&u32::try_from(frame.len()).unwrap().to_be_bytes());
        body.extend_from_slice(&[0, 0]);
        body.extend_from_slice(frame);
    }
    let mut out = vec![b'I', b'D', b'3', 3, 0, 0];
    out.extend_from_slice(&ss(body.len()));
    out.extend(body);
    out
}

/// A v2.2 tag of `frames`: three-character ids and 24-bit frame sizes.
fn tag_v22(frames: &[(&[u8; 3], Vec<u8>)]) -> Vec<u8> {
    let mut body = Vec::new();
    for (id, frame) in frames {
        body.extend_from_slice(*id);
        body.extend_from_slice(&u32::try_from(frame.len()).unwrap().to_be_bytes()[1..]);
        body.extend_from_slice(frame);
    }
    let mut out = vec![b'I', b'D', b'3', 2, 0, 0];
    out.extend_from_slice(&ss(body.len()));
    out.extend(body);
    out
}

/// A text frame body in ISO-8859-1, the encoding every version defines.
fn latin1(value: &str) -> Vec<u8> {
    let mut v = vec![0];
    v.extend_from_slice(value.as_bytes());
    v
}

fn txxx_latin1(description: &str, value: &str) -> Vec<u8> {
    let mut v = latin1(description);
    v.push(0);
    v.extend_from_slice(value.as_bytes());
    v
}

/// A `USER` (terms of use) frame body: encoding, language, text.
fn user(lang: &[u8; 3], text: &str) -> Vec<u8> {
    let mut v = vec![0];
    v.extend_from_slice(lang);
    v.extend_from_slice(text.as_bytes());
    v
}

fn binary_of(m: &Mp3Metadata) -> Vec<(&str, &[u8])> {
    m.binary_tags
        .iter()
        .map(|b| (b.key.as_str(), b.payload.as_slice()))
        .collect()
}

/// Merge `tags`, laid end to end as a file's prepended run.
fn merge(tags: &[Vec<u8>]) -> Mp3Metadata {
    let mut file = Vec::new();
    let mut extents = Vec::new();
    for t in tags {
        extents.push(file.len() as u64..(file.len() + t.len()) as u64);
        file.extend_from_slice(t);
    }
    let bounds = Mp3Bounds {
        audio_offset: file.len() as u64,
        audio_length: 0,
        id3v2_tags: extents,
    };
    read_metadata(&file, &[], file.len() as u64, &bounds)
}

fn sorted(pairs: &[(&str, &str)]) -> Vec<(String, String)> {
    let mut v: Vec<_> = pairs
        .iter()
        .map(|(k, v)| ((*k).to_string(), (*v).to_string()))
        .collect();
    v.sort();
    v
}

fn tags_of(m: &Mp3Metadata) -> Vec<(String, String)> {
    let mut v = m.tags.clone();
    v.sort();
    v
}

#[test]
fn a_later_tag_replaces_everything_before_it() {
    let m = merge(&[
        tag(
            &[
                (b"TIT2", text("One")),
                (b"TPE1", text("Artist")),
                (b"APIC", apic(3, "cover", b"one")),
                (b"PRIV", b"owner\0one".to_vec()),
            ],
            false,
        ),
        tag(&[(b"TIT2", text("Two"))], false),
    ]);
    assert_eq!(tags_of(&m), sorted(&[("title", "Two")]));
    assert!(m.pictures.is_empty(), "{:?}", m.pictures);
    assert!(m.binary_tags.is_empty(), "{:?}", m.binary_tags);
}

#[test]
fn an_update_overrides_only_the_text_keys_it_carries() {
    let m = merge(&[
        tag(
            &[
                (b"TIT2", text("One")),
                (b"TPE1", text("Artist")),
                (b"TXXX", txxx("Flavour", "calm")),
            ],
            false,
        ),
        tag(
            &[(b"TIT2", text("Two")), (b"TXXX", txxx("FLAVOUR", "loud"))],
            true,
        ),
    ]);
    assert_eq!(
        tags_of(&m),
        sorted(&[("FLAVOUR", "loud"), ("artist", "Artist"), ("title", "Two")])
    );
}

#[test]
fn an_update_popm_overrides_rating_and_playcount_together() {
    let m = merge(&[
        tag(&[(b"POPM", vec![0, 10, 0, 0, 0, 5])], false),
        tag(&[(b"POPM", vec![0, 20])], true),
    ]);
    assert_eq!(tags_of(&m), sorted(&[("rating", "20")]));
}

#[test]
fn an_update_picture_overrides_the_picture_with_its_description() {
    let m = merge(&[
        tag(
            &[
                (b"APIC", apic(3, "front", b"old front")),
                (b"APIC", apic(4, "back", b"old back")),
            ],
            false,
        ),
        tag(&[(b"APIC", apic(3, "front", b"new front"))], true),
    ]);
    let got: Vec<(&str, &[u8])> = m
        .pictures
        .iter()
        .map(|p| (p.description.as_str(), p.data.as_slice()))
        .collect();
    assert_eq!(
        got,
        vec![("back", &b"old back"[..]), ("front", &b"new front"[..])]
    );
}

#[test]
fn update_binary_frames_override_by_their_uniqueness_rule() {
    let m = merge(&[
        tag(
            &[
                (b"MCDI", b"old toc".to_vec()),
                (b"UFID", b"one.example\0old".to_vec()),
                (b"UFID", b"two.example\0kept".to_vec()),
                (b"WOAF", b"http://old".to_vec()),
                (b"WCOM", b"http://shop-one".to_vec()),
                (b"PRIV", b"owner\0same".to_vec()),
                (b"GEOB", b"\0mime\0file\0desc\0old".to_vec()),
            ],
            false,
        ),
        tag(
            &[
                (b"MCDI", b"new toc".to_vec()),
                (b"UFID", b"one.example\0new".to_vec()),
                (b"WOAF", b"http://new".to_vec()),
                (b"WCOM", b"http://shop-two".to_vec()),
                (b"PRIV", b"owner\0same".to_vec()),
                (b"GEOB", b"\0mime\0file\0desc\0new".to_vec()),
            ],
            true,
        ),
    ]);
    let got: Vec<(&str, &[u8])> = m
        .binary_tags
        .iter()
        .map(|b| (b.key.as_str(), b.payload.as_slice()))
        .collect();
    assert_eq!(
        got,
        vec![

            ("UFID", &b"two.example\0kept"[..]),
            ("WCOM", b"http://shop-one"),
            ("GEOB", b"\0mime\0file\0desc\0old"),

            ("MCDI", b"new toc"),
            ("UFID", b"one.example\0new"),
            ("WOAF", b"http://new"),
            ("WCOM", b"http://shop-two"),
            ("PRIV", b"owner\0same"),
            ("GEOB", b"\0mime\0file\0desc\0new"),
        ]
    );
}

#[test]
fn a_later_v2_3_tag_updates_rather_than_replaces() {
    let m = merge(&[
        tag_v23(&[
            (b"TIT2", latin1("One")),
            (b"TPE1", latin1("Artist")),
            (b"TXXX", txxx_latin1("Flavour", "calm")),
            (b"APIC", apic(3, "front", b"old front")),
            (b"APIC", apic(4, "back", b"old back")),
            (b"PRIV", b"owner\0one".to_vec()),
        ]),
        tag_v23(&[
            (b"TIT2", latin1("Two")),
            (b"TXXX", txxx_latin1("FLAVOUR", "loud")),
            (b"APIC", apic(3, "front", b"new front")),
            (b"PRIV", b"owner\0two".to_vec()),
        ]),
    ]);
    assert_eq!(
        tags_of(&m),
        sorted(&[("FLAVOUR", "loud"), ("artist", "Artist"), ("title", "Two")])
    );
    let pictures: Vec<(&str, &[u8])> = m
        .pictures
        .iter()
        .map(|p| (p.description.as_str(), p.data.as_slice()))
        .collect();
    assert_eq!(
        pictures,
        vec![("back", &b"old back"[..]), ("front", &b"new front"[..])]
    );
    assert_eq!(
        binary_of(&m),
        vec![("PRIV", &b"owner\0one"[..]), ("PRIV", b"owner\0two")]
    );
}

#[test]
fn a_later_v2_2_tag_updates_rather_than_replaces() {
    let m = merge(&[
        tag_v22(&[(b"TT2", latin1("One")), (b"TP1", latin1("Artist"))]),
        tag_v22(&[(b"TT2", latin1("Two"))]),
    ]);
    assert_eq!(
        tags_of(&m),
        sorted(&[("artist", "Artist"), ("title", "Two")])
    );
}

#[test]
fn the_later_tags_own_version_decides_between_update_and_replace() {
    let older = || tag_v23(&[(b"TIT2", latin1("One")), (b"TPE1", latin1("Artist"))]);
    let newer = || tag(&[(b"TIT2", text("One")), (b"TPE1", text("Artist"))], false);

    let m = merge(&[older(), tag(&[(b"TIT2", text("Two"))], false)]);
    assert_eq!(tags_of(&m), sorted(&[("title", "Two")]));

    let m = merge(&[older(), tag(&[(b"TIT2", text("Two"))], true)]);
    assert_eq!(
        tags_of(&m),
        sorted(&[("artist", "Artist"), ("title", "Two")])
    );

    let m = merge(&[newer(), tag_v23(&[(b"TIT2", latin1("Two"))])]);
    assert_eq!(
        tags_of(&m),
        sorted(&[("artist", "Artist"), ("title", "Two")])
    );
    let m = merge(&[newer(), tag_v22(&[(b"TT2", latin1("Two"))])]);
    assert_eq!(
        tags_of(&m),
        sorted(&[("artist", "Artist"), ("title", "Two")])
    );

    let m = merge(&[
        newer(),
        tag_v23(&[(b"TCON", latin1("Genre"))]),
        tag(&[(b"TIT2", text("Three"))], false),
    ]);
    assert_eq!(tags_of(&m), sorted(&[("title", "Three")]));
}

#[test]
fn a_v2_3_update_overrides_the_frames_v2_3_allows_once_per_tag() {
    let m = merge(&[
        tag_v23(&[
            (b"IPLS", latin1("old people")),
            (b"RVAD", b"old volume".to_vec()),
            (b"EQUA", b"old curve".to_vec()),
            (b"USER", user(b"eng", "old terms")),
            (b"PRIV", b"owner\0kept".to_vec()),
        ]),
        tag_v23(&[
            (b"IPLS", latin1("new people")),
            (b"RVAD", b"new volume".to_vec()),
            (b"EQUA", b"new curve".to_vec()),
            (b"USER", user(b"fra", "new terms")),
        ]),
    ]);
    assert_eq!(
        binary_of(&m),
        vec![
            ("PRIV", &b"owner\0kept"[..]),
            ("IPLS", b"\0new people"),
            ("RVAD", b"new volume"),
            ("EQUA", b"new curve"),
            ("USER", b"\0franew terms"),
        ]
    );
}

#[test]
fn a_v2_4_update_keeps_a_user_frame_in_another_language() {
    let m = merge(&[
        tag(
            &[
                (b"USER", user(b"eng", "english terms")),
                (b"RVAD", b"old volume".to_vec()),
            ],
            false,
        ),
        tag(
            &[
                (b"USER", user(b"fra", "french terms")),
                (b"RVAD", b"new volume".to_vec()),
            ],
            true,
        ),
    ]);
    assert_eq!(
        binary_of(&m),
        vec![
            ("USER", &b"\0engenglish terms"[..]),
            ("USER", b"\0frafrench terms"),
            ("RVAD", b"new volume"),
        ]
    );
}

#[test]
fn a_tag_that_cannot_be_read_replaces_nothing() {
    let mut unreadable = tag(&[(b"TIT2", text("Two"))], false);
    unreadable[5] = 0x80;
    let m = merge(&[tag(&[(b"TIT2", text("One"))], false), unreadable]);
    assert_eq!(tags_of(&m), sorted(&[("title", "One")]));
}

#[test]
fn each_tag_is_read_from_whichever_buffer_holds_it_whole() {
    let front_tag = tag(&[(b"TIT2", text("Front"))], false);
    let back_tag = tag(&[(b"TPE1", text("Back"))], true);
    let mut file = front_tag.clone();
    file.extend_from_slice(&[0xFF, 0xFB]);
    let back_start = file.len();
    file.extend_from_slice(&back_tag);
    let len = file.len() as u64;
    let bounds = Mp3Bounds {
        audio_offset: front_tag.len() as u64,
        audio_length: 2,
        id3v2_tags: vec![0..front_tag.len() as u64, back_start as u64..len],
    };
    let front = &file[..front_tag.len()];
    let m = read_metadata(front, &file[back_start..], len, &bounds);
    assert_eq!(
        tags_of(&m),
        sorted(&[("artist", "Back"), ("title", "Front")])
    );

    let m = read_metadata(front, &file[back_start + 1..], len, &bounds);
    assert_eq!(tags_of(&m), sorted(&[("title", "Front")]));
}

#[test]
fn the_update_flag_is_extended_header_flag_b_of_a_v2_4_tag() {
    let update = tag(&[(b"TIT2", text("x"))], true);
    assert!(is_update(&update));
    let not_update = |f: &dyn Fn(&mut Vec<u8>)| {
        let mut t = update.clone();
        f(&mut t);
        assert!(!is_update(&t), "{t:02x?}");
    };
    not_update(&|t| t[15] = 0x00);
    not_update(&|t| t[15] = 0x20);
    not_update(&|t| t[14] = 2);
    not_update(&|t| t[3] = 3);
    not_update(&|t| t[5] = 0);
    assert!(!is_update(&tag(&[(b"TIT2", text("x"))], false)));
}

#[test]
fn the_guard_reads_a_well_formed_v2_4_extended_header_and_nothing_else() {
    let update = tag(&[(b"PRIV", b"o\0data".to_vec())], true);
    assert!(id3v2_alloc_safe(&update));

    let (opaque, _) = read_binary_tags(&update);
    let got: Vec<(&str, &[u8])> = opaque
        .iter()
        .map(|b| (b.key.as_str(), b.payload.as_slice()))
        .collect();
    assert_eq!(got, vec![("PRIV", &b"o\0data"[..])]);

    assert!(id3v2_alloc_safe(&tag(&[], true)));

    let refused = |f: &dyn Fn(&mut Vec<u8>)| {
        let mut t = update.clone();
        f(&mut t);
        assert!(!id3v2_alloc_safe(&t), "{t:02x?}");
    };
    refused(&|t| t[3] = 3);
    refused(&|t| t[13] |= 0x80);
    refused(&|t| t[14] = 2);
    refused(&|t| t[13] = 5);
    refused(&|t| t[13] = 0x7F);
    refused(&|t| t[20] = 0x7F);
}
