use musefs_format::error::FormatError;
use musefs_format::id3v2::{FOOTER_LEN, HEADER_LEN, MAX_LEADING_TAGS, body_end, frames_are_parseable, leading_tags_len, starts_with_tag, total_len};
use musefs_format::probe::Extent;

/// A minimal ID3v2.4 tag header declaring `body` bytes of (absent) frames.
fn header(body_len: u32, flags: u8) -> Vec<u8> {
    let ss = [
        ((body_len >> 21) & 0x7F) as u8,
        ((body_len >> 14) & 0x7F) as u8,
        ((body_len >> 7) & 0x7F) as u8,
        (body_len & 0x7F) as u8,
    ];
    let mut v = vec![b'I', b'D', b'3', 4, 0, flags];
    v.extend_from_slice(&ss);
    v
}

fn tag(body_len: u32, flags: u8) -> Vec<u8> {
    let mut v = header(body_len, flags);
    v.extend(std::iter::repeat_n(0u8, body_len as usize));
    if flags & 0x10 != 0 {
        v.extend_from_slice(&[b'3', b'D', b'I', 4, 0, flags, 0, 0, 0, 0]);
    }
    v
}

#[test]
fn no_tag_is_zero_length() {
    assert_eq!(
        leading_tags_len(b"fLaC\x80\x00\x00\x22").unwrap(),
        Extent::Complete(0)
    );
    assert!(!starts_with_tag(b"fLaC"));
}

#[test]
fn single_tag_reports_header_plus_body() {
    let mut f = tag(20, 0);
    let tag_len = f.len();
    f.extend_from_slice(b"fLaC");
    assert_eq!(leading_tags_len(&f).unwrap(), Extent::Complete(tag_len));
    assert_eq!(tag_len, HEADER_LEN + 20);
}

#[test]
fn footer_flag_adds_ten_bytes() {
    let f = tag(20, 0x10);
    assert_eq!(total_len(&f).unwrap(), Some(HEADER_LEN + 20 + FOOTER_LEN));

    assert_eq!(body_end(&f).unwrap(), Some(HEADER_LEN + 20));
}

#[test]
fn consecutive_tags_accumulate() {
    let mut f = tag(8, 0);
    f.extend(tag(12, 0));
    f.extend_from_slice(b"fLaC");
    assert_eq!(
        leading_tags_len(&f).unwrap(),
        Extent::Complete(2 * HEADER_LEN + 8 + 12)
    );
}

#[test]
fn body_running_past_the_window_needs_more() {
    let mut f = header(4096, 0);
    f.extend_from_slice(b"only a few body bytes");
    assert_eq!(
        leading_tags_len(&f).unwrap(),
        Extent::NeedMore {
            up_to: (HEADER_LEN + 4096) as u64
        }
    );
}

#[test]
fn truncated_header_needs_more() {
    assert_eq!(
        leading_tags_len(b"ID3\x04").unwrap(),
        Extent::NeedMore {
            up_to: HEADER_LEN as u64
        }
    );
}

#[test]
fn a_version_we_cannot_parse_is_still_stepped_over() {
    let mut unknown = tag(20, 0);
    unknown[3] = 9;
    assert_eq!(
        leading_tags_len(&unknown).unwrap(),
        Extent::Complete(HEADER_LEN + 20)
    );
    assert!(!frames_are_parseable(&unknown), "but not parsed");
}

#[test]
fn bytes_outside_the_detection_pattern_are_malformed() {
    let mut bad_major = header(4, 0);
    bad_major[3] = 0xFF;
    assert!(leading_tags_len(&bad_major).is_err());

    let mut bad_revision = header(4, 0);
    bad_revision[4] = 0xFF;
    assert!(leading_tags_len(&bad_revision).is_err());

    let mut bad_size = header(4, 0);
    bad_size[7] = 0x80;
    assert!(leading_tags_len(&bad_size).is_err());
}

#[test]
fn only_v2_4_has_a_footer() {
    let mut v23 = header(20, 0x10);
    v23[3] = 3;
    assert_eq!(total_len(&v23).unwrap(), Some(HEADER_LEN + 20));
}

#[test]
fn a_run_longer_than_the_cap_is_malformed() {
    let mut f = Vec::new();
    for _ in 0..=MAX_LEADING_TAGS {
        f.extend(tag(0, 0));
    }
    f.extend_from_slice(b"fLaC");
    assert_eq!(leading_tags_len(&f).unwrap_err(), FormatError::Malformed);

    let mut ok = Vec::new();
    for _ in 0..MAX_LEADING_TAGS - 1 {
        ok.extend(tag(0, 0));
    }
    ok.extend_from_slice(b"fLaC");
    assert_eq!(
        leading_tags_len(&ok).unwrap(),
        Extent::Complete((MAX_LEADING_TAGS - 1) * HEADER_LEN)
    );
}

#[test]
fn zero_length_tags_still_terminate() {
    let mut f = tag(0, 0);
    f.extend(tag(0, 0));
    f.extend_from_slice(b"fLaC");
    assert_eq!(
        leading_tags_len(&f).unwrap(),
        Extent::Complete(2 * HEADER_LEN)
    );
}
