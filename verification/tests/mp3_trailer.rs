use musefs_format::error::FormatError;
use musefs_format::id3v2::MAX_APPENDED_TAGS;
use musefs_format::mp3::trailer::{Trailing, locate_trailer};
use musefs_format::probe::Extent;

fn usize_from(v: u64) -> usize {
    usize::try_from(v).unwrap()
}

/// The 128 bytes of an ID3v1 trailer.
fn id3v1_trailer() -> Vec<u8> {
    let mut v = b"TAG".to_vec();
    v.resize(128, 0);
    v
}

fn ss(n: usize) -> [u8; 4] {
    let n = u32::try_from(n).unwrap();
    [
        ((n >> 21) & 0x7F) as u8,
        ((n >> 14) & 0x7F) as u8,
        ((n >> 7) & 0x7F) as u8,
        (n & 0x7F) as u8,
    ]
}

/// An ID3v2.4 tag of `TXXX` frames, one for each pair.
fn id3v24_text_tag(pairs: &[(&str, &str)]) -> Vec<u8> {
    let mut body = Vec::new();
    for (k, v) in pairs {
        let mut data = vec![3u8];
        data.extend_from_slice(k.as_bytes());
        data.push(0);
        data.extend_from_slice(v.as_bytes());
        body.extend_from_slice(b"TXXX");
        body.extend_from_slice(&ss(data.len()));
        body.extend_from_slice(&[0, 0]);
        body.extend(data);
    }
    let mut out = vec![b'I', b'D', b'3', 4, 0, 0];
    out.extend_from_slice(&ss(body.len()));
    out.extend(body);
    out
}

/// The tag with a footer, and the header flag that announces it.
fn with_id3v24_footer(tag: &[u8]) -> Vec<u8> {
    let mut out = tag.to_vec();
    out[5] |= 0x10;
    let mut footer = out[..10].to_vec();
    footer[..3].copy_from_slice(b"3DI");
    out.extend(footer);
    out
}

fn appended(title: &str) -> Vec<u8> {
    with_id3v24_footer(&id3v24_text_tag(&[("title", title)]))
}

fn whole(file: &[u8]) -> musefs_format::Result<Vec<Trailing>> {
    match locate_trailer(file, file.len() as u64)? {
        Extent::Complete(t) => Ok(t.tags),
        Extent::NeedMore { up_to } => panic!("a whole file asked for {up_to} bytes"),
    }
}

fn id3v2(start: usize, end: usize) -> Trailing {
    Trailing {
        start: start as u64,
        end: end as u64,
        id3v2: true,
    }
}

fn id3v1(start: usize) -> Trailing {
    Trailing {
        start: start as u64,
        end: (start + 128) as u64,
        id3v2: false,
    }
}

const AUDIO: &[u8] = &[0xFF, 0xFB, 0x90, 0x00];

#[test]
fn a_file_with_nothing_at_its_end_has_no_trailer() {
    assert_eq!(whole(AUDIO).unwrap(), vec![]);
    assert_eq!(whole(&[0x41; 300]).unwrap(), vec![]);
    assert_eq!(whole(&[]).unwrap(), vec![]);
}

#[test]
fn tags_are_listed_nearest_the_end_first_with_their_extents() {
    let tag = appended("Back");
    let mut file = AUDIO.to_vec();
    file.extend(&tag);
    file.extend(appended("Last"));
    file.extend(id3v1_trailer());
    let a = AUDIO.len();
    let b = a + tag.len();
    let v1 = file.len() - 128;
    assert_eq!(
        whole(&file).unwrap(),
        vec![id3v1(v1), id3v2(b, v1), id3v2(a, b)]
    );
}

#[test]
fn an_id3v1_trailer_may_precede_the_appended_tags() {
    let mut file = AUDIO.to_vec();
    file.extend(id3v1_trailer());
    let v1_end = file.len();
    file.extend(appended("Back"));
    assert_eq!(
        whole(&file).unwrap(),
        vec![id3v2(v1_end, file.len()), id3v1(AUDIO.len())]
    );
}

#[test]
fn only_one_id3v1_trailer_is_recognised() {
    let mut file = AUDIO.to_vec();
    file.extend(id3v1_trailer());
    file.extend(id3v1_trailer());
    assert_eq!(whole(&file).unwrap(), vec![id3v1(AUDIO.len() + 128)]);
}

#[test]
fn the_appended_run_is_capped() {
    let tag = with_id3v24_footer(&id3v24_text_tag(&[]));
    let mut at_cap = AUDIO.to_vec();
    for _ in 0..MAX_APPENDED_TAGS {
        at_cap.extend(&tag);
    }
    assert_eq!(whole(&at_cap).unwrap().len(), MAX_APPENDED_TAGS);
    at_cap.extend(&tag);
    assert_eq!(whole(&at_cap), Err(FormatError::Malformed));
}

#[test]
fn a_tail_longer_than_the_file_is_malformed() {
    assert_eq!(locate_trailer(&[0; 11], 10), Err(FormatError::Malformed));
}

/// Each `NeedMore` names exactly how far back from the end the next thing
/// the walk must see begins: the tag's header, then the footer in front of
/// it, then where an ID3v1 trailer in front of that would start.
#[test]
fn a_short_tail_asks_for_exactly_the_bytes_the_walk_needs_next() {
    let mut body = id3v24_text_tag(&[("title", "Wide")]);
    body.extend(std::iter::repeat_n(0u8, 300));
    let n = u32::try_from(body.len() - 10).unwrap();
    body[6..10].copy_from_slice(&[
        ((n >> 21) & 0x7F) as u8,
        ((n >> 14) & 0x7F) as u8,
        ((n >> 7) & 0x7F) as u8,
        (n & 0x7F) as u8,
    ]);
    let tag = with_id3v24_footer(&body);
    let mut file = vec![0xFF; 1000];
    file.extend(&tag);
    let len = file.len() as u64;
    let from_end = |n: u64| &file[file.len() - usize_from(n)..];

    let mut asked = Vec::new();
    let mut have = 10;
    loop {
        match locate_trailer(from_end(have), len).unwrap() {
            Extent::NeedMore { up_to } => {
                asked.push(up_to);
                have = up_to;
            }
            Extent::Complete(t) => {
                assert_eq!(t.tags, vec![id3v2(1000, file.len())]);
                break;
            }
        }
    }
    let t = tag.len() as u64;
    assert_eq!(asked, vec![t, t + 10, t + 128]);
}
