use musefs_format::ogg::b64::{B64Window, b64_len, b64_len_checked, b64_window, encode_b64_slice};

use base64::Engine;

fn usize_from(v: u64) -> usize {
    usize::try_from(v).unwrap()
}

fn full_b64(img: &[u8]) -> Vec<u8> {
    base64::engine::general_purpose::STANDARD
        .encode(img)
        .into_bytes()
}

#[test]
fn any_window_matches_substring_of_full_encode() {
    for &img_total in &[0u64, 1, 2, 3, 4, 5, 6, 7, 100, 257, 1024] {
        let img: Vec<u8> = (0..img_total)
            .map(|i| u8::try_from((i * 7 + 3) % 256).unwrap())
            .collect();
        let full = full_b64(&img);
        assert_eq!(usize_from(b64_len(img_total)), full.len());
        if full.is_empty() {
            continue;
        }
        for o in 0..full.len() as u64 {
            for take in 1..=(full.len() as u64 - o) {
                let w = b64_window(o, take, img_total);
                let raw = &img[usize_from(w.in_start)
                    ..usize_from(w.in_start + w.in_len)];
                let got = encode_b64_slice(raw, w.skip, usize_from(take))
                    .expect("window lies within the encoded output");
                assert_eq!(
                    got,
                    &full[usize_from(o)..usize_from(o + take)],
                    "img_total={img_total} o={o} take={take}"
                );
            }
        }
    }
}

#[test]
fn encode_b64_slice_returns_none_when_window_exceeds_output() {
    assert_eq!(encode_b64_slice(b"abc", 0, 4), Some(b"YWJj".to_vec()));
    assert_eq!(encode_b64_slice(b"abc", 2, 4), None);
    assert_eq!(encode_b64_slice(b"abc", 5, 1), None);
}

#[test]
fn b64_window_fields_are_exact_at_group_boundaries() {
    let img_total = 1024u64;

    let w = b64_window(3, 1, img_total);
    assert_eq!(
        w,
        B64Window {
            in_start: 0,
            in_len: 3,
            skip: 3
        }
    );

    let w = b64_window(0, 4, img_total);
    assert_eq!(
        w,
        B64Window {
            in_start: 0,
            in_len: 3,
            skip: 0
        }
    );

    let w = b64_window(4, 4, img_total);
    assert_eq!(
        w,
        B64Window {
            in_start: 3,
            in_len: 3,
            skip: 0
        }
    );

    let w = b64_window(2, 6, img_total);
    assert_eq!(
        w,
        B64Window {
            in_start: 0,
            in_len: 6,
            skip: 2
        }
    );
}

#[test]
fn b64_window_is_overflow_free_at_the_max_validated_boundary() {
    let art_total = u64::MAX / 4 * 3;
    assert!(b64_len_checked(art_total).is_some());
    let total = b64_len(art_total);
    let w = b64_window(total - 4, 4, art_total);
    assert!(w.in_start <= art_total);
    assert!(w.in_len <= art_total);
}
