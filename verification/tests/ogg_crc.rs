use musefs_format::ogg::crc::{crc32, crc32_update, crc_shift_zeros};

fn reference(data: &[u8]) -> u32 {
    let alg: &'static crc::Algorithm<u32> = Box::leak(Box::new(crc::Algorithm {
        width: 32,
        poly: 0x04c1_1db7,
        init: 0,
        refin: false,
        refout: false,
        xorout: 0,
        check: 0,
        residue: 0,
    }));
    let c = crc::Crc::<u32>::new(alg);
    c.checksum(data)
}

#[test]
fn matches_independent_reference() {
    assert_eq!(crc32(b""), reference(b""));
    assert_eq!(crc32(b"123456789"), reference(b"123456789"));
    let blob: Vec<u8> = (0..=255u8).cycle().take(5000).collect();
    assert_eq!(crc32(&blob), reference(&blob));
}

#[test]
fn crc32_update_matches_oneshot_across_a_split() {
    let data: Vec<u8> = (0..1000u32).map(|i| (i % 251) as u8).collect();
    for split in [0usize, 1, 3, 255, 256, 700, 1000] {
        let (a, b) = data.split_at(split);
        let streamed = crc32_update(crc32_update(0, a), b);
        assert_eq!(streamed, crc32(&data), "split at {split}");
    }
}

#[test]
fn crc_shift_zeros_identity() {
    assert_eq!(crc_shift_zeros(0, 0), 0);
    assert_eq!(crc_shift_zeros(0, 1), 0);
    assert_eq!(crc_shift_zeros(0, 65285), 0);
}

#[test]
fn crc_shift_zeros_composes_across_the_whole_power_ladder() {
    let crc = crc32(b"hello world");
    for k in 1..usize::BITS {
        let half = 1usize << (k - 1);
        let doubled = crc_shift_zeros(crc_shift_zeros(crc, half), half);
        assert_eq!(crc_shift_zeros(crc, 1usize << k), doubled, "k = {k}");
    }
}

#[test]
fn crc_shift_zeros_matches_appending_zeros() {
    let data = b"hello world";
    let crc_start = crc32(data);

    for &n in &[0usize, 1, 7, 10, 255, 1_000, 1_890, 4_096, 8_192, 65_285] {
        let mut extended = data.to_vec();
        extended.resize(data.len() + n, 0u8);
        let expected = crc32(&extended);
        assert_eq!(crc_shift_zeros(crc_start, n), expected, "n = {n}");
    }
}
