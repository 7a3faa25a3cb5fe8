use musefs_format::input::{BinaryTagInput, BlobLen, EmbeddedBinaryTag, PictureType};

#[test]
fn binary_tag_input_constructs() {
    let b = BinaryTagInput {
        key: "PRIV".into(),
        payload_id: 7,
        len: 3,
    };
    assert_eq!(b.payload_id, 7);
    assert_eq!(b.len, 3);
}

#[test]
fn embedded_binary_tag_constructs() {
    let e = EmbeddedBinaryTag {
        key: "PRIV".into(),
        payload: vec![1, 2, 3],
    };
    assert_eq!(e.key, "PRIV");
    assert_eq!(e.payload.len(), 3);
}

#[test]
fn picture_type_accepts_full_range() {
    for v in 0..=20u32 {
        assert_eq!(PictureType::new(v).unwrap().get(), v);
    }
}

#[test]
fn picture_type_rejects_out_of_range() {
    assert!(PictureType::new(21).is_none());
    assert!(PictureType::new(u32::MAX).is_none());
}

#[test]
fn blob_len_rejects_zero() {
    assert!(BlobLen::new(0).is_none());
}

#[test]
fn blob_len_round_trips_nonzero() {
    assert_eq!(BlobLen::new(1).unwrap().get(), 1);
    assert_eq!(BlobLen::new(u64::MAX).unwrap().get(), u64::MAX);
}
