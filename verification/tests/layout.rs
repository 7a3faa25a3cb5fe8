use musefs_format::input::BlobLen;
use musefs_format::layout::{LayoutError, RegionLayout, Segment};

#[test]
fn validate_rejects_raw_ogg_art_slice_past_source() {
    let seg = Segment::OggArtSlice {
        art_id: 1,
        offset: 5,
        len: BlobLen::new(10).unwrap(),
        base64: false,
        art_total: 12,
    };
    assert_eq!(
        RegionLayout::new(vec![seg, Segment::BackingAudio { offset: 0, len: 1 }]).validate(),
        Err(LayoutError::OggArtSliceOutOfBounds)
    );
}

#[test]
fn validate_rejects_base64_ogg_art_slice_past_source() {
    let seg = Segment::OggArtSlice {
        art_id: 1,
        offset: 2,
        len: BlobLen::new(4).unwrap(),
        base64: true,
        art_total: 3,
    };
    assert_eq!(
        RegionLayout::new(vec![seg, Segment::BackingAudio { offset: 0, len: 1 }]).validate(),
        Err(LayoutError::OggArtSliceOutOfBounds)
    );
}

#[test]
fn validate_rejects_ogg_art_slice_offset_len_overflow() {
    let seg = Segment::OggArtSlice {
        art_id: 1,
        offset: u64::MAX,
        len: BlobLen::new(1).unwrap(),
        base64: false,
        art_total: u64::MAX,
    };
    assert_eq!(
        RegionLayout::new(vec![seg, Segment::BackingAudio { offset: 0, len: 1 }]).validate(),
        Err(LayoutError::OggArtSliceRangeOverflow)
    );
}

#[test]
fn validate_rejects_base64_ogg_art_slice_when_b64_len_overflows() {
    let seg = Segment::OggArtSlice {
        art_id: 1,
        offset: 0,
        len: BlobLen::new(1).unwrap(),
        base64: true,
        art_total: u64::MAX,
    };
    assert_eq!(
        RegionLayout::new(vec![seg, Segment::BackingAudio { offset: 0, len: 1 }]).validate(),
        Err(LayoutError::OggArtSliceRangeOverflow)
    );
}

#[test]
fn validate_accepts_ogg_art_slice_at_source_boundary() {
    let raw = Segment::OggArtSlice {
        art_id: 1,
        offset: 2,
        len: BlobLen::new(10).unwrap(),
        base64: false,
        art_total: 12,
    };
    RegionLayout::new(vec![raw, Segment::BackingAudio { offset: 0, len: 1 }])
        .validate()
        .unwrap();
    let b64 = Segment::OggArtSlice {
        art_id: 1,
        offset: 0,
        len: BlobLen::new(4).unwrap(),
        base64: true,
        art_total: 3,
    };
    RegionLayout::new(vec![b64, Segment::BackingAudio { offset: 0, len: 1 }])
        .validate()
        .unwrap();
}

#[test]
fn binary_tag_segment_len_and_validate() {
    let seg = Segment::BinaryTag {
        payload_id: 5,
        len: BlobLen::new(12).unwrap(),
    };
    assert_eq!(seg.len(), 12);

    RegionLayout::validated(vec![seg, Segment::BackingAudio { offset: 0, len: 1 }]).unwrap();

    assert!(BlobLen::new(0).is_none());
}

#[test]
fn has_binary_tag_detects_binary_segment() {
    let with = RegionLayout::new(vec![
        Segment::BinaryTag {
            payload_id: 1,
            len: BlobLen::new(3).unwrap(),
        },
        Segment::BackingAudio { offset: 0, len: 8 },
    ]);
    assert!(
        with.has_binary_tag(),
        "layout with a BinaryTag must report true"
    );

    let without = RegionLayout::new(vec![
        Segment::Inline(vec![1, 2, 3]),
        Segment::BackingAudio { offset: 0, len: 8 },
    ]);
    assert!(
        !without.has_binary_tag(),
        "layout with no BinaryTag must report false"
    );
}
