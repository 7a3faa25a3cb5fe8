use musefs_format::tagmap::{VOCAB_LEN, Entry, Id3Slot, Mp4Slot, id3_text_to_key, id3_txxx_to_key, key_to_id3, key_to_mp4, key_to_vorbis, mp4_atom_to_key, mp4_freeform_to_key, vocab_entry, vorbis_to_key};

/// Every entry of the vocabulary.
fn entries() -> Vec<Entry> {
    (0..VOCAB_LEN).map(vocab_entry).collect()
}

#[test]
fn no_duplicate_canonical_keys() {
    let mut keys: Vec<&str> = entries().iter().map(|e| e.key).collect();
    let n = keys.len();
    keys.sort_unstable();
    keys.dedup();
    assert_eq!(keys.len(), n, "duplicate canonical key in the vocabulary");
}

#[test]
fn id3_text_round_trips() {
    for e in entries() {
        if let Id3Slot::Text(id) = e.id3 {
            let frame = std::str::from_utf8(&id).unwrap();
            assert_eq!(id3_text_to_key(frame), Some(e.key));
            assert!(matches!(key_to_id3(e.key), Some(Id3Slot::Text(_))));
        }
    }
}

#[test]
fn mp4_text_round_trips() {
    for e in entries() {
        if let Mp4Slot::Text(a) = e.mp4 {
            assert_eq!(mp4_atom_to_key(&a), Some(e.key));
        }
    }
}

#[test]
fn vorbis_round_trips() {
    for e in entries() {
        assert_eq!(vorbis_to_key(e.vorbis), Some(e.key));
        assert_eq!(key_to_vorbis(e.key), Some(e.vorbis));
    }
}

#[test]
fn key_to_slot_round_trips() {
    for e in entries() {
        assert_eq!(
            key_to_id3(e.key),
            Some(e.id3),
            "key_to_id3 failed for {}",
            e.key
        );
        assert_eq!(
            key_to_mp4(e.key),
            Some(e.mp4),
            "key_to_mp4 failed for {}",
            e.key
        );
    }
}

#[test]
fn txxx_and_freeform_lookups_are_case_insensitive() {
    assert_eq!(
        id3_txxx_to_key("musicbrainz album id"),
        Some("musicbrainz_albumid")
    );
    assert_eq!(
        mp4_freeform_to_key("com.apple.itunes", "MusicBrainz Album Id"),
        Some("musicbrainz_albumid")
    );
}
