use musefs_format::input::TagInput;
use musefs_format::vorbiscomment::{build, is_valid_key, parse};

#[test]
fn build_skips_keys_outside_vorbis_grammar() {
    let tags = vec![
        TagInput::new("artist", "Alice"),
        TagInput::new("a=b", "c"),
        TagInput::new("", "x"),
        TagInput::new("title", "Song"),
    ];
    let body = build(&tags).unwrap();
    let parsed = parse(&body).unwrap();
    assert_eq!(
        parsed,
        vec![
            ("artist".to_string(), "Alice".to_string()),
            ("title".to_string(), "Song".to_string()),
        ]
    );
}

#[test]
fn build_is_total_over_arbitrary_keys() {
    let tags = vec![
        TagInput::new("a=b=c", "v"),
        TagInput::new("\u{0}\u{1}", "v"),
        TagInput::new("ok", "v"),
    ];
    let body = build(&tags).unwrap();
    let parsed = parse(&body).unwrap();
    assert_eq!(parsed, vec![("OK".to_string(), "v".to_string())]);
}

#[test]
fn build_then_parse_round_trips() {
    let tags = vec![
        TagInput::new("artist", "Boards of Canada"),
        TagInput::new("title", "Roygbiv"),
    ];
    let body = build(&tags).unwrap();
    let parsed = parse(&body).unwrap();
    assert_eq!(
        parsed,
        vec![
            ("artist".to_string(), "Boards of Canada".to_string()),
            ("title".to_string(), "Roygbiv".to_string()),
        ]
    );
}

#[test]
fn parse_rejects_bogus_huge_count_without_oom() {
    let mut body = Vec::new();
    body.extend_from_slice(&0u32.to_le_bytes());
    body.extend_from_slice(&u32::MAX.to_le_bytes());
    assert!(parse(&body).is_err());
}

#[test]
fn is_valid_key_enforces_vorbis_grammar() {
    assert!(is_valid_key("title"));
    assert!(is_valid_key("CUSTOM_THING"));
    assert!(is_valid_key("}"));
    assert!(is_valid_key(" "));

    assert!(!is_valid_key(""));
    assert!(!is_valid_key("a=b"));
    assert!(!is_valid_key("a\u{1f}b"));
    assert!(!is_valid_key("a\u{7f}b"));
    assert!(!is_valid_key("a~b"));
    assert!(!is_valid_key("género"));
}

#[test]
fn parse_canonicalizes_known_fields_and_preserves_unknown() {
    let tags = vec![
        TagInput::new("albumartist", "VA"),
        TagInput::new("custom_thing", "x"),
    ];
    let body = build(&tags).unwrap();
    let parsed = parse(&body).unwrap();

    assert_eq!(parsed[0], ("albumartist".to_string(), "VA".to_string()));
    assert_eq!(parsed[1], ("CUSTOM_THING".to_string(), "x".to_string()));
}
