use smart_display::{from_json, to_json, ConfigError, State};

fn base_state() -> State {
    let mut s = State::new();
    s.add_url("http://pics.example/one.png".to_string());
    s.add_url("http://pics.example/two.png".to_string());
    s.patch(Some("http://pics.example/one.png".to_string()), Some(90_000));
    s
}

#[test]
fn round_trip_basic() {
    let s = base_state();
    let text = to_json(&s);
    let back = from_json(&text).expect("canonical save must load");
    assert_eq!(back.duration_millis, s.duration_millis);
    assert_eq!(back.image_urls, s.image_urls);
    assert_eq!(back.image_url, s.image_url);
    assert!(back.th_combine.is_none());
}

#[test]
fn round_trip_fractional_duration() {
    let mut s = State::new();
    s.patch(None, Some(1_500));
    let text = to_json(&s);
    assert!(text.contains("1.500"));
    let back = from_json(&text).expect("fractional interval must load");
    assert_eq!(back.duration_millis, 1_500);
}

#[test]
fn round_trip_escaped_urls() {
    let mut s = State::new();
    s.add_url("http://h/pic?q=\"x\"\\y".to_string());
    s.add_url("tab\there\nand\u{0001}ctl".to_string());
    s.add_url("unicode-\u{00e9}\u{6f22}".to_string());
    s.patch(Some("tab\there\nand\u{0001}ctl".to_string()), None);
    let text = to_json(&s);
    let back = from_json(&text).expect("escaped urls must load");
    assert_eq!(back.image_urls, s.image_urls);
    assert_eq!(back.image_url, s.image_url);
}

#[test]
fn canonical_text_exact() {
    let mut s = State::new();
    s.add_url("a".to_string());
    let text = to_json(&s);
    assert_eq!(text, "{\"durationSecs\":60,\"urls\":[\"a\"],\"url\":\"\"}");
}

#[test]
fn parse_missing_url_defaults_empty() {
    let r = from_json("{\"durationSecs\": 2, \"urls\": []}").expect("url is optional");
    assert_eq!(r.duration_millis, 2_000);
    assert_eq!(r.image_urls.len(), 0);
    assert_eq!(r.image_url, "");
}

#[test]
fn parse_fractional_seconds() {
    let r = from_json("{\"durationSecs\":2.5,\"urls\":[\"a\"],\"url\":\"a\"}").unwrap();
    assert_eq!(r.duration_millis, 2_500);
}

#[test]
fn parse_extra_fraction_digits_truncated() {
    let r = from_json("{\"durationSecs\":1.23456,\"urls\":[]}").unwrap();
    assert_eq!(r.duration_millis, 1_234);
}

#[test]
fn parse_unknown_fields_ignored() {
    let text = "{\"version\": 3, \"durationSecs\": 1, \"extra\": {\"nested\": [1, \"x\", {}]}, \
                \"urls\": [\"a\", \"b\"], \"note\": \"hi, {brace}\", \"url\": \"b\"}";
    let r = from_json(text).expect("unknown fields are ignored");
    assert_eq!(r.duration_millis, 1_000);
    assert_eq!(r.image_urls, vec!["a".to_string(), "b".to_string()]);
    assert_eq!(r.image_url, "b");
}

#[test]
fn parse_whitespace_and_field_order() {
    let text = " {\n \"url\" : \"x\" ,\n \"urls\" : [ \"x\" , \"y\" ] ,\n \"durationSecs\" : 60\n} ";
    let r = from_json(text).expect("any field order loads");
    assert_eq!(r.duration_millis, 60_000);
    assert_eq!(r.image_urls, vec!["x".to_string(), "y".to_string()]);
    assert_eq!(r.image_url, "x");
}

#[test]
fn parse_duplicate_urls_kept_once() {
    let r = from_json("{\"durationSecs\":1,\"urls\":[\"a\",\"a\",\"b\"]}").unwrap();
    assert_eq!(r.image_urls, vec!["a".to_string(), "b".to_string()]);
}

#[test]
fn parse_garbage_fails() {
    assert!(matches!(from_json("not json at all"), Err(ConfigError::Parse)));
    assert!(matches!(from_json(""), Err(ConfigError::Parse)));
    assert!(matches!(from_json("{\"durationSecs\":1,\"urls\":[\"a\"]} trailing"), Err(ConfigError::Parse)));
}

#[test]
fn parse_missing_required_fails() {
    assert!(matches!(from_json("{\"url\":\"x\"}"), Err(ConfigError::Parse)));
    assert!(matches!(from_json("{\"durationSecs\":1}"), Err(ConfigError::Parse)));
    assert!(matches!(from_json("{\"urls\":[]}"), Err(ConfigError::Parse)));
}

#[test]
fn parse_unicode_and_named_escapes() {
    let r = from_json("{\"durationSecs\":1,\"urls\":[\"\\u0041\\u00e9\\u6f22\"],\"url\":\"a\\/b\\n\"}")
        .expect("escapes decode");
    assert_eq!(r.image_urls, vec!["A\u{00e9}\u{6f22}".to_string()]);
    assert_eq!(r.image_url, "a/b\n");
}

#[test]
fn parse_surrogate_escape_fails() {
    assert!(matches!(
        from_json("{\"durationSecs\":1,\"urls\":[\"\\uD800\"]}"),
        Err(ConfigError::Parse)
    ));
}

#[test]
fn parse_overlong_integer_fails() {
    assert!(matches!(
        from_json("{\"durationSecs\":12345678901234567890123,\"urls\":[]}"),
        Err(ConfigError::Parse)
    ));
}

#[test]
fn parse_exponent_notation() {
    let r = from_json("{\"durationSecs\":1e3,\"urls\":[]}").expect("exponent loads");
    assert_eq!(r.duration_millis, 1_000_000);
    let r = from_json("{\"durationSecs\":1.5e-2,\"urls\":[]}").expect("negative exponent loads");
    assert_eq!(r.duration_millis, 15);
    let r = from_json("{\"durationSecs\":2.5E+1,\"urls\":[]}").expect("E with plus sign loads");
    assert_eq!(r.duration_millis, 25_000);
    let r = from_json("{\"durationSecs\":1e-999,\"urls\":[]}").expect("tiny value loads as zero");
    assert_eq!(r.duration_millis, 0);
    let r = from_json("{\"durationSecs\":0.0001235e4,\"urls\":[]}").expect("shifted fraction");
    assert_eq!(r.duration_millis, 1_235);
}

#[test]
fn parse_bad_exponent_fails() {
    assert!(matches!(from_json("{\"durationSecs\":1e,\"urls\":[]}"), Err(ConfigError::Parse)));
    assert!(matches!(from_json("{\"durationSecs\":1e+,\"urls\":[]}"), Err(ConfigError::Parse)));
    assert!(matches!(
        from_json("{\"durationSecs\":1e17,\"urls\":[]}"),
        Err(ConfigError::Parse)
    ));
    assert!(matches!(
        from_json("{\"durationSecs\":1e1234,\"urls\":[]}"),
        Err(ConfigError::Parse)
    ));
}

#[test]
fn parse_surrogate_pair_escape() {
    let r = from_json("{\"durationSecs\":1,\"urls\":[\"\\uD83D\\uDE00\"],\"url\":\"\\uD83D\\uDE00\"}")
        .expect("a surrogate pair names one astral character");
    assert_eq!(r.image_urls, vec!["\u{1F600}".to_string()]);
    assert_eq!(r.image_url, "\u{1F600}");
}

#[test]
fn parse_negative_duration_fails() {
    assert!(matches!(from_json("{\"durationSecs\":-1,\"urls\":[]}"), Err(ConfigError::Parse)));
}
