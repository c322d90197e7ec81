use smart_display::{State, ThCombine};

#[test]
fn new_state_defaults() {
    let s = State::new();
    assert_eq!(s.duration_millis, 60_000);
    assert_eq!(s.image_urls.len(), 0);
    assert_eq!(s.image_url, "");
    assert!(s.th_combine.is_none());
}

#[test]
fn add_url_twice_keeps_one_copy() {
    let mut s = State::new();
    s.add_url("http://a".to_string());
    s.add_url("http://a".to_string());
    assert_eq!(s.image_urls, vec!["http://a".to_string()]);
}

#[test]
fn remove_url_is_idempotent() {
    let mut s = State::new();
    s.add_url("a".to_string());
    s.add_url("b".to_string());
    s.remove_url(&"a".to_string());
    s.remove_url(&"a".to_string());
    assert_eq!(s.image_urls, vec!["b".to_string()]);
}

#[test]
fn rotation_scenario() {
    // {durationSecs: 1, urls: ["a","b"], url: ""}; one scheduler cycle picks
    // a member; removing "b" while it is current leaves it current.
    let mut s = State::new();
    s.patch(None, Some(1_000));
    s.add_url("a".to_string());
    s.add_url("b".to_string());
    assert_eq!(s.image_url, "");
    s.shuffle_step();
    assert!(s.image_url == "a" || s.image_url == "b");
    s.patch(Some("b".to_string()), None);
    s.remove_url(&"b".to_string());
    assert_eq!(s.image_url, "b");
    assert_eq!(s.image_urls, vec!["a".to_string()]);
}

#[test]
fn rotation_with_empty_set_changes_nothing() {
    let mut s = State::new();
    s.patch(Some("stale".to_string()), None);
    s.shuffle_step();
    assert_eq!(s.image_url, "stale");
    assert_eq!(s.image_urls.len(), 0);
}

#[test]
fn rotation_always_picks_a_member() {
    let mut s = State::new();
    s.add_url("x".to_string());
    s.add_url("y".to_string());
    s.add_url("z".to_string());
    let mut k = 0;
    while k < 50 {
        s.shuffle_step();
        assert!(s.image_urls.contains(&s.image_url));
        k += 1;
    }
}

#[test]
fn patch_updates_only_given_fields() {
    let mut s = State::new();
    s.add_url("a".to_string());
    s.patch(None, Some(5_000));
    assert_eq!(s.duration_millis, 5_000);
    assert_eq!(s.image_url, "");
    s.patch(Some("a".to_string()), None);
    assert_eq!(s.duration_millis, 5_000);
    assert_eq!(s.image_url, "a");
}

#[test]
fn ingest_step_merges_or_keeps() {
    let mut s = State::new();
    s.ingest_step(None);
    assert!(s.th_combine.is_none());
    s.ingest_step(Some(ThCombine { temperature_milli: 20_500, humidity_milli: 41_000 }));
    assert_eq!(
        s.th_combine,
        Some(ThCombine { temperature_milli: 20_500, humidity_milli: 41_000 })
    );
    s.ingest_step(None);
    assert_eq!(
        s.th_combine,
        Some(ThCombine { temperature_milli: 20_500, humidity_milli: 41_000 })
    );
}

#[test]
fn snapshot_projects_state() {
    let mut s = State::new();
    let snap = s.snapshot("2024-05-01T10:00:00+09:00".to_string());
    assert_eq!(snap.date_time, "2024-05-01T10:00:00+09:00");
    assert!(snap.image_url.is_none());
    assert!(snap.th_combine.is_none());
    s.add_url("a".to_string());
    s.patch(Some("a".to_string()), None);
    s.ingest_step(Some(ThCombine { temperature_milli: 1, humidity_milli: 2 }));
    let snap2 = s.snapshot("t".to_string());
    assert_eq!(snap2.image_url, Some("a".to_string()));
    assert_eq!(snap2.th_combine, Some(ThCombine { temperature_milli: 1, humidity_milli: 2 }));
}

#[test]
fn listing_projects_configuration() {
    let mut s = State::new();
    s.add_url("a".to_string());
    s.add_url("b".to_string());
    let l = s.listing();
    assert_eq!(l.duration_millis, 60_000);
    assert_eq!(l.image_urls, vec!["a".to_string(), "b".to_string()]);
    assert!(l.image_url.is_none());
}
