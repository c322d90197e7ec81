use smart_display::parse_th_combine;

#[test]
fn parse_readings_basic() {
    let r = parse_th_combine("{\"temperature\": 21.5, \"humidity\": 40}").expect("valid readings");
    assert_eq!(r.temperature_milli, 21_500);
    assert_eq!(r.humidity_milli, 40_000);
}

#[test]
fn parse_readings_negative_temperature() {
    let r = parse_th_combine("{\"humidity\":55.25,\"temperature\":-3.125}").unwrap();
    assert_eq!(r.temperature_milli, -3_125);
    assert_eq!(r.humidity_milli, 55_250);
}

#[test]
fn parse_readings_unknown_fields_ignored() {
    let r = parse_th_combine("{\"sensor\":\"shed\",\"temperature\":0,\"humidity\":1}").unwrap();
    assert_eq!(r.temperature_milli, 0);
    assert_eq!(r.humidity_milli, 1_000);
}

#[test]
fn parse_readings_missing_field_fails() {
    assert!(parse_th_combine("{\"temperature\": 20}").is_none());
    assert!(parse_th_combine("{\"humidity\": 50}").is_none());
    assert!(parse_th_combine("{}").is_none());
}

#[test]
fn parse_readings_exponent_notation() {
    let r = parse_th_combine("{\"temperature\":2.15e1,\"humidity\":-4e-1}").unwrap();
    assert_eq!(r.temperature_milli, 21_500);
    assert_eq!(r.humidity_milli, -400);
}

#[test]
fn parse_readings_garbage_fails() {
    assert!(parse_th_combine("").is_none());
    assert!(parse_th_combine("temperature: 20").is_none());
}
