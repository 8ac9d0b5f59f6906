use microrouter::response::parse_json_int;
use microrouter::response::Response;

#[test]
fn json_int_matches_canonical_json() {
    for v in [0i64, 1, -1, 42, 123, -99, 1000000, i64::MAX, i64::MIN] {
        let response = Response::json_int(v);
        assert_eq!(response.content, serde_json::to_string(&v).unwrap());
    }
}

#[test]
fn json_int_round_trip() {
    for v in [0i64, 7, -7, 124, 10, -10, i64::MAX, i64::MIN, i64::MAX - 1, i64::MIN + 1] {
        let response = Response::json_int(v);
        assert_eq!(parse_json_int(&response.content), Some(v));
        let decoded: i64 = serde_json::from_str(&response.content).unwrap();
        assert_eq!(decoded, v);
    }
}

#[test]
fn json_int_concrete_text() {
    assert_eq!(Response::json_int(124).content, "124".to_string());
    assert_eq!(Response::json_int(0).content, "0".to_string());
    assert_eq!(Response::json_int(-35).content, "-35".to_string());
}

#[test]
fn parse_json_int_accepts_limits() {
    assert_eq!(parse_json_int("9223372036854775807"), Some(i64::MAX));
    assert_eq!(parse_json_int("-9223372036854775808"), Some(i64::MIN));
    assert_eq!(parse_json_int("0"), Some(0));
    assert_eq!(parse_json_int("007"), Some(7));
}

#[test]
fn parse_json_int_rejects_malformed_or_overflowing() {
    assert_eq!(parse_json_int(""), None);
    assert_eq!(parse_json_int("-"), None);
    assert_eq!(parse_json_int("12a"), None);
    assert_eq!(parse_json_int("+5"), None);
    assert_eq!(parse_json_int(" 5"), None);
    assert_eq!(parse_json_int("9223372036854775808"), None);
    assert_eq!(parse_json_int("-9223372036854775809"), None);
}

#[test]
fn raw_text_keeps_content_unchanged() {
    assert_eq!(Response::raw_text("hi").content, "hi".to_string());
    assert_eq!(Response::raw_text("").content, "".to_string());
}
