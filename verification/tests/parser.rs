use microrouter::request::Method;
use microrouter::request::Request;

#[test]
fn empty_input_yields_none() {
    assert!(Request::from_raw(String::new()).is_none());
}

#[test]
fn parse_sets_identifier_from_tokens() {
    let req = Request::from_raw("GET /hello/world HTTP/1.1\n\n".to_string()).unwrap();
    assert_eq!(req.identifier(), "GET /hello/world".to_string());
    assert_eq!(req.path(), "/hello/world");
    assert!(matches!(req.method(), Method::Get));
}

#[test]
fn parse_headers_and_body() {
    let req = Request::from_raw("GET / HTTP/1.1\nA: 1\r\nB: 2\r\n\r\nBODY".to_string()).unwrap();
    assert_eq!(req.headers().get("A"), Some("1".to_string()));
    assert_eq!(req.headers().get("B"), Some("2".to_string()));
    assert_eq!(req.headers().get("C"), None);
    assert_eq!(req.body(), "BODY");
}

#[test]
fn duplicate_header_last_wins() {
    let req = Request::from_raw("GET / HTTP/1.1\nA: 1\nA: 2\n\n".to_string()).unwrap();
    assert_eq!(req.headers().get("A"), Some("2".to_string()));
}

#[test]
fn body_lines_joined_with_crlf() {
    let req = Request::from_raw("GET / HTTP/1.1\n\nline1\nline2".to_string()).unwrap();
    assert_eq!(req.body(), "line1\r\nline2");
}

#[test]
fn empty_body_stays_empty() {
    let req = Request::from_raw("GET / HTTP/1.1\n\n".to_string()).unwrap();
    assert_eq!(req.body(), "");
}

#[test]
fn request_line_without_path_is_rejected() {
    assert!(Request::from_raw("GET\n\n".to_string()).is_none());
    assert!(Request::from_raw("GET".to_string()).is_none());
}

#[test]
fn unknown_method_is_rejected() {
    assert!(Request::from_raw("BREW /pot HTTP/1.1\n\n".to_string()).is_none());
    assert!(Request::from_raw("get /lower HTTP/1.1\n\n".to_string()).is_none());
}

#[test]
fn path_is_not_normalized() {
    let req = Request::from_raw("GET /a/../b HTTP/1.1\n\n".to_string()).unwrap();
    assert_eq!(req.path(), "/a/../b");
    let trailing = Request::from_raw("GET /a/ HTTP/1.1\n\n".to_string()).unwrap();
    assert_eq!(trailing.path(), "/a/");
}

#[test]
fn version_token_is_discarded() {
    let req = Request::from_raw("POST /submit ANYTHING AT ALL\n\n".to_string()).unwrap();
    assert_eq!(req.identifier(), "POST /submit".to_string());
}

#[test]
fn method_tokens_round_trip() {
    for (token, method) in [
        ("GET", Method::Get),
        ("POST", Method::Post),
        ("PUT", Method::Put),
        ("DELETE", Method::Delete),
    ] {
        let parsed = Method::from_token(token).unwrap();
        assert_eq!(parsed, method);
        assert_eq!(parsed.to_string(), token.to_string());
    }
    assert!(Method::from_token("PATCH").is_none());
    assert!(Method::from_token("").is_none());
}

#[test]
fn header_value_carriage_returns_removed() {
    let req = Request::from_raw("GET / HTTP/1.1\nKey: va\rlue\r\n\n".to_string()).unwrap();
    assert_eq!(req.headers().get("Key"), Some("value".to_string()));
}
