use packcake::{parse_head, Fields, Request};

fn request_from(text: &str, body: &str) -> Request {
    let head = parse_head(text).expect("head");
    Request::new(&head.line, head.headers, body.to_string()).expect("request")
}

#[test]
fn query_string_drops_pairs_without_value() {
    let req = Request::new("GET /x?a=1&b=2&bad HTTP/1.1", Fields::new(), String::new()).unwrap();
    assert_eq!(req.uri(), "/x");
    assert_eq!(req.method(), "GET");
    assert_eq!(req.get_param("a").map(|s| s.as_str()), Some("1"));
    assert_eq!(req.get_param("b").map(|s| s.as_str()), Some("2"));
    assert_eq!(req.get_param("bad"), None);
}

#[test]
fn query_string_last_occurrence_wins() {
    let req = Request::new("GET /x?a=1&a=2 HTTP/1.1", Fields::new(), String::new()).unwrap();
    assert_eq!(req.get_param("a").map(|s| s.as_str()), Some("2"));
}

#[test]
fn query_value_split_at_first_equals() {
    let req = Request::new("GET /x?k=a=b HTTP/1.1", Fields::new(), String::new()).unwrap();
    assert_eq!(req.get_param("k").map(|s| s.as_str()), Some("a=b"));
}

#[test]
fn path_without_query_has_no_params() {
    let req = Request::new("POST /api/v1/user HTTP/1.1", Fields::new(), String::new()).unwrap();
    assert_eq!(req.uri(), "/api/v1/user");
    assert_eq!(req.method(), "POST");
    assert_eq!(req.get_param("a"), None);
}

#[test]
fn empty_request_line_is_no_request() {
    assert!(Request::new("", Fields::new(), String::new()).is_none());
}

#[test]
fn request_line_without_target_is_no_request() {
    assert!(Request::new("GET", Fields::new(), String::new()).is_none());
}

#[test]
fn body_with_declared_length() {
    let text = "POST /x HTTP/1.1\r\nContent-Length: 5\r\n\r\n";
    let head = parse_head(text).unwrap();
    assert_eq!(head.content_length, 5);
    let req = request_from(text, "hello");
    assert_eq!(req.get_body(), "hello");
}

#[test]
fn zero_length_gives_empty_body() {
    let head = parse_head("POST /x HTTP/1.1\r\nContent-Length: 0\r\n\r\n").unwrap();
    assert_eq!(head.content_length, 0);
}

#[test]
fn missing_length_gives_empty_body() {
    let head = parse_head("GET /x HTTP/1.1\r\nHost: localhost\r\n\r\n").unwrap();
    assert_eq!(head.content_length, 0);
    let req = Request::new(&head.line, head.headers, String::new()).unwrap();
    assert_eq!(req.get_body(), "");
}

#[test]
fn bad_length_is_rejected() {
    assert!(parse_head("POST /x HTTP/1.1\r\nContent-Length: five\r\n\r\n").is_none());
    assert!(parse_head("POST /x HTTP/1.1\r\nContent-Length: 99999999999999999999999\r\n\r\n").is_none());
}

#[test]
fn headers_are_trimmed_and_split_at_first_colon() {
    let req = request_from("GET /x HTTP/1.1\r\nHost:   localhost:8080  \r\nToken: abc\r\n\r\n", "");
    assert_eq!(req.get_header("Host").map(|s| s.as_str()), Some("localhost:8080"));
    assert_eq!(req.get_header("Token").map(|s| s.as_str()), Some("abc"));
    assert_eq!(req.get_header("token"), None);
}

#[test]
fn duplicate_header_last_wins() {
    let req = request_from("GET /x HTTP/1.1\r\nA: 1\r\nA: 2\r\n\r\n", "");
    assert_eq!(req.get_header("A").map(|s| s.as_str()), Some("2"));
}

#[test]
fn short_header_lines_are_skipped() {
    let head = parse_head("GET /x HTTP/1.1\r\nA:\r\nBcd: e\r\n\r\n").unwrap();
    assert_eq!(head.headers.len(), 1);
    assert_eq!(head.headers.get("Bcd").map(|s| s.as_str()), Some("e"));
    assert_eq!(head.line, "GET /x HTTP/1.1");
}

#[test]
fn last_content_length_wins() {
    let head = parse_head("POST /x HTTP/1.1\r\nContent-Length: 3\r\nContent-Length: 7\r\n\r\n").unwrap();
    assert_eq!(head.content_length, 7);
}

#[test]
fn fields_insert_replaces_in_place() {
    let mut f = Fields::new();
    f.insert("a".to_string(), "1".to_string());
    f.insert("b".to_string(), "2".to_string());
    f.insert("a".to_string(), "3".to_string());
    assert_eq!(f.len(), 2);
    let (k, v) = f.entry(0);
    assert_eq!((k.as_str(), v.as_str()), ("a", "3"));
}

#[test]
fn content_length_with_plus_sign() {
    let head = parse_head("POST /x HTTP/1.1\r\nContent-Length: +5\r\n\r\n").unwrap();
    assert_eq!(head.content_length, 5);
    assert!(parse_head("POST /x HTTP/1.1\r\nContent-Length: +\r\n\r\n").is_none());
    assert!(parse_head("POST /x HTTP/1.1\r\nContent-Length: -5\r\n\r\n").is_none());
}

#[test]
fn header_values_trim_unicode_whitespace() {
    let req = request_from("GET /x HTTP/1.1\r\nName:\u{a0}\u{3000} v \u{2003}\r\n\r\n", "");
    assert_eq!(req.get_header("Name").map(|s| s.as_str()), Some("v"));
}
