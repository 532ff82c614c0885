use packcake::{reject_unmapped, Response, StatusCode};

#[test]
fn send_on_fresh_response() {
    let mut res = Response::new();
    res.send("ok");
    assert_eq!(res.sent(), "HTTP/1.1 200 OK\r\nContent-Length: 2\r\n\r\nok");
    assert_eq!(res.get_header("Content-Length").map(|s| s.as_str()), Some("2"));
}

#[test]
fn status_lines() {
    assert_eq!(StatusCode::OK.to_str(), "HTTP/1.1 200 OK");
    assert_eq!(StatusCode::Created.to_str(), "HTTP/1.1 201 CREATED");
    assert_eq!(StatusCode::NotFound.to_str(), "HTTP/1.1 404 NOT FOUND");
    assert_eq!(StatusCode::BadRequest.to_str(), "HTTP/1.1 400 BAD REQUEST");
}

#[test]
fn json_sets_content_type() {
    let mut res = Response::new();
    res.status(StatusCode::Created);
    res.json("{}");
    assert_eq!(
        res.sent(),
        "HTTP/1.1 201 CREATED\r\nContent-Type: Application/json\r\nContent-Length: 2\r\n\r\n{}"
    );
}

#[test]
fn content_length_counts_bytes() {
    let mut res = Response::new();
    res.send("héllo");
    assert_eq!(res.get_header("Content-Length").map(|s| s.as_str()), Some("6"));
}

#[test]
fn empty_body_has_zero_length() {
    let mut res = Response::new();
    res.send("");
    assert_eq!(res.sent(), "HTTP/1.1 200 OK\r\nContent-Length: 0\r\n\r\n");
}

#[test]
fn second_send_writes_again() {
    let mut res = Response::new();
    res.send("a");
    res.send("bc");
    assert_eq!(
        res.sent(),
        "HTTP/1.1 200 OK\r\nContent-Length: 1\r\n\r\naHTTP/1.1 200 OK\r\nContent-Length: 2\r\n\r\nbc"
    );
}

#[test]
fn header_keeps_its_place() {
    let mut res = Response::new();
    res.header("X", "1");
    res.header("Y", "2");
    res.header("X", "3");
    res.send("");
    assert_eq!(res.sent(), "HTTP/1.1 200 OK\r\nX: 3\r\nY: 2\r\nContent-Length: 0\r\n\r\n");
}

#[test]
fn unmapped_route_answer() {
    let mut res = Response::new();
    reject_unmapped(&mut res);
    assert_eq!(res.get_status(), StatusCode::BadRequest);
    assert_eq!(
        res.sent(),
        "HTTP/1.1 400 BAD REQUEST\r\nContent-Length: 19\r\n\r\nRoute is not mapped"
    );
}
