use rua_list::http_head::{
    attach_body, forward_request, head_complete, response_content_length, HeaderError,
};

fn forwarded(raw: &str) -> (String, usize) {
    let f = forward_request(raw).unwrap();
    (f.head, f.content_length)
}

#[test]
fn accept_illegal_headers() {
    let headers = "GET /sms.aspx HTTP/1.1\r\nHost: localhost:3000\r\nAccept: */*\r\nUser-Agent: curl/7.87.0\r\nthis is illgeal headers\r\n\r\n";
    let (head, len) = forwarded(headers);
    assert_eq!(
        head,
        "GET /sms.aspx HTTP/1.1\r\nHost: localhost:3000\r\nAccept: */*\r\nUser-Agent: curl/7.87.0\r\n\r\n"
    );
    assert_eq!(len, 0);
}

#[test]
fn headers_with_semicolon_are_dropped() {
    let raw = "GET / HTTP/1.1\r\nCookie: a=1; b=2\r\nHost: x\r\n\r\n";
    assert_eq!(forwarded(raw), ("GET / HTTP/1.1\r\nHost: x\r\n\r\n".to_string(), 0));
}

#[test]
fn all_headers_dropped_leaves_request_line() {
    let raw = "GET / HTTP/1.1\r\nbad\r\n\r\n";
    assert_eq!(forwarded(raw), ("GET / HTTP/1.1\r\n\r\n".to_string(), 0));
}

#[test]
fn content_length_is_read() {
    let raw = "POST /sms.aspx HTTP/1.1\r\nContent-Length: 12\r\n\r\n";
    assert_eq!(forwarded(raw).1, 12);
    let raw = "POST / HTTP/1.1\r\ncontent-LENGTH:\t 7 \r\n\r\n";
    assert_eq!(forwarded(raw).1, 7);
    let raw = "POST / HTTP/1.1\r\nContent-Length: +5\r\n\r\n";
    assert_eq!(forwarded(raw).1, 5);
}

#[test]
fn last_content_length_wins() {
    let raw = "POST / HTTP/1.1\r\nContent-Length: 3\r\nContent-Length: 9\r\n\r\n";
    assert_eq!(forwarded(raw).1, 9);
}

#[test]
fn content_length_in_dropped_header_is_ignored() {
    let raw = "POST / HTTP/1.1\r\nContent-Length: 3; x\r\n\r\n";
    assert_eq!(forwarded(raw), ("POST / HTTP/1.1\r\n\r\n".to_string(), 0));
}

#[test]
fn invalid_content_length_is_an_error() {
    for raw in [
        "POST / HTTP/1.1\r\nContent-Length: abc\r\n\r\n",
        "POST / HTTP/1.1\r\nContent-Length: -5\r\n\r\n",
        "POST / HTTP/1.1\r\nContent-Length:\r\n\r\n",
        "POST / HTTP/1.1\r\nContent-Length: 99999999999999999999999\r\n\r\n",
    ] {
        assert_eq!(forward_request(raw).unwrap_err(), HeaderError::InvalidContentLength);
    }
}

#[test]
fn head_without_end_is_an_error() {
    assert_eq!(forward_request("GET / HTTP/1.1").unwrap_err(), HeaderError::MissingHeadEnd);
    assert_eq!(forward_request("GET / HTTP/1.1\r\n").unwrap_err(), HeaderError::MissingHeadEnd);
}

#[test]
fn forwarding_twice_is_forwarding_once() {
    for raw in [
        "GET / HTTP/1.1\r\nA: 1\r\nb;c\r\nContent-Length: 4\r\n\r\n",
        "GET / HTTP/1.1\r\nnothing\r\n\r\n",
        "GET / HTTP/1.1\r\n\r\n",
    ] {
        let once = forwarded(raw);
        let twice = forwarded(&once.0);
        assert_eq!(once, twice);
    }
}

#[test]
fn response_length() {
    assert_eq!(response_content_length("HTTP/1.1 200 OK\r\nContent-Length: 5\r\n\r\n"), Ok(5));
    assert_eq!(response_content_length("HTTP/1.1 200 OK\r\nServer: x\r\n\r\n"), Ok(0));
    assert_eq!(
        response_content_length("HTTP/1.1 200 OK\r\nContent-Length\r\n\r\n"),
        Err(HeaderError::InvalidContentLength)
    );
}

#[test]
fn body_is_attached_lossily() {
    assert_eq!(attach_body("H\r\n\r\n", b"hello"), "H\r\n\r\nhello");
    assert_eq!(attach_body("H", &[0x61, 0xff, 0x62]), "Ha\u{fffd}b");
    assert_eq!(attach_body("H", &[]), "H");
}

#[test]
fn head_reading_stops_at_short_line() {
    assert!(head_complete(0));
    assert!(head_complete(2));
    assert!(!head_complete(3));
    assert!(!head_complete(40));
}

#[test]
fn bad_header_is_deleted_leaving_a_well_formed_head() {
    let raw = "GET / HTTP/1.1\r\nbad header\r\n\r\n";
    assert_eq!(forwarded(raw), ("GET / HTTP/1.1\r\n\r\n".to_string(), 0));
}
