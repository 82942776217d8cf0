use webdav::error::TransportError;
use webdav::wire::{
    is_worth_repeating, read_request, read_response, reason, request_with_head, response_with_head,
    write_request, write_response, ReadError, Request, Response,
};

const LIMIT: usize = 65536;

fn refused(message: &str) -> ReadError {
    ReadError::Refused(TransportError {
        message: message.to_string(),
        retryable: false,
    })
}

#[test]
fn a_request_and_a_response_round_trip() {
    let request = Request::new("PUT", "/orders/1.edi")
        .with_header("Depth", "1")
        .with_body(b"UNA:+.? '");
    let wire = write_request("dav.example:8080", &request);
    let text = String::from_utf8_lossy(&wire).into_owned();
    assert!(text.starts_with("PUT /orders/1.edi HTTP/1.1\r\nHost: dav.example:8080\r\n"));
    assert!(text.contains("Content-Length: 9\r\n\r\nUNA"));
    let (back, length) = read_request(&wire, LIMIT).expect("read").expect("one");
    assert_eq!(length, wire.len());
    assert_eq!(back.method, "PUT");
    assert_eq!(back.path, "/orders/1.edi");
    assert_eq!(back.header("depth"), Some("1"));
    assert_eq!(back.header("host"), Some("dav.example:8080"));
    assert_eq!(back.body, request.body);
    let response = Response::new(207)
        .with_header("Lock-Token", "<x>")
        .with_body(b"<a/>");
    let wire = write_response(&response);
    assert!(wire.starts_with(b"HTTP/1.1 207 Multi-Status\r\n"));
    let (back, length) = read_response(&wire, LIMIT).expect("read");
    assert_eq!(length, wire.len());
    assert_eq!(back.status, 207);
    assert_eq!(back.header("lock-token"), Some("<x>"));
    assert_eq!(back.body, b"<a/>");
    assert!(back.judge().is_ok());
}

#[test]
fn what_is_not_http_is_refused_and_a_lock_is_worth_waiting_for() {
    assert!(read_request(b"", LIMIT).expect("closed").is_none());
    assert!(read_request(b"nonsense\r\n\r\n", LIMIT).is_err());
    assert!(read_response(b"", LIMIT).is_err(), "closed early");
    assert!(read_response(b"HTTP/1.1 x\r\n\r\n", LIMIT).is_err());
    let chunked = b"HTTP/1.1 200 OK\r\nTransfer-Encoding: chunked\r\n\r\n0\r\n\r\n";
    assert!(read_response(chunked, LIMIT).is_err(), "chunked");
    let short = b"HTTP/1.1 200 OK\r\nContent-Length: 5\r\n\r\nab";
    assert!(read_response(short, LIMIT).is_err(), "short body");
    let (none, _) = read_response(b"HTTP/1.1 204 No Content\r\n\r\n", LIMIT).expect("204");
    assert!(none.body.is_empty());
    assert!(Response::new(423).judge().expect_err("locked").retryable);
    assert!(Response::new(503).judge().expect_err("server").retryable);
    assert!(!Response::new(404).judge().expect_err("missing").retryable);
}

#[test]
fn a_request_is_written_to_the_byte() {
    let request = Request::new("GET", "/a")
        .with_header("X", "y")
        .with_body(b"\x00\xff");
    assert_eq!(
        write_request("h:1", &request),
        b"GET /a HTTP/1.1\r\nHost: h:1\r\nX: y\r\nContent-Length: 2\r\n\r\n\x00\xff".to_vec()
    );
}

#[test]
fn a_response_is_written_to_the_byte() {
    assert_eq!(
        write_response(&Response::new(204)),
        b"HTTP/1.1 204 No Content\r\nContent-Length: 0\r\n\r\n".to_vec()
    );
    assert_eq!(
        write_response(&Response::new(299).with_header("A", "b").with_body(b"x")),
        b"HTTP/1.1 299 Unknown\r\nA: b\r\nContent-Length: 1\r\n\r\nx".to_vec()
    );
}

#[test]
fn every_phrase_has_its_status() {
    let phrases: [(u16, &str); 11] = [
        (200, "OK"),
        (201, "Created"),
        (204, "No Content"),
        (207, "Multi-Status"),
        (400, "Bad Request"),
        (403, "Forbidden"),
        (404, "Not Found"),
        (405, "Method Not Allowed"),
        (409, "Conflict"),
        (423, "Locked"),
        (500, "Unknown"),
    ];
    for (status, phrase) in phrases {
        assert_eq!(reason(status), phrase);
    }
}

#[test]
fn a_refusal_is_judged_by_its_status() {
    for status in [200u16, 204, 207, 299] {
        assert!(Response::new(status).judge().is_ok());
    }
    for status in [408u16, 423, 429, 500, 503, 599] {
        let error = Response::new(status).judge().expect_err("refused");
        assert!(error.retryable);
        assert_eq!(error.message, format!("the server answered {status}"));
        assert!(is_worth_repeating(status));
    }
    for status in [100u16, 199, 300, 400, 403, 404, 409, 422, 424, 499, 600, 65535] {
        let error = Response::new(status).judge().expect_err("refused");
        assert!(!error.retryable);
        assert!(!is_worth_repeating(status));
    }
}

#[test]
fn what_cannot_be_read_says_why() {
    assert_eq!(
        read_request(b"nonsense\r\n\r\n", LIMIT),
        Err(refused("a request line Xmip cannot read: nonsense"))
    );
    assert_eq!(
        read_response(b"HTTP/1.1 x\r\n\r\n", LIMIT),
        Err(refused("a status line Xmip cannot read: HTTP/1.1 x"))
    );
    assert_eq!(
        read_response(b"HTTP/1.1 65536 Big\r\n\r\n", LIMIT),
        Err(refused("a status line Xmip cannot read: HTTP/1.1 65536 Big"))
    );
    assert_eq!(
        read_response(b"", LIMIT),
        Err(refused("the server closed without answering"))
    );
    assert_eq!(
        read_response(b"\r\n", LIMIT),
        Err(refused("the server closed without answering"))
    );
    assert_eq!(
        read_request(b"PUT / HTTP/1.1\r\ntransfer-encoding: gzip, chunked\r\n\r\n", LIMIT),
        Err(refused("a chunked body, which this transport does not read"))
    );
    assert_eq!(
        read_request(b"PUT / HTTP/1.1\r\ncontent-length: many\r\n\r\n", LIMIT),
        Err(refused("a content-length that is not a number: many"))
    );
    assert_eq!(
        read_request(b"PUT / HTTP/1.1\r\ncontent-length: -1\r\n\r\n", LIMIT),
        Err(refused("a content-length that is not a number: -1"))
    );
    assert_eq!(
        read_request(b"PUT / HTTP/1.1\r\ncontent-length: 11\r\n\r\nhello world", 10),
        Err(refused("a body of 11 bytes, over the 10 byte limit"))
    );
}

#[test]
fn a_request_line_is_a_method_a_path_and_the_version() {
    for line in [
        "GET /x",
        "GET /x HTTP/1.0",
        "GET /x http/1.1",
        "GET /x HTTP/1.1 more",
        "GET",
    ] {
        let wire = format!("{line}\r\n\r\n");
        assert_eq!(
            read_request(wire.as_bytes(), LIMIT),
            Err(refused(&format!("a request line Xmip cannot read: {line}")))
        );
    }
    let (back, _) = read_request(b" GET\t/x  HTTP/1.1 \r\n\r\n", LIMIT)
        .expect("read")
        .expect("one");
    assert_eq!(back, Request::new("GET", "/x"));
    let (back, _) = read_response(b"HTTP/1.1 200\r\n\r\n", LIMIT).expect("no phrase");
    assert_eq!(back, Response::new(200));
}

#[test]
fn a_body_whose_length_is_missing_is_refused() {
    assert_eq!(
        read_request(b"PUT /x HTTP/1.1\r\n\r\nabc", LIMIT),
        Err(refused("a body whose length is missing"))
    );
    let (back, length) = read_request(b"PUT /x HTTP/1.1\r\n\r\n", LIMIT)
        .expect("nothing follows")
        .expect("one");
    assert_eq!(back, Request::new("PUT", "/x"));
    assert_eq!(length, 19);
    let (back, _) = read_request(b"PUT /x HTTP/1.1\r\nContent-Length: 0\r\n\r\n", LIMIT)
        .expect("read")
        .expect("one");
    assert!(back.body.is_empty());
    let (back, length) = read_request(b"MKCOL /x HTTP/1.1\r\n\r\n", LIMIT)
        .expect("read")
        .expect("one");
    assert!(back.body.is_empty());
    assert_eq!(length, 21);
}

#[test]
fn a_coding_is_known_whatever_its_case() {
    for coding in ["Chunked", "CHUNKED", "gzip, chunKed", "chunked"] {
        let wire = format!("HTTP/1.1 200 OK\r\nTransfer-Encoding: {coding}\r\n\r\n0\r\n\r\n");
        assert_eq!(
            read_response(wire.as_bytes(), LIMIT),
            Err(refused("a chunked body, which this transport does not read"))
        );
    }
    let wire = b"HTTP/1.1 200 OK\r\nTransfer-Encoding: chunk\r\n\r\n";
    assert!(read_response(wire, LIMIT).expect("another").0.body.is_empty());
}

#[test]
fn a_message_cut_short_is_asked_for_again() {
    let request = Request::new("PUT", "/orders/1.edi")
        .with_header("Depth", "1")
        .with_body(b"\r\n\r\nHTTP/1.1");
    let wire = write_request("dav.example", &request);
    for length in 1..wire.len() {
        assert_eq!(read_request(&wire[..length], LIMIT), Err(ReadError::Partial));
    }
    let response = Response::new(207).with_body(b"<a/>\r\n\r\n");
    let wire = write_response(&response);
    for length in 1..wire.len() {
        assert_eq!(read_response(&wire[..length], LIMIT), Err(ReadError::Partial));
    }
}

#[test]
fn what_follows_a_message_is_left_alone() {
    let request = Request::new("PUT", "/a").with_body(b"body");
    let mut wire = write_request("h", &request);
    let alone: usize = wire.len();
    wire.extend_from_slice(b"GET /next HTTP/1.1\r\n\r\n");
    let (back, length) = read_request(&wire, LIMIT).expect("read").expect("one");
    assert_eq!(length, alone);
    assert_eq!(back.body, b"body");
    let (next, length) = read_request(&wire[length..], LIMIT).expect("read").expect("one");
    assert_eq!(next.path, "/next");
    assert_eq!(length, 22);
    let mut wire = write_response(&Response::new(200).with_body(b"ok"));
    let alone: usize = wire.len();
    wire.extend_from_slice(b"rest");
    let (back, length) = read_response(&wire, LIMIT).expect("read");
    assert_eq!(length, alone);
    assert_eq!(back.body, b"ok");
}

#[test]
fn a_line_may_end_in_a_line_feed_alone() {
    let (back, length) = read_request(b"GET /a HTTP/1.1\nHost:h\n\n", LIMIT)
        .expect("read")
        .expect("one");
    assert_eq!(length, 24);
    assert_eq!(back.headers, vec![("Host".to_string(), "h".to_string())]);
}

#[test]
fn a_header_is_split_at_its_first_colon_and_trimmed() {
    let wire = b"GET /a HTTP/1.1\r\n Host : dav.example:8080 \r\nno colon\r\nEmpty:\r\n\r\n";
    let (back, _) = read_request(wire, LIMIT).expect("read").expect("one");
    assert_eq!(
        back.headers,
        vec![
            ("Host".to_string(), "dav.example:8080".to_string()),
            ("Empty".to_string(), String::new()),
        ]
    );
    assert_eq!(back.header("HOST"), Some("dav.example:8080"));
    assert_eq!(back.header("host "), None);
}

#[test]
fn the_first_header_of_a_name_counts() {
    let response = Response::new(200)
        .with_header("Lock-Token", "<a>")
        .with_header("lock-token", "<b>");
    assert_eq!(response.header("LOCK-TOKEN"), Some("<a>"));
    assert_eq!(response.header("lock"), None);
}

#[test]
fn bytes_that_are_no_text_are_read_as_well_as_may_be() {
    let (back, _) = read_request(b"GET /\xff\xc3\xa5 HTTP/1.1\r\n\r\n", LIMIT)
        .expect("read")
        .expect("one");
    assert_eq!(back.path, "/\u{fffd}\u{e5}");
}

#[test]
fn a_length_may_carry_a_plus_sign() {
    let (back, _) = read_request(b"PUT /a HTTP/1.1\r\nContent-Length: +2\r\n\r\nabc", LIMIT)
        .expect("read")
        .expect("one");
    assert_eq!(back.body, b"ab");
}

#[test]
fn a_body_without_a_length_is_empty() {
    let wire = b"HTTP/1.1 200 OK\r\n\r\nrest";
    let (back, length) = read_response(wire, LIMIT).expect("read");
    assert!(back.body.is_empty());
    assert_eq!(length, 19);
    let wire = b"HTTP/1.1 304 Not Modified\r\nContent-Length: 9\r\n\r\n";
    let (back, length) = read_response(wire, LIMIT).expect("no body");
    assert!(back.body.is_empty());
    assert_eq!(length, wire.len());
}

#[test]
fn a_head_that_was_read_makes_the_message() {
    let head = vec!["GET /a HTTP/1.1".to_string(), "Content-Length: 1".to_string()];
    let (request, after) = request_with_head(&head, b"..xy", 2, LIMIT)
        .expect("read")
        .expect("one");
    assert_eq!(request.body, b"x");
    assert_eq!(after, 3);
    assert!(request_with_head(&Vec::new(), b"", 0, LIMIT).expect("closed").is_none());
    let head = vec!["HTTP/1.1 423 Locked".to_string()];
    let (response, after) = response_with_head(&head, b"", 0, LIMIT).expect("read");
    assert_eq!(response.status, 423);
    assert_eq!(after, 0);
}
