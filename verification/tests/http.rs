//! Requests and responses.

use scry3::http::{request_text, sends_again, server_address, HttpError, Response, Stage};

#[test]
fn addresses() {
    assert_eq!(server_address("localhost:8089"), "localhost:8089");
    assert_eq!(server_address("http://localhost:8089/"), "localhost:8089");
    assert_eq!(server_address("h:1//"), "h:1");
    assert_eq!(server_address("https://h"), "https://h");
}

#[test]
fn a_request() {
    assert_eq!(
        request_text("localhost:8089", "/xrefs", "{\"ä\":1}"),
        "POST /xrefs HTTP/1.1\r\nHost: localhost\r\nContent-Type: application/json\r\n\
         Content-Length: 8\r\nConnection: keep-alive\r\n\r\n{\"ä\":1}"
    );
    assert!(request_text("h", "edges", "").contains("Host: h\r\n"));
}

#[test]
fn a_body_of_a_length() {
    let mut r = Response::new();
    assert_eq!(r.stage(), Stage::Status);
    r.give_line(Some("HTTP/1.1 200 OK\r\n")).unwrap();
    r.give_line(Some("Content-LENGTH: 3 \r\n")).unwrap();
    r.give_line(Some("X: y\r\n")).unwrap();
    assert_eq!(r.stage(), Stage::Headers);
    r.give_line(Some("\r\n")).unwrap();
    assert_eq!(r.stage(), Stage::Whole(3));
    r.give_bytes(Some(b"abc".to_vec())).unwrap();
    assert_eq!(r.stage(), Stage::Done);
    assert_eq!(r.finish().unwrap(), b"abc");
}

#[test]
fn a_body_to_the_end() {
    let mut r = Response::new();
    r.give_line(Some("HTTP/1.1 200\r\n")).unwrap();
    r.give_line(Some("Content-Length: many\r\n")).unwrap();
    r.give_line(None).unwrap();
    assert_eq!(r.stage(), Stage::ToEnd);
    r.give_bytes(Some(b"rest".to_vec())).unwrap();
    assert_eq!(r.finish().unwrap(), b"rest");
}

#[test]
fn a_body_in_chunks() {
    let mut r = Response::new();
    r.give_line(Some("HTTP/1.1 200 OK")).unwrap();
    r.give_line(Some("Transfer-Encoding: gzip, Chunked")).unwrap();
    r.give_line(Some("Content-Length: 9")).unwrap();
    r.give_line(Some("")).unwrap();
    assert_eq!(r.stage(), Stage::ChunkSize);
    r.give_line(Some(" A ; x=1\r\n")).unwrap();
    assert_eq!(r.stage(), Stage::Chunk(10));
    r.give_bytes(Some(b"0123456789".to_vec())).unwrap();
    assert_eq!(r.stage(), Stage::ChunkEnd);
    r.give_bytes(None).unwrap();
    r.give_line(Some("1\r\n")).unwrap();
    r.give_bytes(Some(b"!".to_vec())).unwrap();
    r.give_bytes(Some(b"\r\n".to_vec())).unwrap();
    r.give_line(Some("0\r\n")).unwrap();
    assert_eq!(r.stage(), Stage::Trailer);
    r.give_line(Some("\r\n")).unwrap();
    assert_eq!(r.stage(), Stage::Done);
    assert_eq!(r.finish().unwrap(), b"0123456789!");
}

#[test]
fn chunks_that_stop() {
    let mut r = Response::new();
    r.give_line(Some("HTTP/1.1 200 OK")).unwrap();
    r.give_line(Some("transfer-encoding: chunked")).unwrap();
    r.give_line(Some("")).unwrap();
    r.give_line(None).unwrap();
    assert_eq!(r.stage(), Stage::Done);
    assert_eq!(r.finish().unwrap(), b"");
}

#[test]
fn responses_that_fail() {
    let mut r = Response::new();
    assert!(matches!(r.give_line(None), Err(HttpError::Closed)));

    let mut r = Response::new();
    r.give_line(Some("HTTP/1.1 200 OK")).unwrap();
    r.give_line(Some("content-length:5")).unwrap();
    r.give_line(Some("")).unwrap();
    assert!(matches!(r.give_bytes(None), Err(HttpError::Short)));

    let mut r = Response::new();
    r.give_line(Some("HTTP/1.1 200 OK")).unwrap();
    r.give_line(Some("transfer-encoding: chunked")).unwrap();
    r.give_line(Some("")).unwrap();
    assert!(matches!(r.give_line(Some("xyz")), Err(HttpError::ChunkSize)));
}

#[test]
fn a_server_that_refuses() {
    let mut r = Response::new();
    r.give_line(Some("HTTP/1.1 404 Not Found\r\n")).unwrap();
    r.give_line(Some("\r\n")).unwrap();
    r.give_bytes(Some(vec![b'n', b'o', 0xff])).unwrap();
    match r.finish() {
        Err(HttpError::Status { code, text }) => {
            assert_eq!(code, 404);
            assert_eq!(text, "no\u{fffd}");
        }
        other => panic!("{other:?}"),
    }
}

#[test]
fn a_status_that_is_no_number() {
    let mut r = Response::new();
    r.give_line(Some("HTTP/1.1 huh")).unwrap();
    r.give_line(None).unwrap();
    r.give_bytes(Some(b"x".to_vec())).unwrap();
    assert_eq!(r.finish().unwrap(), b"x");
}

#[test]
fn a_dropped_connection_is_tried_once_more() {
    assert!(sends_again(&HttpError::Closed, true));
    assert!(sends_again(&HttpError::Short, true));
    assert!(!sends_again(&HttpError::Closed, false));
    assert!(!sends_again(&HttpError::Short, false));
    assert!(!sends_again(&HttpError::ChunkSize, true));
    assert!(!sends_again(&HttpError::Status { code: 404, text: "no".to_string() }, true));
}
