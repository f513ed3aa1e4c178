use mini_http::error::{Error, ErrorKind};
use mini_http::reader::Reader;
use mini_http::request::text_of;
use mini_http::response::{status_line, Response, StatusCode};

#[test]
fn status_codes_carry_code_and_reason() {
    assert_eq!(StatusCode::OK.code(), 200);
    assert_eq!(StatusCode::OK.reason(), "OK");
    assert_eq!(StatusCode::OK.to_string(), "200 OK");
    assert_eq!(StatusCode::NotFound.code(), 404);
    assert_eq!(StatusCode::NotFound.reason(), "Not Found");
    assert_eq!(StatusCode::NotFound.to_string(), "404 Not Found");
}

#[test]
fn the_status_text_is_code_space_reason() {
    for status in [StatusCode::OK, StatusCode::NotFound] {
        assert_eq!(status.to_string(), format!("{} {}", status.code(), status.reason()));
        assert_eq!(status_line(status), format!("HTTP/1.1 {}\r\n", status.to_string()).as_bytes());
    }
}

#[test]
fn send_without_status_is_a_protocol_error() {
    let mut response = Response::new();
    assert_eq!(response.send(None), Err(Error::StatusNotSet));
    assert_eq!(response.send(Some(b"x".to_vec())), Err(Error::StatusNotSet));
    assert_eq!(response.body(), None);
    assert_eq!(Error::StatusNotSet.kind(), ErrorKind::Protocol);
    response.set_header(b"a", b"b");
    assert_eq!(response.send(None), Err(Error::StatusNotSet));
}

#[test]
fn status_line_round_trip() {
    let mut response = Response::new();
    let bytes = response.set_status_code(StatusCode::OK).send(None).unwrap();
    assert_eq!(bytes, b"HTTP/1.1 200 OK\r\n\r\n");
    let mut reader = Reader::new(bytes);
    let line = reader.read_line().unwrap();
    assert_eq!(text_of(&line), b"HTTP/1.1 200 OK");
}

#[test]
fn the_first_line_of_any_response_is_its_status_line() {
    let mut response = Response::new();
    response.set_status_code(StatusCode::NotFound).set_header(b"X", b"y");
    let bytes = response.send(Some(b"a\r\nb".to_vec())).unwrap();
    let mut reader = Reader::new(bytes);
    assert_eq!(reader.read_line().unwrap(), b"HTTP/1.1 404 Not Found\r\n");
}

#[test]
fn a_response_without_body_has_no_content_length() {
    let mut response = Response::new();
    response.set_status_code(StatusCode::OK).set_header(b"Content-Type", b"text/plain");
    assert_eq!(response.send(None).unwrap(), b"HTTP/1.1 200 OK\r\ncontent-type:text/plain\r\n\r\n");
    assert_eq!(response.body(), None);
}

#[test]
fn a_body_is_announced_by_its_length() {
    let mut response = Response::new();
    response.set_status_code(StatusCode::OK).set_header(b"Content-Type", b"text/plain");
    let bytes = response.send(Some(b"hello".to_vec())).unwrap();
    assert_eq!(
        bytes,
        b"HTTP/1.1 200 OK\r\ncontent-type:text/plain\r\ncontent-length:5\r\n\r\nhello"
    );
    assert_eq!(response.body(), Some(&b"hello"[..]));
    assert_eq!(response.status_code(), Some(StatusCode::OK));
}

#[test]
fn an_empty_body_is_announced_with_length_zero() {
    let mut response = Response::new();
    response.set_status_code(StatusCode::OK);
    assert_eq!(
        response.send(Some(Vec::new())).unwrap(),
        b"HTTP/1.1 200 OK\r\ncontent-length:0\r\n\r\n"
    );
}

#[test]
fn header_fields_keep_their_order_and_the_last_value() {
    let mut response = Response::new();
    response
        .set_status_code(StatusCode::OK)
        .set_header(b"B", b"1")
        .set_header(b"A", b"2")
        .set_header(b"B", b"3");
    assert_eq!(response.headers().len(), 2);
    assert_eq!(response.headers().name(0), b"B");
    assert_eq!(response.send(None).unwrap(), b"HTTP/1.1 200 OK\r\nb:3\r\na:2\r\n\r\n");
}

#[test]
fn header_names_keep_their_case_until_they_are_sent() {
    let mut response = Response::new();
    response
        .set_status_code(StatusCode::OK)
        .set_header(b"Content-Type", b"a")
        .set_header(b"content-type", b"b");
    assert_eq!(response.headers().len(), 2);
    assert_eq!(response.headers().get(b"Content-Type"), Some(&b"a"[..]));
    assert_eq!(
        response.send(None).unwrap(),
        b"HTTP/1.1 200 OK\r\ncontent-type:a\r\ncontent-type:b\r\n\r\n"
    );
}

#[test]
fn the_status_can_be_set_again() {
    let mut response = Response::new();
    assert_eq!(response.status_code(), None);
    response.set_status_code(StatusCode::OK).set_status_code(StatusCode::NotFound);
    assert_eq!(response.status_code(), Some(StatusCode::NotFound));
    assert_eq!(response.send(None).unwrap(), b"HTTP/1.1 404 Not Found\r\n\r\n");
}
