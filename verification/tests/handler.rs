use mini_http::error::Error;
use mini_http::handler::{handle, respond};
use mini_http::reader::Reader;
use mini_http::router::{Directory, Outcome};

fn serve(input: &[u8], directory: Option<&Directory>) -> Result<Vec<u8>, Error> {
    let mut reader = Reader::new(input.to_vec());
    handle(&mut reader, directory)
}

#[test]
fn get_root_is_answered_with_an_empty_200() {
    assert_eq!(serve(b"GET / HTTP/1.1\r\n\r\n", None).unwrap(), b"HTTP/1.1 200 OK\r\n\r\n");
    assert_eq!(
        serve(b"GET / HTTP/1.1\r\nHost: x\r\nUser-Agent: y\r\n\r\n", None).unwrap(),
        b"HTTP/1.1 200 OK\r\n\r\n"
    );
}

#[test]
fn get_echo_is_answered_with_the_text() {
    assert_eq!(
        serve(b"GET /echo/abc/def HTTP/1.1\r\n\r\n", None).unwrap(),
        b"HTTP/1.1 200 OK\r\ncontent-type:text/plain\r\ncontent-length:7\r\n\r\nabc/def"
    );
}

#[test]
fn get_user_agent_is_answered_with_the_header() {
    assert_eq!(
        serve(b"GET /user-agent HTTP/1.1\r\nUser-Agent: test-client\r\n\r\n", None).unwrap(),
        b"HTTP/1.1 200 OK\r\ncontent-type:text/plain\r\ncontent-length:11\r\n\r\ntest-client"
    );
    assert_eq!(
        serve(b"GET /user-agent HTTP/1.1\r\n\r\n", None).unwrap(),
        b"HTTP/1.1 404 Not Found\r\n\r\n"
    );
}

#[test]
fn get_files_is_answered_from_the_directory() {
    let empty = Directory::new();
    assert_eq!(
        serve(b"GET /files/missing.txt HTTP/1.1\r\n\r\n", Some(&empty)).unwrap(),
        b"HTTP/1.1 404 Not Found\r\n\r\n"
    );
    let mut directory = Directory::new();
    directory.add(b"present.txt".to_vec(), b"hello".to_vec());
    assert_eq!(
        serve(b"GET /files/present.txt HTTP/1.1\r\n\r\n", Some(&directory)).unwrap(),
        &b"HTTP/1.1 200 OK\r\ncontent-type:application/octet-stream\r\ncontent-length:5\r\n\r\nhello"[..]
    );
    assert_eq!(
        serve(b"GET /files/present.txt HTTP/1.1\r\n\r\n", None).unwrap(),
        b"HTTP/1.1 404 Not Found\r\n\r\n"
    );
}

#[test]
fn post_is_routed_like_get() {
    assert_eq!(
        serve(b"POST /echo/x HTTP/1.1\r\nContent-Length: 3\r\n\r\nabc", None).unwrap(),
        b"HTTP/1.1 200 OK\r\ncontent-type:text/plain\r\ncontent-length:1\r\n\r\nx"
    );
}

#[test]
fn a_request_that_cannot_be_read_gets_no_response() {
    assert_eq!(serve(b"GET /", None), Err(Error::UnexpectedEof));
    assert_eq!(serve(b"BREW / HTCPCP/1.0\r\n\r\n", None), Err(Error::UnsupportedMethod));
    assert_eq!(serve(b"GET\r\n\r\n", None), Err(Error::MalformedStartLine));
    assert_eq!(
        serve(b"GET / HTTP/1.1\r\nContent-Length: many\r\n\r\n", None),
        Err(Error::BadContentLength)
    );
    assert_eq!(
        serve(b"GET / HTTP/1.1\r\nContent-Length: 4\r\n\r\nabc", None),
        Err(Error::UnexpectedEof)
    );
}

#[test]
fn one_request_is_read_and_the_rest_is_left() {
    let mut reader = Reader::new(b"GET / HTTP/1.1\r\n\r\nGET /echo/2 HTTP/1.1\r\n\r\n".to_vec());
    assert_eq!(handle(&mut reader, None).unwrap(), b"HTTP/1.1 200 OK\r\n\r\n");
    assert_eq!(reader.available(), 24);
    assert_eq!(
        handle(&mut reader, None).unwrap(),
        b"HTTP/1.1 200 OK\r\ncontent-type:text/plain\r\ncontent-length:1\r\n\r\n2"
    );
    assert_eq!(handle(&mut reader, None), Err(Error::UnexpectedEof));
}

#[test]
fn respond_writes_an_outcome_in_wire_form() {
    assert_eq!(respond(Outcome::not_found()), b"HTTP/1.1 404 Not Found\r\n\r\n");
    assert_eq!(respond(Outcome::ok()), b"HTTP/1.1 200 OK\r\n\r\n");
    assert_eq!(
        respond(Outcome::with_body(b"text/plain", b"hi".to_vec())),
        b"HTTP/1.1 200 OK\r\ncontent-type:text/plain\r\ncontent-length:2\r\n\r\nhi"
    );
}
