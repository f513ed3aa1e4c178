use mini_http::error::{Error, ErrorKind};
use mini_http::reader::{ends_with_terminator, Reader};
use mini_http::request::{is_blank, text_of, Head, Method, Request};

fn parse(input: &[u8]) -> Result<Request, Error> {
    let mut reader = Reader::new(input.to_vec());
    Request::new(&mut reader)
}

#[test]
fn parses_a_get_request_without_headers() {
    let mut reader = Reader::new(b"GET / HTTP/1.1\r\n\r\n".to_vec());
    let request = Request::new(&mut reader).unwrap();
    assert_eq!(request.method(), Method::GET);
    assert_eq!(request.path(), b"/");
    assert_eq!(request.version(), b"HTTP/1.1");
    assert_eq!(request.headers().len(), 0);
    assert_eq!(request.body(), b"");
    assert_eq!(reader.available(), 0);
}

#[test]
fn parses_a_post_request_start_line() {
    let request = parse(b"POST /submit/form HTTP/1.0\r\n\r\n").unwrap();
    assert_eq!(request.method(), Method::POST);
    assert_eq!(request.path(), b"/submit/form");
    assert_eq!(request.version(), b"HTTP/1.0");
}

#[test]
fn method_tokens_are_case_sensitive() {
    assert_eq!(Method::from(b"GET"), Some(Method::GET));
    assert_eq!(Method::from(b"POST"), Some(Method::POST));
    assert_eq!(Method::from(b"get"), None);
    assert_eq!(Method::from(b"PUT"), None);
    assert_eq!(Method::from(b""), None);
    assert_eq!(Method::GET.token(), b"GET");
    assert_eq!(Method::POST.token(), b"POST");
}

#[test]
fn an_unfinished_start_line_is_an_io_error() {
    assert_eq!(parse(b"GET / HTTP/1.1").err(), Some(Error::UnexpectedEof));
    assert_eq!(parse(b"").err(), Some(Error::UnexpectedEof));
    assert_eq!(Error::UnexpectedEof.kind(), ErrorKind::Io);
}

#[test]
fn a_start_line_with_two_tokens_is_malformed() {
    assert_eq!(parse(b"GET /\r\n\r\n").err(), Some(Error::MalformedStartLine));
    assert_eq!(parse(b"\r\n\r\n").err(), Some(Error::MalformedStartLine));
    assert_eq!(Error::MalformedStartLine.kind(), ErrorKind::Parse);
}

#[test]
fn an_unsupported_method_is_rejected() {
    assert_eq!(parse(b"DELETE / HTTP/1.1\r\n\r\n").err(), Some(Error::UnsupportedMethod));
    assert_eq!(Error::UnsupportedMethod.kind(), ErrorKind::Parse);
}

#[test]
fn tokens_after_the_third_are_ignored() {
    let request = parse(b"GET /a b HTTP/1.1\r\n\r\n").unwrap();
    assert_eq!(request.path(), b"/a");
    assert_eq!(request.version(), b"b");
}

#[test]
fn two_spaces_enclose_an_empty_token() {
    let request = parse(b"GET  / HTTP/1.1\r\n\r\n").unwrap();
    assert_eq!(request.path(), b"");
    assert_eq!(request.version(), b"/");
}

#[test]
fn header_names_are_lower_cased_and_values_trimmed() {
    let request = parse(b"GET / HTTP/1.1\r\nUser-Agent:   test-client \t\r\nHOST:localhost:4221\r\n\r\n")
        .unwrap();
    assert_eq!(request.headers().len(), 2);
    assert_eq!(request.headers().get(b"user-agent"), Some(&b"test-client"[..]));
    assert_eq!(request.headers().get(b"host"), Some(&b"localhost:4221"[..]));
    assert_eq!(request.headers().get(b"User-Agent"), None);
}

#[test]
fn the_last_header_of_a_name_wins() {
    let request = parse(b"GET / HTTP/1.1\r\nAccept: a\r\naccept: b\r\nACCEPT: c\r\n\r\n").unwrap();
    assert_eq!(request.headers().len(), 1);
    assert_eq!(request.headers().get(b"accept"), Some(&b"c"[..]));
}

#[test]
fn a_header_line_without_a_colon_is_skipped() {
    let request = parse(b"GET / HTTP/1.1\r\nnonsense\r\nHost: x\r\n\r\n").unwrap();
    assert_eq!(request.headers().len(), 1);
    assert_eq!(request.headers().get(b"host"), Some(&b"x"[..]));
}

#[test]
fn a_header_name_is_not_trimmed() {
    let request = parse(b"GET / HTTP/1.1\r\nHost : x\r\n\r\n").unwrap();
    assert_eq!(request.headers().get(b"host "), Some(&b"x"[..]));
    assert_eq!(request.headers().get(b"host"), None);
}

#[test]
fn the_body_has_the_declared_length() {
    let mut reader =
        Reader::new(b"POST /p HTTP/1.1\r\nContent-Length: 5\r\n\r\nhello and more".to_vec());
    let request = Request::new(&mut reader).unwrap();
    assert_eq!(request.body(), b"hello");
    assert_eq!(request.headers().get(b"content-length"), Some(&b"5"[..]));
    assert_eq!(reader.available(), 9);
    assert_eq!(reader.read_exact(9).unwrap(), b" and more");
}

#[test]
fn without_content_length_the_body_is_empty() {
    let mut reader = Reader::new(b"POST /p HTTP/1.1\r\nHost: x\r\n\r\nhello".to_vec());
    let request = Request::new(&mut reader).unwrap();
    assert_eq!(request.body(), b"");
    assert_eq!(reader.available(), 5);
}

#[test]
fn a_content_length_of_zero_reads_no_body() {
    let mut reader = Reader::new(b"POST /p HTTP/1.1\r\ncontent-length: 0\r\n\r\nhello".to_vec());
    let request = Request::new(&mut reader).unwrap();
    assert_eq!(request.body(), b"");
    assert_eq!(reader.available(), 5);
}

#[test]
fn a_short_body_fails_instead_of_being_truncated() {
    assert_eq!(
        parse(b"POST /p HTTP/1.1\r\nContent-Length: 10\r\n\r\nhello").err(),
        Some(Error::UnexpectedEof)
    );
}

#[test]
fn every_proper_prefix_of_a_request_fails_for_want_of_input() {
    let whole = b"POST /p HTTP/1.1\r\nHost: x\r\nContent-Length: 5\r\n\r\nhello";
    assert!(parse(whole).is_ok());
    for k in 0..whole.len() {
        assert_eq!(parse(&whole[..k]).err(), Some(Error::UnexpectedEof));
    }
}

#[test]
fn a_content_length_that_is_no_number_is_rejected() {
    for value in ["abc", "-1", "+5", "", "5 5", "1.0", "0x10"] {
        let input = format!("GET / HTTP/1.1\r\nContent-Length: {}\r\n\r\n", value);
        assert_eq!(parse(input.as_bytes()).err(), Some(Error::BadContentLength));
    }
    assert_eq!(Error::BadContentLength.kind(), ErrorKind::Parse);
}

#[test]
fn a_content_length_too_large_for_the_machine_is_rejected() {
    let input = b"GET / HTTP/1.1\r\nContent-Length: 99999999999999999999999999\r\n\r\n";
    assert_eq!(parse(input).err(), Some(Error::BadContentLength));
}

#[test]
fn the_last_content_length_decides() {
    let request = parse(b"POST / HTTP/1.1\r\nContent-Length: 1\r\ncontent-length: 3\r\n\r\nabcdef")
        .unwrap();
    assert_eq!(request.body(), b"abc");
}

#[test]
fn a_bad_start_line_is_reported_before_a_missing_header_block() {
    assert_eq!(parse(b"PATCH / HTTP/1.1\r\nHost").err(), Some(Error::UnsupportedMethod));
}

#[test]
fn a_line_feed_alone_does_not_end_a_line() {
    assert_eq!(parse(b"GET / HTTP/1.1\n\n").err(), Some(Error::UnexpectedEof));
    let request = parse(b"GET / HTTP/1.1\nx\r\n\r\n").unwrap();
    assert_eq!(request.version(), b"HTTP/1.1\nx");
}

#[test]
fn the_body_text_is_decoded_with_replacement() {
    let request = parse(b"POST / HTTP/1.1\r\nContent-Length: 5\r\n\r\nhello").unwrap();
    assert_eq!(request.body_text(), "hello");
    let request = parse(b"POST / HTTP/1.1\r\nContent-Length: 3\r\n\r\na\xffb").unwrap();
    assert_eq!(request.body(), b"a\xffb");
    assert_eq!(request.body_text(), "a\u{fffd}b");
}

#[test]
fn the_head_can_be_fed_line_by_line() {
    let mut head = Head::new(b"POST /p HTTP/1.1\r\n").unwrap();
    assert_eq!(head.content_length(), 0);
    assert!(!is_blank(b"Content-Length: 2\r\n"));
    assert_eq!(head.header_line(b"Content-Length: 2\r\n"), Ok(()));
    assert_eq!(head.content_length(), 2);
    assert_eq!(head.header_line(b"Content-Length: x\r\n"), Err(Error::BadContentLength));
    assert_eq!(head.content_length(), 2);
    assert!(is_blank(b"\r\n"));
    assert!(!is_blank(b"\n"));
    assert!(!is_blank(b""));
    let request = head.finish(b"ok".to_vec());
    assert_eq!(request.method(), Method::POST);
    assert_eq!(request.path(), b"/p");
    assert_eq!(request.version(), b"HTTP/1.1");
    assert_eq!(request.body(), b"ok");
    assert_eq!(request.headers().get(b"content-length"), Some(&b"2"[..]));
}

#[test]
fn a_line_loses_only_its_terminator() {
    assert_eq!(text_of(b"abc\r\n"), b"abc");
    assert_eq!(text_of(b"abc"), b"abc");
    assert_eq!(text_of(b"abc\n"), b"abc\n");
    assert_eq!(text_of(b"\r\n"), b"");
    assert_eq!(text_of(b"a\r\n\r\n"), b"a\r\n");
}

#[test]
fn the_reader_hands_out_lines_with_their_terminator() {
    let mut reader = Reader::new(b"one\r\ntwo\r\nthree".to_vec());
    assert_eq!(reader.read_line().unwrap(), b"one\r\n");
    assert_eq!(reader.available(), 10);
    assert_eq!(reader.read_line().unwrap(), b"two\r\n");
    assert_eq!(reader.read_line(), Err(Error::UnexpectedEof));
    assert_eq!(reader.available(), 5);
    assert_eq!(reader.read_exact(6), Err(Error::UnexpectedEof));
    assert_eq!(reader.read_exact(5).unwrap(), b"three");
    assert_eq!(reader.read_exact(0).unwrap(), b"");
    assert_eq!(reader.read_exact(1), Err(Error::UnexpectedEof));
}

#[test]
fn the_reader_finds_a_terminator_behind_a_lone_carriage_return() {
    let mut reader = Reader::new(b"a\r\r\nb".to_vec());
    assert_eq!(reader.read_line().unwrap(), b"a\r\r\n");
    assert_eq!(reader.available(), 1);
}

#[test]
fn a_whole_line_ends_with_carriage_return_and_line_feed() {
    assert!(ends_with_terminator(b"abc\r\n"));
    assert!(ends_with_terminator(b"\r\n"));
    assert!(!ends_with_terminator(b"abc\n"));
    assert!(!ends_with_terminator(b"abc\r"));
    assert!(!ends_with_terminator(b"\n"));
    assert!(!ends_with_terminator(b""));
}
