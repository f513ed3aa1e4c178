use mini_http::headers::Headers;
use mini_http::response::StatusCode;
use mini_http::router::{echo, file_name, requested_file, route, Directory, Outcome};

fn with_agent(agent: &[u8]) -> Headers {
    let mut headers = Headers::new();
    headers.insert(b"user-agent".to_vec(), agent.to_vec());
    headers
}

fn is_not_found(outcome: &Outcome) -> bool {
    outcome.status == StatusCode::NotFound && outcome.headers.len() == 0 && outcome.body.is_none()
}

fn has_body(outcome: &Outcome, content_type: &[u8], body: &[u8]) -> bool {
    outcome.status == StatusCode::OK
        && outcome.headers.len() == 1
        && outcome.headers.get(b"Content-Type") == Some(content_type)
        && outcome.body.as_deref() == Some(body)
}

#[test]
fn root_is_ok_and_empty_regardless_of_headers() {
    for headers in [Headers::new(), with_agent(b"curl")] {
        let outcome = route(b"/", &headers, None);
        assert_eq!(outcome.status, StatusCode::OK);
        assert_eq!(outcome.headers.len(), 0);
        assert_eq!(outcome.body, None);
    }
    let mut directory = Directory::new();
    directory.add(b"".to_vec(), b"x".to_vec());
    let outcome = route(b"/", &Headers::new(), Some(&directory));
    assert_eq!(outcome.status, StatusCode::OK);
    assert_eq!(outcome.body, None);
}

#[test]
fn echo_returns_the_rest_of_the_path() {
    let outcome = route(b"/echo/abc/def", &Headers::new(), None);
    assert!(has_body(&outcome, b"text/plain", b"abc/def"));
    let outcome = route(b"/echo/abc", &Headers::new(), None);
    assert!(has_body(&outcome, b"text/plain", b"abc"));
    let outcome = route(b"/echo/a//b/", &Headers::new(), None);
    assert!(has_body(&outcome, b"text/plain", b"a//b/"));
}

#[test]
fn echo_without_text_is_empty() {
    assert!(has_body(&route(b"/echo", &Headers::new(), None), b"text/plain", b""));
    assert!(has_body(&route(b"/echo/", &Headers::new(), None), b"text/plain", b""));
    assert_eq!(echo(b"/echo"), Some(Vec::new()));
}

#[test]
fn echo_looks_at_the_segment_behind_the_first_slash() {
    assert_eq!(echo(b"x/echo/abc"), Some(b"abc".to_vec()));
    assert_eq!(echo(b"/echo/abc"), Some(b"abc".to_vec()));
    assert_eq!(echo(b"/echoes/abc"), None);
    assert_eq!(echo(b"/Echo/abc"), None);
    assert_eq!(echo(b"//echo/abc"), None);
    assert_eq!(echo(b"/other"), None);
}

#[test]
fn a_path_without_a_slash_is_not_found() {
    assert_eq!(echo(b"echo"), None);
    assert_eq!(echo(b""), None);
    assert!(is_not_found(&route(b"echo", &Headers::new(), None)));
    assert!(is_not_found(&route(b"", &Headers::new(), None)));
}

#[test]
fn user_agent_echoes_the_header() {
    let outcome = route(b"/user-agent", &with_agent(b"test-client"), None);
    assert!(has_body(&outcome, b"text/plain", b"test-client"));
}

#[test]
fn user_agent_without_the_header_is_not_found() {
    assert!(is_not_found(&route(b"/user-agent", &Headers::new(), None)));
    let mut headers = Headers::new();
    headers.insert(b"User-Agent".to_vec(), b"x".to_vec());
    assert!(is_not_found(&route(b"/user-agent", &headers, None)));
}

#[test]
fn a_missing_file_is_not_found() {
    let directory = Directory::new();
    assert!(is_not_found(&route(b"/files/missing.txt", &Headers::new(), Some(&directory))));
}

#[test]
fn a_present_file_is_served_as_octet_stream() {
    let mut directory = Directory::new();
    directory.add(b"other.txt".to_vec(), b"no".to_vec());
    directory.add(b"present.txt".to_vec(), b"hello".to_vec());
    let outcome = route(b"/files/present.txt", &Headers::new(), Some(&directory));
    assert!(has_body(&outcome, b"application/octet-stream", b"hello"));
}

#[test]
fn without_a_directory_no_file_is_served() {
    assert!(is_not_found(&route(b"/files/present.txt", &Headers::new(), None)));
    assert!(is_not_found(&route(b"/files", &Headers::new(), None)));
}

#[test]
fn file_names_are_matched_exactly_and_not_taken_apart() {
    let mut directory = Directory::new();
    directory.add(b"a".to_vec(), b"1".to_vec());
    directory.add(b"b".to_vec(), b"2".to_vec());
    assert!(is_not_found(&route(b"/files/a/b", &Headers::new(), Some(&directory))));
    assert!(is_not_found(&route(b"/files/A", &Headers::new(), Some(&directory))));
    assert!(is_not_found(&route(b"/files/", &Headers::new(), Some(&directory))));
    assert!(is_not_found(&route(b"/files", &Headers::new(), Some(&directory))));
    assert!(is_not_found(&route(b"/filesa", &Headers::new(), Some(&directory))));
    assert!(has_body(
        &route(b"/files/b", &Headers::new(), Some(&directory)),
        b"application/octet-stream",
        b"2"
    ));
}

#[test]
fn the_first_entry_of_a_name_is_the_one_found() {
    let mut directory = Directory::new();
    directory.add(b"a".to_vec(), b"first".to_vec());
    directory.add(b"a".to_vec(), b"second".to_vec());
    assert_eq!(directory.find(b"a"), Some(&b"first"[..]));
    assert_eq!(directory.find(b"b"), None);
}

#[test]
fn the_requested_file_is_what_follows_the_prefix() {
    assert_eq!(file_name(b"/files/a.txt"), b"a.txt");
    assert_eq!(file_name(b"/files/a/b"), b"a/b");
    assert_eq!(file_name(b"/files/"), b"");
    assert_eq!(file_name(b"/files"), b"");
    assert_eq!(file_name(b"/filesx"), b"");
    assert_eq!(requested_file(b"/files/a.txt"), Some(b"a.txt".to_vec()));
    assert_eq!(requested_file(b"/filesx"), Some(Vec::new()));
    assert_eq!(requested_file(b"/"), None);
    assert_eq!(requested_file(b"/user-agent"), None);
    assert_eq!(requested_file(b"/echo/files"), None);
}

#[test]
fn anything_else_is_not_found() {
    assert!(is_not_found(&route(b"/nothing", &Headers::new(), None)));
    assert!(is_not_found(&route(b"/user-agent/", &with_agent(b"x"), None)));
    assert!(is_not_found(&route(b"//", &Headers::new(), None)));
}

#[test]
fn outcomes_are_built_as_named() {
    assert!(is_not_found(&Outcome::not_found()));
    let ok = Outcome::ok();
    assert_eq!(ok.status, StatusCode::OK);
    assert_eq!(ok.headers.len(), 0);
    assert_eq!(ok.body, None);
    assert!(has_body(&Outcome::with_body(b"text/plain", b"x".to_vec()), b"text/plain", b"x"));
}
