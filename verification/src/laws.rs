//! What holds of the parser, the router and the serializer on every input.
//! Each statement here is proved from the definitions that the contracts of
//! the executable functions use.

use crate::error::Error;
use crate::reader::{
    ends_line, first_line_is, lemma_line_len_is, lemma_line_len_none, lemma_line_len_of_text,
    line_len,
};
use crate::request::{
    content_length_name, lemma_line_text, line_text, spec_declared, spec_field, spec_head,
    spec_header_line, spec_parse, spec_start_line, HeadView, Method, RequestView,
};
use crate::response::{spec_body_part, spec_field_lines, spec_wire, StatusCode};
use crate::router::{
    spec_echo, spec_lookup, spec_not_found, spec_ok, spec_requested_file, spec_route,
    spec_with_body,
};
use crate::text::{
    ascii, lemma_decimal_round_trip, lemma_join_split, lemma_position_is, lemma_position_none,
    position, spec_decimal, spec_parse_decimal, spec_split, CR, LF, SLASH, SP,
};
use vstd::prelude::*;

verus! {

/// A byte string that can stand as one token of a start line: it holds no
/// space and no line feed.
pub open spec fn is_token(s: Seq<u8>) -> bool {
    forall|i: int| 0 <= i < s.len() ==> s[i] != SP && s[i] != LF
}

/// Method, path and version as a start line, without the terminator.
pub open spec fn start_line_text(method: Method, path: Seq<u8>, version: Seq<u8>) -> Seq<u8> {
    method.spec_token() + seq![SP] + path + seq![SP] + version
}

/// A method token is a token.
pub proof fn lemma_method_token(method: Method)
    ensures
        is_token(method.spec_token()),
        method.spec_token().len() > 0,
{
    reveal_strlit("GET");
    reveal_strlit("POST");
}

/// Three tokens with single spaces between them split into those three.
pub proof fn lemma_split_three(a: Seq<u8>, b: Seq<u8>, c: Seq<u8>)
    requires
        is_token(a),
        is_token(b),
        is_token(c),
    ensures
        spec_split(a + seq![SP] + b + seq![SP] + c, SP) == seq![a, b, c],
{
    let s = a + seq![SP] + b + seq![SP] + c;
    let t = b + seq![SP] + c;
    assert(s[a.len() as int] == SP);
    lemma_position_is(s, SP, a.len() as int);
    assert(s.take(a.len() as int) =~= a);
    assert(s.skip(a.len() as int + 1) =~= t);
    assert(t[b.len() as int] == SP);
    lemma_position_is(t, SP, b.len() as int);
    assert(t.take(b.len() as int) =~= b);
    assert(t.skip(b.len() as int + 1) =~= c);
    lemma_position_none(c, SP);
    assert(spec_split(c, SP) == seq![c]);
    assert(spec_split(t, SP) == seq![b] + spec_split(c, SP));
    assert(spec_split(s, SP) == seq![a] + spec_split(t, SP));
    assert(seq![a] + (seq![b] + seq![c]) =~= seq![a, b, c]);
}

/// A start line made of a supported method, a path and a version reads
/// back as exactly those three.
pub proof fn lemma_start_line(method: Method, path: Seq<u8>, version: Seq<u8>)
    requires
        is_token(path),
        is_token(version),
    ensures
        spec_start_line(start_line_text(method, path, version)) == Ok::<HeadView, Error>(
            HeadView { method, path, version, headers: Map::empty(), content_length: 0 },
        ),
{
    lemma_method_token(method);
    lemma_split_three(method.spec_token(), path, version);
    method.lemma_token_round_trip();
}

/// Header lines never change method, path or version.
pub proof fn lemma_head_keeps_start(input: Seq<u8>, head: HeadView)
    ensures
        spec_head(input, head) matches Ok((after, _)) ==> after.method == head.method
            && after.path == head.path && after.version == head.version,
    decreases input.len(),
{
    match line_len(input) {
        None => {},
        Some(n) => {
            if n != 2 {
                match spec_header_line(head, input.take(n - 2)) {
                    Ok(next) => {
                        lemma_head_keeps_start(input.skip(n), next);
                    },
                    Err(_) => {},
                }
            }
        },
    }
}

/// Whatever follows a well-formed start line, the request that is parsed
/// has the method, the path and the version of that line; and when the
/// parse fails, the start line is not the reason.
pub proof fn lemma_parse_start_line(
    method: Method,
    path: Seq<u8>,
    version: Seq<u8>,
    tail: Seq<u8>,
)
    requires
        is_token(path),
        is_token(version),
    ensures
        match spec_parse(start_line_text(method, path, version) + seq![CR, LF] + tail) {
            Ok((request, _)) => request.method == method && request.path == path
                && request.version == version,
            Err(e) => e != Error::MalformedStartLine && e != Error::UnsupportedMethod,
        },
{
    let text = start_line_text(method, path, version);
    lemma_method_token(method);
    lemma_line_len_of_text(text, tail);
    lemma_start_line(method, path, version);
    let start = HeadView { method, path, version, headers: Map::empty(), content_length: 0 };
    lemma_head_keeps_start(tail, start);
    lemma_head_errors(tail, start);
}

/// Reading header lines fails only for want of input or for a
/// `content-length` that is no length.
pub proof fn lemma_head_errors(input: Seq<u8>, head: HeadView)
    ensures
        spec_head(input, head) matches Err(e) ==> e == Error::UnexpectedEof || e
            == Error::BadContentLength,
    decreases input.len(),
{
    match line_len(input) {
        None => {},
        Some(n) => {
            if n != 2 {
                match spec_header_line(head, input.take(n - 2)) {
                    Ok(next) => {
                        lemma_head_errors(input.skip(n), next);
                    },
                    Err(_) => {},
                }
            }
        },
    }
}

/// A start line followed by the empty line is a whole request, without
/// header fields and without a body.
pub proof fn lemma_parse_bare_request(
    method: Method,
    path: Seq<u8>,
    version: Seq<u8>,
    rest: Seq<u8>,
)
    requires
        is_token(path),
        is_token(version),
    ensures
        spec_parse(start_line_text(method, path, version) + seq![CR, LF] + seq![CR, LF] + rest)
            == Ok::<(RequestView, Seq<u8>), Error>(
            (
                RequestView {
                    method,
                    path,
                    version,
                    headers: Map::empty(),
                    body: Seq::empty(),
                },
                rest,
            ),
        ),
{
    let text = start_line_text(method, path, version);
    let tail = seq![CR, LF] + rest;
    let input = text + seq![CR, LF] + seq![CR, LF] + rest;
    assert(input =~= text + seq![CR, LF] + tail);
    lemma_method_token(method);
    lemma_line_len_of_text(text, tail);
    lemma_start_line(method, path, version);
    lemma_line_len_of_text(Seq::empty(), rest);
    assert(Seq::<u8>::empty() + seq![CR, LF] + rest =~= tail);
    assert(rest.take(0) =~= Seq::<u8>::empty());
    assert(rest.skip(0) =~= rest);
}

/// A byte string that can stand as a header line: not empty, and without a
/// line feed.
pub open spec fn is_header_text(text: Seq<u8>) -> bool {
    text.len() > 0 && forall|i: int| 0 <= i < text.len() ==> text[i] != LF
}

/// The lines, each with its terminator, and then the empty line.
pub open spec fn header_block(lines: Seq<Seq<u8>>) -> Seq<u8>
    decreases lines.len(),
{
    if lines.len() == 0 {
        seq![CR, LF]
    } else {
        lines[0] + seq![CR, LF] + header_block(lines.drop_first())
    }
}

/// The line holds a field of that name.
pub open spec fn names_field(text: Seq<u8>, name: Seq<u8>) -> bool {
    spec_field(text) matches Some((n, _)) && n == name
}

/// No line after line `i` holds a field of that name.
pub open spec fn later_silent(lines: Seq<Seq<u8>>, i: int, name: Seq<u8>) -> bool {
    forall|j: int| 0 <= j && i < j < lines.len() ==> !names_field(#[trigger] lines[j], name)
}

/// Silence after line `i` is silence after the line before it once the first
/// line is dropped.
pub proof fn lemma_later_silent_tail(lines: Seq<Seq<u8>>, i: int, name: Seq<u8>)
    requires
        lines.len() > 0,
        -1 <= i,
        later_silent(lines, i, name),
    ensures
        later_silent(lines.drop_first(), if i <= 0 { -1 } else { i - 1 }, name),
{
    let tail = lines.drop_first();
    let from = if i <= 0 { -1 } else { i - 1 };
    assert forall|j: int| 0 <= j && from < j < tail.len() implies !names_field(#[trigger] tail[j], name) by {
        assert(tail[j] == lines[j + 1]);
    }
}

/// The field of line `i`, if it holds one, is in `headers`: its name is a
/// key, and its value is what the key maps to unless a later line holds a
/// field of the same name.
pub open spec fn field_recorded(
    lines: Seq<Seq<u8>>,
    i: int,
    headers: Map<Seq<u8>, Seq<u8>>,
) -> bool {
    spec_field(lines[i]) matches Some((name, value)) ==> headers.contains_key(name) && (
    later_silent(lines, i, name) ==> headers[name] == value)
}

/// A line that holds a `content-length` field gives it a value that is a
/// length.
pub open spec fn declares_well(text: Seq<u8>) -> bool {
    spec_field(text) matches Some((name, value)) ==> name == content_length_name()
        ==> spec_declared(value).is_some()
}

/// Reading a block of header lines that ends with the empty line:
/// it succeeds exactly when every `content-length` line declares a length,
/// and fails with `BadContentLength` otherwise;
/// it stops directly behind the empty line;
/// the fields then hold an entry for every line with a colon, under the
/// lower-case name and with the trimmed value, the last line of a name
/// deciding; and entries that were there before stay unless a line names
/// them.
pub proof fn lemma_header_block(lines: Seq<Seq<u8>>, rest: Seq<u8>, head: HeadView)
    requires
        forall|i: int| 0 <= i < lines.len() ==> is_header_text(#[trigger] lines[i]),
    ensures
        match spec_head(header_block(lines) + rest, head) {
            Ok((after, left)) => {
                &&& left == rest
                &&& forall|i: int| 0 <= i < lines.len() ==> declares_well(#[trigger] lines[i])
                &&& forall|i: int|
                    0 <= i < lines.len() ==> #[trigger] field_recorded(lines, i, after.headers)
                &&& forall|name: Seq<u8>| #[trigger]
                    head.headers.contains_key(name) ==> after.headers.contains_key(name) && (
                    later_silent(lines, -1, name) ==> after.headers[name] == head.headers[name])
            },
            Err(e) => {
                &&& e == Error::BadContentLength
                &&& exists|i: int| 0 <= i < lines.len() && !declares_well(#[trigger] lines[i])
            },
        },
    decreases lines.len(),
{
    let input = header_block(lines) + rest;
    if lines.len() == 0 {
        assert(input =~= Seq::<u8>::empty() + seq![CR, LF] + rest);
        lemma_line_len_of_text(Seq::empty(), rest);
        assert(input.skip(2) =~= rest);
    } else {
        let first = lines[0];
        let tail = lines.drop_first();
        let after_first = header_block(tail) + rest;
        assert(is_header_text(lines[0]));
        assert(input =~= first + seq![CR, LF] + after_first);
        lemma_line_len_of_text(first, after_first);
        assert forall|i: int| 0 <= i < tail.len() implies is_header_text(#[trigger] tail[i]) by {
            assert(tail[i] == lines[i + 1]);
        }
        match spec_header_line(head, first) {
            Err(e) => {
                assert(!declares_well(lines[0]));
            },
            Ok(next) => {
                lemma_header_block(tail, rest, next);
                match spec_head(after_first, next) {
                    Err(e) => {
                        let i = choose|i: int| 0 <= i < tail.len() && !declares_well(#[trigger] tail[i]);
                        assert(tail[i] == lines[i + 1]);
                        assert(!declares_well(lines[i + 1]));
                    },
                    Ok((after, left)) => {
                        assert forall|i: int| 0 <= i < lines.len() implies declares_well(
                            #[trigger] lines[i],
                        ) by {
                            if i > 0 {
                                assert(tail[i - 1] == lines[i]);
                            }
                        }
                        assert forall|i: int| 0 <= i < lines.len() implies #[trigger] field_recorded(
                            lines,
                            i,
                            after.headers,
                        ) by {
                            if i > 0 {
                                assert(tail[i - 1] == lines[i]);
                                assert(field_recorded(tail, i - 1, after.headers));
                                if spec_field(lines[i]).is_some() {
                                    let name = spec_field(lines[i]).unwrap().0;
                                    if later_silent(lines, i, name) {
                                        lemma_later_silent_tail(lines, i, name);
                                    }
                                }
                            } else {
                                if spec_field(first).is_some() {
                                    let name = spec_field(first).unwrap().0;
                                    assert(next.headers.contains_key(name));
                                    if later_silent(lines, 0, name) {
                                        lemma_later_silent_tail(lines, 0, name);
                                    }
                                }
                            }
                        }
                        assert forall|name: Seq<u8>| #[trigger]
                            head.headers.contains_key(name) implies after.headers.contains_key(name)
                            && (later_silent(lines, -1, name) ==> after.headers[name]
                            == head.headers[name]) by {
                            assert(next.headers.contains_key(name));
                            if later_silent(lines, -1, name) {
                                assert(!names_field(lines[0], name));
                                lemma_later_silent_tail(lines, -1, name);
                                assert(next.headers[name] == head.headers[name]);
                            }
                        }
                    },
                }
            },
        }
    }
}

/// The body length that a set of header fields declares: the value of
/// `content-length` where that is a length, zero otherwise.
pub open spec fn declared_length(headers: Map<Seq<u8>, Seq<u8>>) -> nat {
    if headers.contains_key(content_length_name()) {
        match spec_declared(headers[content_length_name()]) {
            Some(n) => n,
            None => 0,
        }
    } else {
        0
    }
}

/// Header lines keep the declared length in step with the fields.
pub proof fn lemma_head_length(input: Seq<u8>, head: HeadView)
    requires
        head.content_length == declared_length(head.headers),
    ensures
        spec_head(input, head) matches Ok((after, _)) ==> after.content_length == declared_length(
            after.headers,
        ),
    decreases input.len(),
{
    match line_len(input) {
        None => {},
        Some(n) => {
            if n != 2 {
                match spec_header_line(head, input.take(n - 2)) {
                    Ok(next) => {
                        lemma_head_length(input.skip(n), next);
                    },
                    Err(_) => {},
                }
            }
        },
    }
}

/// The body of a parsed request is exactly as long as its `content-length`
/// header says, and empty without that header.
pub proof fn lemma_body_length(input: Seq<u8>)
    ensures
        spec_parse(input) matches Ok((request, _)) ==> request.body.len() == declared_length(
            request.headers,
        ),
{
    match line_len(input) {
        None => {},
        Some(n) => {
            match spec_start_line(input.take(n - 2)) {
                Ok(start) => {
                    assert(!start.headers.contains_key(content_length_name()));
                    lemma_head_length(input.skip(n), start);
                },
                Err(_) => {},
            }
        },
    }
}

/// The first line of a prefix: the first line of the whole where the prefix
/// holds all of it, none where it does not.
pub proof fn lemma_line_len_prefix(s: Seq<u8>, k: int)
    requires
        0 <= k <= s.len(),
    ensures
        match line_len(s) {
            Some(n) => line_len(s.take(k)) == if n <= k {
                Some(n)
            } else {
                None
            },
            None => line_len(s.take(k)).is_none(),
        },
{
    let p = s.take(k);
    assert forall|m: int| #[trigger] ends_line(p, m) implies ends_line(s, m) by {
        assert(p[m - 2] == s[m - 2]);
        assert(p[m - 1] == s[m - 1]);
    }
    match line_len(s) {
        Some(n) => {
            assert(first_line_is(s, n));
            if n <= k {
                assert(p[n - 2] == s[n - 2]);
                assert(p[n - 1] == s[n - 1]);
                assert(first_line_is(p, n));
                lemma_line_len_is(p, n);
            } else {
                assert forall|m: int| !#[trigger] ends_line(p, m) by {
                    if ends_line(p, m) {
                        assert(ends_line(s, m));
                        assert(m < n);
                    }
                }
                lemma_line_len_none(p);
            }
        },
        None => {
            assert forall|m: int| !#[trigger] ends_line(p, m) by {
                if ends_line(p, m) {
                    assert(ends_line(s, m));
                    lemma_some_line(s, m);
                }
            }
            lemma_line_len_none(p);
        },
    }
}

/// Where some prefix ends with a terminator there is a first line.
pub proof fn lemma_some_line(s: Seq<u8>, m: int)
    requires
        ends_line(s, m),
    ensures
        line_len(s).is_some(),
    decreases m,
{
    if forall|k: int| 2 <= k < m ==> !#[trigger] ends_line(s, k) {
        assert(first_line_is(s, m));
    } else {
        let k = choose|k: int| 2 <= k < m && #[trigger] ends_line(s, k);
        lemma_some_line(s, k);
    }
}

/// What is left behind the header lines is the end of the input.
pub proof fn lemma_head_rest(input: Seq<u8>, head: HeadView)
    ensures
        spec_head(input, head) matches Ok((_, rest)) ==> rest.len() + 2 <= input.len() && rest
            == input.skip(input.len() - rest.len()),
    decreases input.len(),
{
    match line_len(input) {
        None => {},
        Some(n) => {
            if n != 2 {
                match spec_header_line(head, input.take(n - 2)) {
                    Ok(next) => {
                        let tail = input.skip(n);
                        lemma_head_rest(tail, next);
                        match spec_head(tail, next) {
                            Ok((_, rest)) => {
                                assert(tail.skip(tail.len() - rest.len()) =~= input.skip(
                                    input.len() - rest.len(),
                                ));
                            },
                            Err(_) => {},
                        }
                    },
                    Err(_) => {},
                }
            }
        },
    }
}

/// Header lines read from a prefix of the input: the same head where the
/// prefix reaches past the empty line, and a premature end where it stops
/// short of it.
pub proof fn lemma_head_prefix(input: Seq<u8>, head: HeadView, k: int)
    requires
        0 <= k <= input.len(),
        spec_head(input, head).is_ok(),
    ensures
        ({
            let (after, rest) = spec_head(input, head).unwrap();
            let used = input.len() - rest.len();
            spec_head(input.take(k), head) == if used <= k {
                Ok::<(HeadView, Seq<u8>), Error>((after, rest.take(k - used)))
            } else {
                Err::<(HeadView, Seq<u8>), Error>(Error::UnexpectedEof)
            }
        }),
    decreases input.len(),
{
    let p = input.take(k);
    lemma_line_len_prefix(input, k);
    lemma_head_rest(input, head);
    let n = line_len(input).unwrap();
    assert(first_line_is(input, n));
    if n <= k {
        assert(p.take(n - 2) =~= input.take(n - 2));
        if n == 2 {
            assert(p.skip(2) =~= input.skip(2).take(k - 2));
        } else {
            let next = spec_header_line(head, input.take(n - 2)).unwrap();
            let tail = input.skip(n);
            assert(p.skip(n) =~= tail.take(k - n));
            lemma_head_prefix(tail, next, k - n);
            lemma_head_rest(tail, next);
        }
    } else {
        if n != 2 {
            let next = spec_header_line(head, input.take(n - 2)).unwrap();
            lemma_head_rest(input.skip(n), next);
        }
    }
}

/// A request that is cut short never parses: where the input holds a whole
/// request, every prefix that ends before the end of that request fails
/// with `UnexpectedEof`. In particular a body shorter than the declared
/// `content-length` is never handed out.
pub proof fn lemma_truncated_request_fails(input: Seq<u8>, k: int)
    requires
        spec_parse(input).is_ok(),
        0 <= k < input.len() - spec_parse(input).unwrap().1.len(),
    ensures
        spec_parse(input.take(k)) == Err::<(RequestView, Seq<u8>), Error>(Error::UnexpectedEof),
{
    let p = input.take(k);
    lemma_line_len_prefix(input, k);
    let n = line_len(input).unwrap();
    assert(first_line_is(input, n));
    if n <= k {
        assert(p.take(n - 2) =~= input.take(n - 2));
        let start = spec_start_line(input.take(n - 2)).unwrap();
        let tail = input.skip(n);
        assert(p.skip(n) =~= tail.take(k - n));
        lemma_head_prefix(tail, start, k - n);
        lemma_head_rest(tail, start);
    }
}

/// A parsed request and what follows it lie side by side at the end of the
/// input: no byte between body and rest is dropped.
pub proof fn lemma_body_then_rest(input: Seq<u8>)
    ensures
        spec_parse(input) matches Ok((request, rest)) ==> request.body.len() + rest.len()
            <= input.len() && input.skip(input.len() - request.body.len() - rest.len())
            == request.body + rest,
{
    match line_len(input) {
        None => {},
        Some(n) => {
            assert(first_line_is(input, n));
            match spec_start_line(input.take(n - 2)) {
                Ok(start) => {
                    let tail = input.skip(n);
                    lemma_head_rest(tail, start);
                    match spec_head(tail, start) {
                        Ok((head, left)) => {
                            if head.content_length <= left.len() {
                                let body = left.take(head.content_length as int);
                                let rest = left.skip(head.content_length as int);
                                assert(body + rest =~= left);
                                assert(tail.skip(tail.len() - left.len()) =~= input.skip(
                                    input.len() - left.len(),
                                ));
                            }
                        },
                        Err(_) => {},
                    }
                },
                Err(_) => {},
            }
        },
    }
}

/// The root path is answered with an empty 200, whatever header fields
/// came with it and whatever directory is configured.
pub proof fn lemma_root(headers: Map<Seq<u8>, Seq<u8>>, directory: Option<Seq<(Seq<u8>, Seq<u8>)>>)
    ensures
        spec_route(ascii("/"@), headers, directory) == spec_ok(),
{
}

/// `/user-agent` echoes the `user-agent` header where there is one, and is
/// not found where there is none.
pub proof fn lemma_user_agent(
    headers: Map<Seq<u8>, Seq<u8>>,
    directory: Option<Seq<(Seq<u8>, Seq<u8>)>>,
)
    ensures
        spec_route(ascii("/user-agent"@), headers, directory) == if headers.contains_key(
            ascii("user-agent"@),
        ) {
            spec_with_body(ascii("text/plain"@), headers[ascii("user-agent"@)])
        } else {
            spec_not_found()
        },
{
    reveal_strlit("/");
    reveal_strlit("/user-agent");
    assert(ascii("/user-agent"@).len() != ascii("/"@).len());
}

/// What follows `/echo/` is echoed as it stands, slashes included.
pub proof fn lemma_echo(
    text: Seq<u8>,
    headers: Map<Seq<u8>, Seq<u8>>,
    directory: Option<Seq<(Seq<u8>, Seq<u8>)>>,
)
    ensures
        spec_echo(ascii("/echo/"@) + text) == Some(text),
        spec_route(ascii("/echo/"@) + text, headers, directory) == spec_with_body(
            ascii("text/plain"@),
            text,
        ),
{
    reveal_strlit("/");
    reveal_strlit("/user-agent");
    reveal_strlit("/files");
    reveal_strlit("/echo/");
    reveal_strlit("echo");
    let path = ascii("/echo/"@) + text;
    let after = path.skip(1);
    assert(path[0] == SLASH);
    lemma_position_is(path, SLASH, 0);
    assert(after[4] == SLASH);
    lemma_position_is(after, SLASH, 4);
    assert(after.take(4) =~= ascii("echo"@));
    assert(after.skip(5) =~= text);
    let segments = spec_split(path, SLASH);
    let inner = spec_split(after, SLASH);
    assert(inner == seq![after.take(4)] + spec_split(text, SLASH));
    assert(segments == seq![path.take(0)] + inner);
    assert(segments[1] == ascii("echo"@));
    assert(segments.skip(2) =~= spec_split(text, SLASH));
    lemma_join_split(text, SLASH);
    assert(path[1] != ascii("/user-agent"@)[1]);
    assert(path != ascii("/user-agent"@));
    assert(path.len() != ascii("/"@).len());
    if ascii("/files"@).is_prefix_of(path) {
        assert(path.take(6)[1] == ascii("/files"@)[1]);
    }
}

/// `/echo` alone echoes the empty text.
pub proof fn lemma_echo_nothing()
    ensures
        spec_echo(ascii("/echo"@)) == Some(Seq::<u8>::empty()),
{
    reveal_strlit("/echo");
    reveal_strlit("echo");
    let path = ascii("/echo"@);
    let after = path.skip(1);
    lemma_position_is(path, SLASH, 0);
    assert(after =~= ascii("echo"@));
    lemma_position_none(after, SLASH);
    let segments = spec_split(path, SLASH);
    assert(spec_split(after, SLASH) == seq![after]);
    assert(segments == seq![path.take(0)] + spec_split(after, SLASH));
    assert(segments.skip(2) =~= Seq::<Seq<u8>>::empty());
}

/// A path without a slash echoes nothing: it is not found.
pub proof fn lemma_no_slash_no_echo(path: Seq<u8>)
    requires
        position(path, SLASH).is_none(),
    ensures
        spec_echo(path).is_none(),
{
}

/// `/files/` and a name are answered with the contents of the entry of
/// exactly that name, and are not found without a directory or without
/// such an entry. The name is not taken apart at slashes.
pub proof fn lemma_files(
    name: Seq<u8>,
    headers: Map<Seq<u8>, Seq<u8>>,
    directory: Option<Seq<(Seq<u8>, Seq<u8>)>>,
)
    ensures
        spec_requested_file(ascii("/files/"@) + name) == Some(name),
        spec_route(ascii("/files/"@) + name, headers, directory) == match directory {
            Some(files) => match spec_lookup(files, name) {
                Some(contents) => spec_with_body(ascii("application/octet-stream"@), contents),
                None => spec_not_found(),
            },
            None => spec_not_found(),
        },
{
    reveal_strlit("/");
    reveal_strlit("/user-agent");
    reveal_strlit("/files");
    reveal_strlit("/files/");
    let path = ascii("/files/"@) + name;
    assert(path.take(7) =~= ascii("/files/"@));
    assert(path.take(6) =~= ascii("/files"@));
    assert(path.skip(7) =~= name);
    assert(path[1] != ascii("/user-agent"@)[1]);
    assert(path != ascii("/user-agent"@));
    assert(path.len() != ascii("/"@).len());
}

/// The first line of a response in wire form is its status line, whatever
/// header fields and body follow.
pub proof fn lemma_wire_status_line(
    status: StatusCode,
    fields: Seq<(Seq<u8>, Seq<u8>)>,
    body: Option<Seq<u8>>,
)
    ensures
        ({
            let wire = spec_wire(status, fields, body);
            let text = ascii("HTTP/1.1 "@) + ascii(status.spec_to_string());
            &&& line_len(wire) == Some(text.len() as int + 2)
            &&& line_text(wire.take(text.len() as int + 2)) == text
        }),
{
    reveal_strlit("HTTP/1.1 ");
    reveal_strlit("200 OK");
    reveal_strlit("404 Not Found");
    let text = ascii("HTTP/1.1 "@) + ascii(status.spec_to_string());
    let rest = spec_field_lines(fields) + spec_body_part(body);
    let wire = spec_wire(status, fields, body);
    assert(wire =~= text + seq![CR, LF] + rest);
    assert forall|i: int| 0 <= i < text.len() implies text[i] != LF by {
        if i < 9 {
            assert(text[i] == ascii("HTTP/1.1 "@)[i]);
        } else {
            assert(text[i] == ascii(status.spec_to_string())[i - 9]);
        }
    }
    lemma_line_len_of_text(text, rest);
    lemma_line_text(wire, text.len() as int + 2);
}

/// The wire form of a response with a body declares the body's length in a
/// `content-length` line that reads back as that length, and ends with the
/// body itself.
pub proof fn lemma_wire_body(
    status: StatusCode,
    fields: Seq<(Seq<u8>, Seq<u8>)>,
    body: Seq<u8>,
)
    ensures
        ({
            let wire = spec_wire(status, fields, Some(body));
            &&& wire.len() >= body.len()
            &&& wire.skip(wire.len() - body.len()) == body
            &&& spec_parse_decimal(spec_decimal(body.len())) == Some(body.len())
        }),
{
    let wire = spec_wire(status, fields, Some(body));
    assert(wire.skip(wire.len() - body.len()) =~= body);
    lemma_decimal_round_trip(body.len());
}

} // verus!
