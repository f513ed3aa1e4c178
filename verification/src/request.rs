//! Requests and the parser that reads them.
//!
//! A request is a start line, header lines up to an empty line, and a body
//! whose length the `content-length` header declares. The parser is written
//! twice over the same steps: [`Head`] takes one line at a time, for a caller
//! that reads from a socket; [`Request::new`] runs those steps over a
//! [`Reader`].

use crate::error::Error;
use crate::headers::Headers;
use crate::reader::{ends_line, line_len, Reader};
use crate::text::{
    ascii, equal, find, lemma_position_facts, literal, lowercase, parse_decimal, position,
    spec_lowercase, spec_parse_decimal, spec_split, spec_trim, split, trim, COLON, CR, LF, SP,
};
use vstd::prelude::*;
use vstd::slice::slice_subrange;
use vstd::utf8::{decode_utf8, valid_utf8};

verus! {

/// The request methods that the server accepts.
#[derive(Clone, Copy, Debug, PartialEq, Eq, Structural)]
pub enum Method {
    GET,
    POST,
}

impl Method {
    /// The method as it is written in a start line.
    pub open spec fn spec_token(self) -> Seq<u8> {
        match self {
            Method::GET => ascii("GET"@),
            Method::POST => ascii("POST"@),
        }
    }

    /// The method that a token names, if it names one.
    pub open spec fn spec_from(token: Seq<u8>) -> Option<Method> {
        if token == ascii("GET"@) {
            Some(Method::GET)
        } else if token == ascii("POST"@) {
            Some(Method::POST)
        } else {
            None
        }
    }

    /// Every method is named by its own token.
    pub proof fn lemma_token_round_trip(self)
        ensures
            Method::spec_from(self.spec_token()) == Some(self),
    {
        reveal_strlit("GET");
        reveal_strlit("POST");
        assert(ascii("GET"@).len() != ascii("POST"@).len());
    }

    /// Reads a method token. Tokens are case-sensitive.
    pub fn from(token: &[u8]) -> (method: Option<Method>)
        ensures
            method == Method::spec_from(token@),
    {
        proof {
            reveal_strlit("GET");
            reveal_strlit("POST");
        }
        if equal(token, literal("GET")) {
            Some(Method::GET)
        } else if equal(token, literal("POST")) {
            Some(Method::POST)
        } else {
            None
        }
    }

    /// The method as it is written in a start line.
    pub fn token(&self) -> (token: &'static [u8])
        ensures
            token@ == self.spec_token(),
    {
        proof {
            reveal_strlit("GET");
            reveal_strlit("POST");
        }
        match self {
            Method::GET => literal("GET"),
            Method::POST => literal("POST"),
        }
    }
}

/// The name of the header that declares the body's length.
pub open spec fn content_length_name() -> Seq<u8> {
    ascii("content-length"@)
}

/// What is known of a request once some of its head has been read.
pub struct HeadView {
    pub method: Method,
    pub path: Seq<u8>,
    pub version: Seq<u8>,
    pub headers: Map<Seq<u8>, Seq<u8>>,
    pub content_length: nat,
}

/// A request.
pub struct RequestView {
    pub method: Method,
    pub path: Seq<u8>,
    pub version: Seq<u8>,
    pub headers: Map<Seq<u8>, Seq<u8>>,
    pub body: Seq<u8>,
}

/// A line without its terminator.
pub open spec fn line_text(line: Seq<u8>) -> Seq<u8> {
    if ends_line(line, line.len() as int) {
        line.take(line.len() - 2)
    } else {
        line
    }
}

/// The start line: method, path and version, separated by single spaces.
/// Tokens after the third are ignored.
pub open spec fn spec_start_line(text: Seq<u8>) -> Result<HeadView, Error> {
    let tokens = spec_split(text, SP);
    if tokens.len() < 3 {
        Err(Error::MalformedStartLine)
    } else {
        match Method::spec_from(tokens[0]) {
            Some(method) => Ok(
                HeadView {
                    method,
                    path: tokens[1],
                    version: tokens[2],
                    headers: Map::empty(),
                    content_length: 0,
                },
            ),
            None => Err(Error::UnsupportedMethod),
        }
    }
}

/// The field that a header line holds: the name is what stands before the
/// first colon, in lower case; the value is what follows it, trimmed. A line
/// without a colon holds no field.
pub open spec fn spec_field(text: Seq<u8>) -> Option<(Seq<u8>, Seq<u8>)> {
    match position(text, COLON) {
        Some(i) => Some((spec_lowercase(text.take(i)), spec_trim(text.skip(i + 1)))),
        None => None,
    }
}

/// The body length that a `content-length` value declares.
pub open spec fn spec_declared(value: Seq<u8>) -> Option<nat> {
    match spec_parse_decimal(value) {
        Some(n) => if n <= usize::MAX {
            Some(n)
        } else {
            None
        },
        None => None,
    }
}

/// The head after one more header line. A line without a colon changes
/// nothing. A field is recorded under its name, replacing an earlier one; a
/// `content-length` field also sets the declared body length, and is an
/// error when its value is no length.
pub open spec fn spec_header_line(head: HeadView, text: Seq<u8>) -> Result<HeadView, Error> {
    match spec_field(text) {
        None => Ok(head),
        Some((name, value)) => {
            let headers = head.headers.insert(name, value);
            if name == content_length_name() {
                match spec_declared(value) {
                    Some(n) => Ok(HeadView { headers, content_length: n, ..head }),
                    None => Err(Error::BadContentLength),
                }
            } else {
                Ok(HeadView { headers, ..head })
            }
        },
    }
}

/// The header lines of `input` applied to `head` one after another, up to
/// the empty line; with the head, what follows that line.
pub open spec fn spec_head(input: Seq<u8>, head: HeadView) -> Result<(HeadView, Seq<u8>), Error>
    decreases input.len(),
{
    match line_len(input) {
        None => Err(Error::UnexpectedEof),
        Some(n) => if n == 2 {
            Ok((head, input.skip(2)))
        } else {
            match spec_header_line(head, input.take(n - 2)) {
                Ok(next) => spec_head(input.skip(n), next),
                Err(e) => Err(e),
            }
        },
    }
}

/// The request with which `input` begins, and the input that follows it.
pub open spec fn spec_parse(input: Seq<u8>) -> Result<(RequestView, Seq<u8>), Error> {
    match line_len(input) {
        None => Err(Error::UnexpectedEof),
        Some(n) => match spec_start_line(input.take(n - 2)) {
            Err(e) => Err(e),
            Ok(start) => match spec_head(input.skip(n), start) {
                Err(e) => Err(e),
                Ok((head, rest)) => if head.content_length <= rest.len() {
                    Ok(
                        (
                            RequestView {
                                method: head.method,
                                path: head.path,
                                version: head.version,
                                headers: head.headers,
                                body: rest.take(head.content_length as int),
                            },
                            rest.skip(head.content_length as int),
                        ),
                    )
                } else {
                    Err(Error::UnexpectedEof)
                },
            },
        },
    }
}

/// A line that the reader hands out ends with its terminator, and is the
/// empty line exactly when it is two bytes long.
pub proof fn lemma_line_text(input: Seq<u8>, n: int)
    requires
        line_len(input) == Some(n),
    ensures
        2 <= n <= input.len(),
        line_text(input.take(n)) == input.take(n - 2),
        (input.take(n) == seq![CR, LF]) <==> n == 2,
{
    let line = input.take(n);
    assert(ends_line(input, n));
    assert(line[n - 2] == input[n - 2]);
    assert(line[n - 1] == input[n - 1]);
    assert(ends_line(line, n));
    assert(line.take(n - 2) =~= input.take(n - 2));
    if n == 2 {
        assert(line =~= seq![CR, LF]);
    }
}

/// The text that a byte string decodes to as UTF-8 when every malformed
/// sequence in it is replaced by the replacement character U+FFFD.
pub uninterp spec fn utf8_lossy(bytes: Seq<u8>) -> Seq<char>;

/// Calls `String::from_utf8_lossy` and takes the text as an owned string.
/// Trusted: the text depends on the bytes alone, and bytes that are valid
/// UTF-8 decode to the text they encode.
#[verifier::external_body]
fn decode_lossy(bytes: &[u8]) -> (text: String)
    ensures
        text@ == utf8_lossy(bytes@),
        valid_utf8(bytes@) ==> text@ == decode_utf8(bytes@),
{
    String::from_utf8_lossy(bytes).into_owned()
}

/// Whether a line is the empty line that ends the head.
pub fn is_blank(line: &[u8]) -> (blank: bool)
    ensures
        blank == (line@ == seq![CR, LF]),
{
    if line.len() == 2 && line[0] == CR && line[1] == LF {
        assert(line@ =~= seq![CR, LF]);
        true
    } else {
        false
    }
}

/// A line without its terminator.
pub fn text_of(line: &[u8]) -> (text: &[u8])
    ensures
        text@ == line_text(line@),
{
    let n: usize = line.len();
    if n >= 2 && line[n - 2] == CR && line[n - 1] == LF {
        slice_subrange(line, 0, n - 2)
    } else {
        line
    }
}

/// The head of a request while it is being read.
#[derive(Debug)]
pub struct Head {
    method: Method,
    path: Vec<u8>,
    version: Vec<u8>,
    headers: Headers,
    content_length: usize,
}

impl View for Head {
    type V = HeadView;

    closed spec fn view(&self) -> HeadView {
        HeadView {
            method: self.method,
            path: self.path@,
            version: self.version@,
            headers: self.headers@,
            content_length: self.content_length as nat,
        }
    }
}

impl Head {
    /// Begins a request with its start line.
    pub fn new(line: &[u8]) -> (head: Result<Head, Error>)
        ensures
            match spec_start_line(line_text(line@)) {
                Ok(view) => head matches Ok(h) && h@ == view,
                Err(e) => head matches Err(f) && f == e,
            },
    {
        let mut tokens = split(text_of(line), SP);
        if tokens.len() < 3 {
            return Err(Error::MalformedStartLine);
        }
        match Method::from(tokens[0].as_slice()) {
            Some(method) => {
                let version = tokens.remove(2);
                let path = tokens.remove(1);
                Ok(Head { method, path, version, headers: Headers::new(), content_length: 0 })
            },
            None => Err(Error::UnsupportedMethod),
        }
    }

    /// Takes one header line. On an error the head is left as it was.
    pub fn header_line(&mut self, line: &[u8]) -> (taken: Result<(), Error>)
        ensures
            match spec_header_line(old(self)@, line_text(line@)) {
                Ok(view) => taken is Ok && final(self)@ == view,
                Err(e) => taken == Err::<(), Error>(e) && final(self)@ == old(self)@,
            },
    {
        let text = text_of(line);
        match find(text, COLON) {
            None => Ok(()),
            Some(i) => {
                proof {
                    lemma_position_facts(text@, COLON);
                }
                let end: usize = text.len();
                let name = lowercase(slice_subrange(text, 0, i));
                let value = trim(slice_subrange(text, i + 1, end));
                proof {
                    reveal_strlit("content-length");
                }
                if equal(name.as_slice(), literal("content-length")) {
                    match parse_decimal(value.as_slice()) {
                        Some(n) => {
                            self.content_length = n;
                        },
                        None => {
                            return Err(Error::BadContentLength);
                        },
                    }
                }
                self.headers.insert(name, value);
                Ok(())
            },
        }
    }

    /// The body length declared so far; zero when none was declared.
    pub fn content_length(&self) -> (n: usize)
        ensures
            n == self@.content_length,
    {
        self.content_length
    }

    /// Completes the request with its body.
    pub fn finish(self, body: Vec<u8>) -> (request: Request)
        requires
            body@.len() == self@.content_length,
        ensures
            request@ == (RequestView {
                method: self@.method,
                path: self@.path,
                version: self@.version,
                headers: self@.headers,
                body: body@,
            }),
    {
        Request {
            method: self.method,
            path: self.path,
            version: self.version,
            headers: self.headers,
            body,
        }
    }
}

/// A parsed request. It does not change once it is built.
#[derive(Debug)]
pub struct Request {
    method: Method,
    path: Vec<u8>,
    version: Vec<u8>,
    headers: Headers,
    body: Vec<u8>,
}

impl View for Request {
    type V = RequestView;

    closed spec fn view(&self) -> RequestView {
        RequestView {
            method: self.method,
            path: self.path@,
            version: self.version@,
            headers: self.headers@,
            body: self.body@,
        }
    }
}

impl Request {
    /// Reads one request from `reader`: the start line, the header lines
    /// up to the empty line, and as many body bytes as the head declares.
    /// On success the reader stands directly behind the request.
    #[verifier::loop_isolation(false)]
    pub fn new(reader: &mut Reader) -> (request: Result<Request, Error>)
        ensures
            match spec_parse(old(reader).remaining()) {
                Ok((view, rest)) => {
                    &&& request matches Ok(r)
                    &&& r@ == view
                    &&& final(reader).remaining() == rest
                },
                Err(e) => request matches Err(f) && f == e,
            },
    {
        let ghost input = reader.remaining();
        let line = match reader.read_line() {
            Ok(line) => line,
            Err(e) => {
                return Err(e);
            },
        };
        proof {
            lemma_line_text(input, line@.len() as int);
        }
        let mut head = match Head::new(line.as_slice()) {
            Ok(head) => head,
            Err(e) => {
                return Err(e);
            },
        };
        let ghost start = head@;
        let ghost after_start = reader.remaining();
        let mut done = false;
        while !done
            invariant
                !done ==> spec_head(after_start, start) == spec_head(reader.remaining(), head@),
                done ==> spec_head(after_start, start) == Ok::<(HeadView, Seq<u8>), Error>(
                    (head@, reader.remaining()),
                ),
            decreases reader.remaining().len(),
        {
            let ghost before = reader.remaining();
            let line = match reader.read_line() {
                Ok(line) => line,
                Err(e) => {
                    return Err(e);
                },
            };
            proof {
                lemma_line_text(before, line@.len() as int);
            }
            if is_blank(line.as_slice()) {
                done = true;
            } else {
                match head.header_line(line.as_slice()) {
                    Ok(()) => {},
                    Err(e) => {
                        return Err(e);
                    },
                }
            }
        }
        let body = match reader.read_exact(head.content_length()) {
            Ok(body) => body,
            Err(e) => {
                return Err(e);
            },
        };
        Ok(head.finish(body))
    }

    /// The request method.
    pub fn method(&self) -> (method: Method)
        ensures
            method == self@.method,
    {
        self.method
    }

    /// The path, as it stood in the start line.
    pub fn path(&self) -> (path: &[u8])
        ensures
            path@ == self@.path,
    {
        self.path.as_slice()
    }

    /// The protocol version, as it stood in the start line.
    pub fn version(&self) -> (version: &[u8])
        ensures
            version@ == self@.version,
    {
        self.version.as_slice()
    }

    /// The header fields, under their lower-case names.
    pub fn headers(&self) -> (headers: &Headers)
        ensures
            headers@ == self@.headers,
    {
        &self.headers
    }

    /// The body as it came over the wire.
    pub fn body(&self) -> (body: &[u8])
        ensures
            body@ == self@.body,
    {
        self.body.as_slice()
    }

    /// The body as text, decoded as well as it can be: bytes that are no
    /// valid UTF-8 come out as replacement characters, never as a failure.
    pub fn body_text(&self) -> (text: String)
        ensures
            text@ == utf8_lossy(self@.body),
            valid_utf8(self@.body) ==> text@ == decode_utf8(self@.body),
    {
        decode_lossy(self.body.as_slice())
    }
}

} // verus!
