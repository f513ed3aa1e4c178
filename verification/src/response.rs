//! Responses: a status, header fields and an optional body, built up step by
//! step and then written out in wire form.

use crate::error::Error;
use crate::headers::{put, Headers};
use crate::text::{
    append, ascii, decimal, literal, lowercase, spec_decimal, spec_lowercase, COLON, CR, LF, SP,
};
use vstd::prelude::*;
use vstd::slice::slice_to_vec;
use vstd::string::StringExecFns;

verus! {

/// The statuses that the server answers with.
#[derive(Clone, Copy, Debug, PartialEq, Eq, Structural)]
pub enum StatusCode {
    OK,
    NotFound,
}

impl StatusCode {
    /// The three-digit code.
    pub open spec fn spec_code(self) -> nat {
        match self {
            StatusCode::OK => 200,
            StatusCode::NotFound => 404,
        }
    }

    /// The reason phrase that goes with the code.
    pub open spec fn spec_reason(self) -> Seq<char> {
        match self {
            StatusCode::OK => "OK"@,
            StatusCode::NotFound => "Not Found"@,
        }
    }

    /// Code and reason phrase as they stand in a status line.
    pub open spec fn spec_to_string(self) -> Seq<char> {
        match self {
            StatusCode::OK => "200 OK"@,
            StatusCode::NotFound => "404 Not Found"@,
        }
    }

    /// The status text is the code in decimal, a space, and the reason
    /// phrase.
    pub proof fn lemma_to_string(self)
        ensures
            ascii(self.spec_to_string()) == spec_decimal(self.spec_code()) + seq![SP] + ascii(
                self.spec_reason(),
            ),
    {
        reveal_strlit("OK");
        reveal_strlit("Not Found");
        reveal_strlit("200 OK");
        reveal_strlit("404 Not Found");
        reveal_with_fuel(spec_decimal, 3);
        assert(ascii(self.spec_to_string()) =~= spec_decimal(self.spec_code()) + seq![SP] + ascii(
            self.spec_reason(),
        ));
    }

    /// The three-digit code.
    pub fn code(&self) -> (code: u16)
        ensures
            code == self.spec_code(),
    {
        match self {
            StatusCode::OK => 200,
            StatusCode::NotFound => 404,
        }
    }

    /// The reason phrase that goes with the code.
    pub fn reason(&self) -> (reason: &'static str)
        ensures
            reason@ == self.spec_reason(),
    {
        match self {
            StatusCode::OK => "OK",
            StatusCode::NotFound => "Not Found",
        }
    }

    /// Code and reason phrase as they stand in a status line.
    pub fn to_string(&self) -> (text: String)
        ensures
            text@ == self.spec_to_string(),
    {
        match self {
            StatusCode::OK => String::from_str("200 OK"),
            StatusCode::NotFound => String::from_str("404 Not Found"),
        }
    }
}

/// The first line of a response.
pub open spec fn spec_status_line(status: StatusCode) -> Seq<u8> {
    ascii("HTTP/1.1 "@) + ascii(status.spec_to_string()) + seq![CR, LF]
}

/// One header field in wire form: the name in lower case, a colon, the
/// value, and the line terminator.
pub open spec fn spec_field_line(field: (Seq<u8>, Seq<u8>)) -> Seq<u8> {
    spec_lowercase(field.0) + seq![COLON] + field.1 + seq![CR, LF]
}

/// The header fields in wire form, in their order.
pub open spec fn spec_field_lines(fields: Seq<(Seq<u8>, Seq<u8>)>) -> Seq<u8>
    decreases fields.len(),
{
    if fields.len() == 0 {
        Seq::empty()
    } else {
        spec_field_lines(fields.drop_last()) + spec_field_line(fields.last())
    }
}

/// What follows the header fields. With a body: a `content-length` line
/// that gives its length in bytes, the empty line, and the body. Without
/// one: the empty line alone.
pub open spec fn spec_body_part(body: Option<Seq<u8>>) -> Seq<u8> {
    match body {
        Some(bytes) => ascii("content-length:"@) + spec_decimal(bytes.len()) + seq![CR, LF]
            + seq![CR, LF] + bytes,
        None => seq![CR, LF],
    }
}

/// A whole response in wire form.
pub open spec fn spec_wire(
    status: StatusCode,
    fields: Seq<(Seq<u8>, Seq<u8>)>,
    body: Option<Seq<u8>>,
) -> Seq<u8> {
    spec_status_line(status) + spec_field_lines(fields) + spec_body_part(body)
}

/// The state of a response builder.
pub struct ResponseView {
    pub status_code: Option<StatusCode>,
    pub fields: Seq<(Seq<u8>, Seq<u8>)>,
    pub body: Option<Seq<u8>>,
}

/// The view of an optional byte vector.
pub open spec fn option_view(body: Option<Vec<u8>>) -> Option<Seq<u8>> {
    match body {
        Some(bytes) => Some(bytes@),
        None => None,
    }
}

/// A response under construction.
#[derive(Debug)]
pub struct Response {
    status_code: Option<StatusCode>,
    headers: Headers,
    body: Option<Vec<u8>>,
}

impl View for Response {
    type V = ResponseView;

    closed spec fn view(&self) -> ResponseView {
        ResponseView {
            status_code: self.status_code,
            fields: self.headers.fields(),
            body: option_view(self.body),
        }
    }
}

impl Response {
    /// A response without status, header fields or body.
    pub fn new() -> (response: Response)
        ensures
            response@ == (ResponseView {
                status_code: None,
                fields: Seq::empty(),
                body: None,
            }),
    {
        Response { status_code: None, headers: Headers::new(), body: None }
    }

    /// Sets the status, replacing an earlier one.
    pub fn set_status_code(&mut self, status_code: StatusCode) -> (this: &mut Self)
        ensures
            this@ == (ResponseView { status_code: Some(status_code), ..old(self)@ }),
            *final(self) == *final(this),
    {
        self.status_code = Some(status_code);
        self
    }

    /// Sets a header field, replacing an earlier value of the same name.
    /// The name is kept as given; two names that differ in case are two
    /// fields.
    pub fn set_header(&mut self, key: &[u8], value: &[u8]) -> (this: &mut Self)
        ensures
            this@ == (ResponseView { fields: put(old(self)@.fields, key@, value@), ..old(self)@ }),
            *final(self) == *final(this),
    {
        self.headers.insert(slice_to_vec(key), slice_to_vec(value));
        self
    }

    /// The status that was set, if any.
    pub fn status_code(&self) -> (status_code: Option<StatusCode>)
        ensures
            status_code == self@.status_code,
    {
        self.status_code
    }

    /// The header fields that were set.
    pub fn headers(&self) -> (headers: &Headers)
        ensures
            headers.fields() == self@.fields,
    {
        &self.headers
    }

    /// The body that was sent, if any.
    pub fn body(&self) -> (body: Option<&[u8]>)
        ensures
            match body {
                Some(bytes) => self@.body == Some(bytes@),
                None => self@.body.is_none(),
            },
    {
        match &self.body {
            Some(bytes) => Some(bytes.as_slice()),
            None => None,
        }
    }

    /// Completes the response with `body` and returns its wire form: status
    /// line, header fields, then the body part. Fails, changing nothing,
    /// when no status was set.
    pub fn send(&mut self, body: Option<Vec<u8>>) -> (sent: Result<Vec<u8>, Error>)
        ensures
            match old(self)@.status_code {
                Some(status) => {
                    &&& sent matches Ok(bytes)
                    &&& bytes@ == spec_wire(status, old(self)@.fields, option_view(body))
                    &&& final(self)@ == (ResponseView { body: option_view(body), ..old(self)@ })
                },
                None => {
                    &&& sent matches Err(e)
                    &&& e == Error::StatusNotSet
                    &&& final(self)@ == old(self)@
                },
            },
    {
        let status = match self.status_code {
            Some(status) => status,
            None => {
                return Err(Error::StatusNotSet);
            },
        };
        let mut out = status_line(status);
        let n: usize = self.headers.len();
        let ghost fields = self.headers.fields();
        let ghost first = out@;
        let mut i: usize = 0;
        while i < n
            invariant
                i <= n,
                n == fields.len(),
                fields == self.headers.fields(),
                out@ == first + spec_field_lines(fields.take(i as int)),
            decreases n - i,
        {
            let name = lowercase(self.headers.name(i));
            append(&mut out, name.as_slice());
            out.push(COLON);
            append(&mut out, self.headers.value(i));
            out.push(CR);
            out.push(LF);
            proof {
                let next = fields.take(i + 1);
                assert(next.drop_last() =~= fields.take(i as int));
                assert(next.last() == fields[i as int]);
                assert(out@ =~= first + spec_field_lines(next));
            }
            i += 1;
        }
        assert(fields.take(n as int) =~= fields);
        match &body {
            Some(bytes) => {
                proof {
                    reveal_strlit("content-length:");
                }
                append(&mut out, literal("content-length:"));
                let length = decimal(bytes.len());
                append(&mut out, length.as_slice());
                out.push(CR);
                out.push(LF);
                out.push(CR);
                out.push(LF);
                append(&mut out, bytes.as_slice());
                assert(out@ =~= spec_wire(status, fields, option_view(body)));
            },
            None => {
                out.push(CR);
                out.push(LF);
                assert(out@ =~= spec_wire(status, fields, option_view(body)));
            },
        }
        self.body = body;
        Ok(out)
    }
}

/// Writes the first line of a response.
pub fn status_line(status: StatusCode) -> (out: Vec<u8>)
    ensures
        out@ == spec_status_line(status),
{
    proof {
        reveal_strlit("HTTP/1.1 ");
        reveal_strlit("200 OK");
        reveal_strlit("404 Not Found");
    }
    let mut out: Vec<u8> = Vec::new();
    append(&mut out, literal("HTTP/1.1 "));
    match status {
        StatusCode::OK => append(&mut out, literal("200 OK")),
        StatusCode::NotFound => append(&mut out, literal("404 Not Found")),
    }
    out.push(CR);
    out.push(LF);
    assert(out@ =~= spec_status_line(status));
    out
}

} // verus!
