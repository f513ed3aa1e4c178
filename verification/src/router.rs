//! The router: from a request's path and header fields to what the server
//! answers. The rules are tried in order; the first that fits decides.
//!
//! The directory to serve files from is handed in as a plain value, a list
//! of names with their contents; the router never touches a file system.

use crate::headers::{field_views, find_field, index_of, lemma_index_of_facts, Headers};
use crate::response::{option_view, StatusCode};
use crate::text::{
    ascii, equal, join_from, literal, spec_join, spec_split, split, starts_with, views, SLASH,
};
use vstd::prelude::*;
use vstd::slice::{slice_subrange, slice_to_vec};

verus! {

/// The direct entries of the directory that files are served from: names
/// and contents.
#[derive(Debug)]
pub struct Directory {
    entries: Vec<(Vec<u8>, Vec<u8>)>,
}

impl Directory {
    /// The entries in the order in which they were added.
    pub closed spec fn files(&self) -> Seq<(Seq<u8>, Seq<u8>)> {
        field_views(self.entries@)
    }

    /// A directory without entries.
    pub fn new() -> (directory: Directory)
        ensures
            directory.files() == Seq::<(Seq<u8>, Seq<u8>)>::empty(),
    {
        let directory = Directory { entries: Vec::new() };
        assert(directory.files() =~= Seq::<(Seq<u8>, Seq<u8>)>::empty());
        directory
    }

    /// Adds an entry behind those that are there.
    pub fn add(&mut self, name: Vec<u8>, contents: Vec<u8>)
        ensures
            final(self).files() == old(self).files().push((name@, contents@)),
    {
        assert(field_views(self.entries@.push((name, contents))) =~= field_views(
            self.entries@,
        ).push((name@, contents@)));
        self.entries.push((name, contents));
    }

    /// The contents of the first entry whose name is exactly `name`.
    pub fn find(&self, name: &[u8]) -> (contents: Option<&[u8]>)
        ensures
            match contents {
                Some(bytes) => spec_lookup(self.files(), name@) == Some(bytes@),
                None => spec_lookup(self.files(), name@).is_none(),
            },
    {
        match find_field(&self.entries, name) {
            Some(i) => {
                proof {
                    lemma_index_of_facts(self.files(), name@);
                }
                Some(self.entries[i].1.as_slice())
            },
            None => None,
        }
    }
}

/// The contents of the first entry of `files` whose name is exactly `name`.
pub open spec fn spec_lookup(files: Seq<(Seq<u8>, Seq<u8>)>, name: Seq<u8>) -> Option<Seq<u8>> {
    match index_of(files, name) {
        Some(i) => Some(files[i].1),
        None => None,
    }
}

/// The entries of a directory that may be absent.
pub open spec fn directory_view(directory: Option<&Directory>) -> Option<
    Seq<(Seq<u8>, Seq<u8>)>,
> {
    match directory {
        Some(d) => Some(d.files()),
        None => None,
    }
}

/// What the server answers: a status, header fields and an optional body.
pub struct OutcomeView {
    pub status: StatusCode,
    pub fields: Seq<(Seq<u8>, Seq<u8>)>,
    pub body: Option<Seq<u8>>,
}

/// What the server answers: a status, header fields and an optional body.
#[derive(Debug)]
pub struct Outcome {
    pub status: StatusCode,
    pub headers: Headers,
    pub body: Option<Vec<u8>>,
}

impl View for Outcome {
    type V = OutcomeView;

    open spec fn view(&self) -> OutcomeView {
        OutcomeView {
            status: self.status,
            fields: self.headers.fields(),
            body: option_view(self.body),
        }
    }
}

/// Status 404, no header fields, no body.
pub open spec fn spec_not_found() -> OutcomeView {
    OutcomeView { status: StatusCode::NotFound, fields: Seq::empty(), body: None }
}

/// Status 200, no header fields, no body.
pub open spec fn spec_ok() -> OutcomeView {
    OutcomeView { status: StatusCode::OK, fields: Seq::empty(), body: None }
}

/// Status 200 with a body and the header field that names its type.
pub open spec fn spec_with_body(content_type: Seq<u8>, body: Seq<u8>) -> OutcomeView {
    OutcomeView {
        status: StatusCode::OK,
        fields: seq![(ascii("Content-Type"@), content_type)],
        body: Some(body),
    }
}

impl Outcome {
    /// Status 404, no header fields, no body.
    pub fn not_found() -> (outcome: Outcome)
        ensures
            outcome@ == spec_not_found(),
    {
        Outcome { status: StatusCode::NotFound, headers: Headers::new(), body: None }
    }

    /// Status 200, no header fields, no body.
    pub fn ok() -> (outcome: Outcome)
        ensures
            outcome@ == spec_ok(),
    {
        Outcome { status: StatusCode::OK, headers: Headers::new(), body: None }
    }

    /// Status 200 with a body and the header field that names its type.
    pub fn with_body(content_type: &[u8], body: Vec<u8>) -> (outcome: Outcome)
        ensures
            outcome@ == spec_with_body(content_type@, body@),
    {
        proof {
            reveal_strlit("Content-Type");
        }
        let mut headers = Headers::new();
        headers.insert(slice_to_vec(literal("Content-Type")), slice_to_vec(content_type));
        proof {
            lemma_index_of_facts(Seq::empty(), ascii("Content-Type"@));
            assert(headers.fields() =~= seq![(ascii("Content-Type"@), content_type@)]);
        }
        Outcome { status: StatusCode::OK, headers, body: Some(body) }
    }
}

/// The file that a path under `/files` asks for: what follows `/files/`,
/// taken as one name, slashes and all. A path that goes on otherwise asks
/// for the empty name.
pub open spec fn spec_file_name(path: Seq<u8>) -> Seq<u8> {
    if ascii("/files/"@).is_prefix_of(path) {
        path.skip(7)
    } else {
        Seq::empty()
    }
}

/// The file that a request asks for, if its path is one that is answered
/// from the directory.
pub open spec fn spec_requested_file(path: Seq<u8>) -> Option<Seq<u8>> {
    if path != ascii("/"@) && path != ascii("/user-agent"@) && ascii("/files"@).is_prefix_of(
        path,
    ) {
        Some(spec_file_name(path))
    } else {
        None
    }
}

/// The text that a path asks to have echoed. The path is split at its
/// slashes; the segment behind the first slash must be `echo`, and the text
/// is every segment after it, joined with slashes again.
pub open spec fn spec_echo(path: Seq<u8>) -> Option<Seq<u8>> {
    let segments = spec_split(path, SLASH);
    if segments.len() >= 2 && segments[1] == ascii("echo"@) {
        Some(spec_join(segments.skip(2), SLASH))
    } else {
        None
    }
}

/// The answer to a request, by the first rule that fits:
/// the path `/` is answered with an empty 200;
/// `/user-agent` with the value of the `user-agent` header as text, or 404
/// without that header;
/// a path that begins with `/files` with the contents of the file it names,
/// or 404 when there is no directory or no such entry;
/// a path whose second segment is `echo` with the rest of the path as text;
/// anything else with 404.
pub open spec fn spec_route(
    path: Seq<u8>,
    headers: Map<Seq<u8>, Seq<u8>>,
    directory: Option<Seq<(Seq<u8>, Seq<u8>)>>,
) -> OutcomeView {
    if path == ascii("/"@) {
        spec_ok()
    } else if path == ascii("/user-agent"@) {
        if headers.contains_key(ascii("user-agent"@)) {
            spec_with_body(ascii("text/plain"@), headers[ascii("user-agent"@)])
        } else {
            spec_not_found()
        }
    } else if ascii("/files"@).is_prefix_of(path) {
        match directory {
            Some(files) => match spec_lookup(files, spec_file_name(path)) {
                Some(contents) => spec_with_body(ascii("application/octet-stream"@), contents),
                None => spec_not_found(),
            },
            None => spec_not_found(),
        }
    } else {
        match spec_echo(path) {
            Some(text) => spec_with_body(ascii("text/plain"@), text),
            None => spec_not_found(),
        }
    }
}

/// The name of the file that a path under `/files` asks for.
pub fn file_name(path: &[u8]) -> (name: &[u8])
    ensures
        name@ == spec_file_name(path@),
{
    proof {
        reveal_strlit("/files/");
    }
    if starts_with(path, literal("/files/")) {
        slice_subrange(path, 7, path.len())
    } else {
        let empty = slice_subrange(path, 0, 0);
        assert(empty@ =~= Seq::<u8>::empty());
        empty
    }
}

/// The file that a request asks for, if its path is one that is answered
/// from the directory. A caller that loads the directory on demand needs
/// no more than the entry of this name.
pub fn requested_file(path: &[u8]) -> (name: Option<Vec<u8>>)
    ensures
        option_view(name) == spec_requested_file(path@),
{
    proof {
        reveal_strlit("/");
        reveal_strlit("/user-agent");
        reveal_strlit("/files");
    }
    if !equal(path, literal("/")) && !equal(path, literal("/user-agent")) && starts_with(
        path,
        literal("/files"),
    ) {
        Some(slice_to_vec(file_name(path)))
    } else {
        None
    }
}

/// The text that a path asks to have echoed, if it asks for that.
pub fn echo(path: &[u8]) -> (text: Option<Vec<u8>>)
    ensures
        option_view(text) == spec_echo(path@),
{
    proof {
        reveal_strlit("echo");
    }
    let segments = split(path, SLASH);
    if segments.len() >= 2 && equal(segments[1].as_slice(), literal("echo")) {
        proof {
            if segments@.len() == 2 {
                assert(views(segments@).skip(2) =~= Seq::<Seq<u8>>::empty());
            }
        }
        Some(join_from(&segments, 2, SLASH))
    } else {
        None
    }
}

/// Answers a request.
pub fn route(path: &[u8], headers: &Headers, directory: Option<&Directory>) -> (outcome: Outcome)
    ensures
        outcome@ == spec_route(path@, headers@, directory_view(directory)),
{
    proof {
        reveal_strlit("/");
        reveal_strlit("/user-agent");
        reveal_strlit("user-agent");
        reveal_strlit("/files");
        reveal_strlit("text/plain");
        reveal_strlit("application/octet-stream");
    }
    if equal(path, literal("/")) {
        Outcome::ok()
    } else if equal(path, literal("/user-agent")) {
        match headers.get(literal("user-agent")) {
            Some(agent) => Outcome::with_body(literal("text/plain"), slice_to_vec(agent)),
            None => Outcome::not_found(),
        }
    } else if starts_with(path, literal("/files")) {
        match directory {
            Some(files) => match files.find(file_name(path)) {
                Some(contents) => Outcome::with_body(
                    literal("application/octet-stream"),
                    slice_to_vec(contents),
                ),
                None => Outcome::not_found(),
            },
            None => Outcome::not_found(),
        }
    } else {
        match echo(path) {
            Some(text) => Outcome::with_body(literal("text/plain"), text),
            None => Outcome::not_found(),
        }
    }
}

} // verus!
