//! The connection handler: one request in, one response out.
//!
//! A connection is accepted, its request parsed, the request routed, the
//! answer built and sent, and the connection closed. No step is retried: a
//! request that cannot be read ends the connection without a response.

use crate::error::Error;
use crate::headers::{distinct, index_of, lemma_index_of_facts, put};
use crate::reader::Reader;
use crate::request::{spec_parse, Request};
use crate::response::{spec_wire, Response};
use crate::router::{directory_view, route, spec_route, Directory, Outcome, OutcomeView};
use vstd::prelude::*;

verus! {

/// The wire form of an answer.
pub open spec fn spec_respond(outcome: OutcomeView) -> Seq<u8> {
    spec_wire(outcome.status, outcome.fields, outcome.body)
}

/// Builds the response for an answer and returns its wire form.
pub fn respond(outcome: Outcome) -> (bytes: Vec<u8>)
    ensures
        bytes@ == spec_respond(outcome@),
{
    let mut response = Response::new();
    response.set_status_code(outcome.status);
    let n: usize = outcome.headers.len();
    let ghost fields = outcome.headers.fields();
    let mut i: usize = 0;
    while i < n
        invariant
            i <= n,
            n == fields.len(),
            fields == outcome.headers.fields(),
            distinct(fields),
            response@.status_code == Some(outcome.status),
            response@.fields == fields.take(i as int),
            response@.body.is_none(),
        decreases n - i,
    {
        proof {
            let so_far = fields.take(i as int);
            let name = fields[i as int].0;
            lemma_index_of_facts(so_far, name);
            if index_of(so_far, name).is_some() {
                let j = index_of(so_far, name).unwrap();
                assert(so_far[j] == fields[j]);
            }
            assert(put(so_far, name, fields[i as int].1) =~= fields.take(i + 1));
        }
        response.set_header(outcome.headers.name(i), outcome.headers.value(i));
        i += 1;
    }
    assert(fields.take(n as int) =~= fields);
    match response.send(outcome.body) {
        Ok(bytes) => bytes,
        Err(_) => Vec::new(),
    }
}

/// Serves one connection: reads a request from `reader`, routes it, and
/// returns the response in wire form. A request that cannot be read is
/// answered with its error and no bytes.
pub fn handle(reader: &mut Reader, directory: Option<&Directory>) -> (response: Result<
    Vec<u8>,
    Error,
>)
    ensures
        match spec_parse(old(reader).remaining()) {
            Ok((request, rest)) => {
                &&& response matches Ok(bytes)
                &&& bytes@ == spec_respond(
                    spec_route(request.path, request.headers, directory_view(directory)),
                )
                &&& final(reader).remaining() == rest
            },
            Err(e) => response matches Err(f) && f == e,
        },
{
    let request = match Request::new(reader) {
        Ok(request) => request,
        Err(e) => {
            return Err(e);
        },
    };
    let outcome = route(request.path(), request.headers(), directory);
    Ok(respond(outcome))
}

} // verus!
