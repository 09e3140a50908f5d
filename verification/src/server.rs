//! The server's request handling.
//!
//! The accept loop, the sockets and the worker pool live outside the
//! library; what each worker does with a connection's bytes — decode
//! one request, drive the engine, encode one response — is here, with
//! the response pinned down for every request and every store state.

use vstd::prelude::*;

use crate::engine::KvsEngine;
use crate::error::KvStoreError;
use crate::network::{
    decode_request, encode_response, spec_decode_request, spec_encode_response, ClientRequest,
    ClientRequestType, Response,
};

verus! {

/// The response a request deserves against a store holding `m`.
pub open spec fn spec_response(
    t: ClientRequestType,
    k: Seq<char>,
    m: Map<Seq<char>, Seq<char>>,
) -> (Seq<char>, Seq<char>) {
    match t {
        ClientRequestType::Get => (
            if m.contains_key(k) {
                m[k]
            } else {
                Seq::empty()
            },
            Seq::empty(),
        ),
        ClientRequestType::Put => ("OK"@, Seq::empty()),
        ClientRequestType::Rm => if m.contains_key(k) {
            ("OK"@, Seq::empty())
        } else {
            (Seq::empty(), "Key not found"@)
        },
    }
}

/// The store a request leaves behind.
pub open spec fn spec_after(
    t: ClientRequestType,
    k: Seq<char>,
    v: Seq<char>,
    m: Map<Seq<char>, Seq<char>>,
) -> Map<Seq<char>, Seq<char>> {
    match t {
        ClientRequestType::Get => m,
        ClientRequestType::Put => m.insert(k, v),
        ClientRequestType::Rm => if m.contains_key(k) {
            m.remove(k)
        } else {
            m
        },
    }
}

/// Dispatches one decoded request to the engine and builds the
/// response: `"OK"` for mutations, the value or nothing for reads, and
/// the failure message otherwise.
pub fn process_cmd<E: KvsEngine>(db: &mut E, req: ClientRequest) -> (resp: Response)
    requires
        old(db).inv(),
    ensures
        final(db).inv(),
        final(db).model() == spec_after(
            req.command_type,
            req.key@,
            req.value@,
            old(db).model(),
        ),
        resp.value@ == spec_response(req.command_type, req.key@, old(db).model()).0,
        resp.error@ == spec_response(req.command_type, req.key@, old(db).model()).1,
{
    let mut resp = Response::default();
    match req.command_type {
        ClientRequestType::Put => {
            match db.set(req.key, req.value) {
                Ok(_) => {
                    resp.value = "OK".to_owned();
                },
                Err(e) => {
                    resp.error = e.message();
                },
            }
        },
        ClientRequestType::Rm => {
            match db.remove(req.key) {
                Ok(_) => {
                    resp.value = "OK".to_owned();
                },
                Err(e) => {
                    proof {
                        assert(e is KeyNotFoundError);
                    }
                    resp.error = e.message();
                },
            }
        },
        ClientRequestType::Get => {
            match db.get(req.key) {
                Ok(res) => {
                    match res {
                        Some(value) => {
                            resp.value = value;
                        },
                        None => {},
                    }
                },
                Err(e) => {
                    resp.error = e.message();
                },
            }
        },
    }
    resp
}

/// Serves one connection's bytes: decodes the request, drives the
/// engine, and yields the encoded response.  An undecodable request is
/// reported instead, and the store is untouched; the caller logs it
/// and closes the connection without answering.
pub fn handle_connection<E: KvsEngine>(db: &mut E, input: &Vec<char>) -> (r: Result<
    Vec<char>,
    KvStoreError,
>)
    requires
        old(db).inv(),
    ensures
        final(db).inv(),
        match spec_decode_request(input@, 0) {
            Some(((t, k, v), end)) => {
                &&& r matches Ok(out) && out@ == spec_encode_response(
                    spec_response(t, k, old(db).model()).0,
                    spec_response(t, k, old(db).model()).1,
                )
                &&& final(db).model() == spec_after(t, k, v, old(db).model())
            },
            None => {
                &&& r matches Err(e) && e is SerdeError
                &&& final(db).model() == old(db).model()
            },
        },
{
    let (req, _rest) = match decode_request(input, 0) {
        Ok(x) => x,
        Err(e) => {
            return Err(e);
        },
    };
    let resp = process_cmd(db, req);
    Ok(encode_response(&resp))
}

} // verus!
