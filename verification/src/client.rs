//! The client's side of the protocol.
//!
//! Opening the connection and moving the bytes is the caller's work;
//! building the one request to send and reading the one response that
//! comes back are here.

use vstd::prelude::*;

use crate::error::KvStoreError;
use crate::network::{ClientRequest, ClientRequestType, Response};

verus! {

/// The request that binds `key` to `value`.
pub fn set_request(key: String, value: String) -> (r: ClientRequest)
    ensures
        r.command_type is Put,
        r.key@ == key@,
        r.value@ == value@,
{
    ClientRequest { command_type: ClientRequestType::Put, key, value }
}

/// The request that reads `key`.
pub fn get_request(key: String) -> (r: ClientRequest)
    ensures
        r.command_type is Get,
        r.key@ == key@,
        r.value@ == Seq::<char>::empty(),
{
    ClientRequest { command_type: ClientRequestType::Get, key, value: String::new() }
}

/// The request that unbinds `key`.
pub fn remove_request(key: String) -> (r: ClientRequest)
    ensures
        r.command_type is Rm,
        r.key@ == key@,
        r.value@ == Seq::<char>::empty(),
{
    ClientRequest { command_type: ClientRequestType::Rm, key, value: String::new() }
}

/// Reads a mutation's response: a server-reported error surfaces as
/// one of kind `Server`, anything else is the answer.
pub fn interpret_mutation_response(resp: Response) -> (r: Result<String, KvStoreError>)
    ensures
        resp.error@.len() > 0 ==> (r matches Err(e) && e matches KvStoreError::ServerError {
            error,
        } && error@ == resp.error@),
        resp.error@.len() == 0 ==> (r matches Ok(v) && v@ == resp.value@),
{
    if !resp.error.as_str().is_empty() {
        return Err(KvStoreError::ServerError { error: resp.error });
    }
    Ok(resp.value)
}

/// Reads a `get`'s response: an error surfaces as kind `Server`, an
/// empty value means the key was absent, anything else is its value.
pub fn interpret_get_response(resp: Response) -> (r: Result<Option<String>, KvStoreError>)
    ensures
        resp.error@.len() > 0 ==> (r matches Err(e) && e matches KvStoreError::ServerError {
            error,
        } && error@ == resp.error@),
        resp.error@.len() == 0 && resp.value@.len() == 0 ==> (r matches Ok(v) && v is None),
        resp.error@.len() == 0 && resp.value@.len() > 0 ==> (r matches Ok(v) && v matches Some(
            s,
        ) && s@ == resp.value@),
{
    if !resp.error.as_str().is_empty() {
        return Err(KvStoreError::ServerError { error: resp.error });
    }
    if resp.value.as_str().is_empty() {
        return Ok(None);
    }
    Ok(Some(resp.value))
}

} // verus!
