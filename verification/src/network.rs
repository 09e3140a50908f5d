//! The wire protocol.
//!
//! One request and one response per connection, each a single
//! self-delimiting object in the same textual encoding as log records:
//! `{"command_type":"Get","key":"k","value":""}` on the way in and
//! `{"value":"v","error":""}` on the way out.

use vstd::prelude::*;

use crate::codec::{
    chars_to_string, expect_lit, field_enc, lemma_field_complete, lemma_field_sound,
    lemma_subrange_cut, lemma_subrange_glue, parse_field, push_field, push_str, spec_field,
    spec_lit,
};
use crate::error::KvStoreError;

verus! {

/// What a client asks the server to do.
#[derive(PartialEq, Eq, Structural, Clone, Copy, Debug)]
pub enum ClientRequestType {
    /// Read a key; spelled `"Get"` on the wire.
    Get,
    /// Bind a key; spelled `"Set"`.
    Put,
    /// Unbind a key; spelled `"Rm"`.
    Rm,
}

/// One request, as sent over a connection.
#[derive(Debug)]
pub struct ClientRequest {
    /// What to do.
    pub command_type: ClientRequestType,
    /// The key the request speaks about.
    pub key: String,
    /// The value to bind; empty for reads and removals.
    pub value: String,
}

/// One response.  Exactly one of the fields is meaningful: on success
/// `error` is empty and `value` carries the answer; on failure `error`
/// is non-empty.
#[derive(Debug)]
pub struct Response {
    /// The answer: `"OK"` for mutations, the value (or nothing) for reads.
    pub value: String,
    /// The failure message, empty on success.
    pub error: String,
}

impl Default for Response {
    /// An empty response, ready to be filled in.
    fn default() -> (r: Response)
        ensures
            r.value@ == Seq::<char>::empty(),
            r.error@ == Seq::<char>::empty(),
    {
        Response { value: String::new(), error: String::new() }
    }
}

// ------------------------------------------------------------------
// Encodings.
// ------------------------------------------------------------------

/// The opening of a request, up to and including the quote that starts
/// the command token.
pub open spec fn req_head() -> Seq<char> {
    "{\"command_type\":\""@
}

/// From the quote closing the command token to the quote opening the key.
pub open spec fn req_key() -> Seq<char> {
    "\",\"key\":\""@
}

/// From just after the key's closing quote to the quote opening the value.
pub open spec fn req_mid() -> Seq<char> {
    ",\"value\":\""@
}

/// The closing brace of a request or a response.
pub open spec fn obj_end() -> Seq<char> {
    "}"@
}

/// The token spelling a request kind.
pub open spec fn req_token(t: ClientRequestType) -> Seq<char> {
    match t {
        ClientRequestType::Get => "Get"@,
        ClientRequestType::Put => "Set"@,
        ClientRequestType::Rm => "Rm"@,
    }
}

/// The canonical encoding of a request.
pub open spec fn spec_encode_request(t: ClientRequestType, key: Seq<char>, value: Seq<char>) -> Seq<
    char,
> {
    req_head() + req_token(t) + req_key() + field_enc(key) + req_mid() + field_enc(value)
        + obj_end()
}

/// The opening of a response, up to the quote that starts the value.
pub open spec fn resp_head() -> Seq<char> {
    "{\"value\":\""@
}

/// From just after the value's closing quote to the quote opening the
/// error message.
pub open spec fn resp_mid() -> Seq<char> {
    ",\"error\":\""@
}

/// The canonical encoding of a response.
pub open spec fn spec_encode_response(value: Seq<char>, error: Seq<char>) -> Seq<char> {
    resp_head() + field_enc(value) + resp_mid() + field_enc(error) + obj_end()
}

// ------------------------------------------------------------------
// Decoders, at the specification level.
// ------------------------------------------------------------------

/// Reads a request token and reports which kind it spells.
pub open spec fn spec_req_token(data: Seq<char>, off: int) -> Option<(ClientRequestType, int)> {
    match spec_lit(data, off, req_token(ClientRequestType::Get)) {
        Some(end) => Some((ClientRequestType::Get, end)),
        None => match spec_lit(data, off, req_token(ClientRequestType::Put)) {
            Some(end) => Some((ClientRequestType::Put, end)),
            None => match spec_lit(data, off, req_token(ClientRequestType::Rm)) {
                Some(end) => Some((ClientRequestType::Rm, end)),
                None => None,
            },
        },
    }
}

/// Decodes one request starting at `off`.
pub open spec fn spec_decode_request(data: Seq<char>, off: int) -> Option<
    ((ClientRequestType, Seq<char>, Seq<char>), int),
> {
    match spec_lit(data, off, req_head()) {
        None => None,
        Some(o1) => match spec_req_token(data, o1) {
            None => None,
            Some((t, o2)) => match spec_lit(data, o2, req_key()) {
                None => None,
                Some(o3) => match spec_field(data, o3) {
                    None => None,
                    Some((key, o4)) => match spec_lit(data, o4, req_mid()) {
                        None => None,
                        Some(o5) => match spec_field(data, o5) {
                            None => None,
                            Some((value, o6)) => match spec_lit(data, o6, obj_end()) {
                                None => None,
                                Some(o7) => Some(((t, key, value), o7)),
                            },
                        },
                    },
                },
            },
        },
    }
}

/// Decodes one response starting at `off`.
pub open spec fn spec_decode_response(data: Seq<char>, off: int) -> Option<
    ((Seq<char>, Seq<char>), int),
> {
    match spec_lit(data, off, resp_head()) {
        None => None,
        Some(o1) => match spec_field(data, o1) {
            None => None,
            Some((value, o2)) => match spec_lit(data, o2, resp_mid()) {
                None => None,
                Some(o3) => match spec_field(data, o3) {
                    None => None,
                    Some((error, o4)) => match spec_lit(data, o4, obj_end()) {
                        None => None,
                        Some(o5) => Some(((value, error), o5)),
                    },
                },
            },
        },
    }
}

// ------------------------------------------------------------------
// The decoders agree with the encoders.
// ------------------------------------------------------------------

/// Decoding a window that carries an encoded request yields it back
/// and stops just past it: the wire format round-trips.
pub proof fn lemma_decode_request_encode(
    t: ClientRequestType,
    key: Seq<char>,
    value: Seq<char>,
    data: Seq<char>,
    off: int,
)
    requires
        0 <= off,
        off + spec_encode_request(t, key, value).len() <= data.len(),
        data.subrange(off, off + spec_encode_request(t, key, value).len()) == spec_encode_request(
            t,
            key,
            value,
        ),
    ensures
        spec_decode_request(data, off) == Some(
            ((t, key, value), off + spec_encode_request(t, key, value).len()),
        ),
{
    let e = spec_encode_request(t, key, value);
    let p1 = req_head();
    let p2 = req_token(t);
    let p3 = req_key();
    let p4 = field_enc(key);
    let p5 = req_mid();
    let p6 = field_enc(value);
    let p7 = obj_end();
    let a1 = p1.len() as int;
    let a2 = a1 + p2.len() as int;
    let a3 = a2 + p3.len() as int;
    let a4 = a3 + p4.len() as int;
    let a5 = a4 + p5.len() as int;
    let a6 = a5 + p6.len() as int;
    let a7 = a6 + p7.len() as int;
    assert(e.subrange(0, a1) =~= p1);
    assert(e.subrange(a1, a2) =~= p2);
    assert(e.subrange(a2, a3) =~= p3);
    assert(e.subrange(a3, a4) =~= p4);
    assert(e.subrange(a4, a5) =~= p5);
    assert(e.subrange(a5, a6) =~= p6);
    assert(e.subrange(a6, a7) =~= p7);
    lemma_subrange_cut(data, off, e, 0, a1);
    lemma_subrange_cut(data, off, e, a1, a2);
    lemma_subrange_cut(data, off, e, a2, a3);
    lemma_subrange_cut(data, off, e, a3, a4);
    lemma_subrange_cut(data, off, e, a4, a5);
    lemma_subrange_cut(data, off, e, a5, a6);
    lemma_subrange_cut(data, off, e, a6, a7);
    assert(spec_lit(data, off, p1) == Some(off + a1));
    reveal_strlit("Get");
    reveal_strlit("Set");
    reveal_strlit("Rm");
    // The first character of the token settles which kind it spells.
    assert(data[off + a1] == p2[0]);
    match t {
        ClientRequestType::Get => {},
        ClientRequestType::Put => {
            assert(p2[0] == 'S');
            if spec_lit(data, off + a1, "Get"@) is Some {
                assert(data.subrange(off + a1, off + a1 + 3) == "Get"@);
                assert(data[off + a1] == 'G');
            }
            assert(spec_lit(data, off + a1, "Get"@) is None);
        },
        ClientRequestType::Rm => {
            assert(p2[0] == 'R');
            if spec_lit(data, off + a1, "Get"@) is Some {
                assert(data.subrange(off + a1, off + a1 + 3) == "Get"@);
                assert(data[off + a1] == 'G');
            }
            if spec_lit(data, off + a1, "Set"@) is Some {
                assert(data.subrange(off + a1, off + a1 + 3) == "Set"@);
                assert(data[off + a1] == 'S');
            }
            assert(spec_lit(data, off + a1, "Get"@) is None);
            assert(spec_lit(data, off + a1, "Set"@) is None);
        },
    }
    assert(spec_req_token(data, off + a1) == Some((t, off + a2)));
    assert(spec_lit(data, off + a2, p3) == Some(off + a3));
    lemma_field_complete(key, data, off + a3);
    assert(spec_lit(data, off + a4, p5) == Some(off + a5));
    lemma_field_complete(value, data, off + a5);
    assert(spec_lit(data, off + a6, p7) == Some(off + a7));
}

/// Whatever the request decoder accepts is the canonical encoding of
/// the request it returns.
pub proof fn lemma_decode_request_sound(data: Seq<char>, off: int)
    requires
        spec_decode_request(data, off) is Some,
    ensures
        ({
            let ((t, key, value), end) = spec_decode_request(data, off)->Some_0;
            &&& 0 <= off < end <= data.len()
            &&& end - off == spec_encode_request(t, key, value).len()
            &&& data.subrange(off, end) == spec_encode_request(t, key, value)
        }),
{
    let ((t, key, value), end) = spec_decode_request(data, off)->Some_0;
    let o1 = spec_lit(data, off, req_head())->Some_0;
    let (t2, o2) = spec_req_token(data, o1)->Some_0;
    let o3 = spec_lit(data, o2, req_key())->Some_0;
    let (k2, o4) = spec_field(data, o3)->Some_0;
    let o5 = spec_lit(data, o4, req_mid())->Some_0;
    let (v2, o6) = spec_field(data, o5)->Some_0;
    let o7 = spec_lit(data, o6, obj_end())->Some_0;
    lemma_field_sound(data, o3);
    lemma_field_sound(data, o5);
    lemma_subrange_glue(data, off, o1, o2);
    lemma_subrange_glue(data, off, o2, o3);
    lemma_subrange_glue(data, off, o3, o4);
    lemma_subrange_glue(data, off, o4, o5);
    lemma_subrange_glue(data, off, o5, o6);
    lemma_subrange_glue(data, off, o6, o7);
    assert(data.subrange(off, o7) == req_head() + req_token(t) + req_key() + field_enc(key)
        + req_mid() + field_enc(value) + obj_end());
}

/// Decoding a window that carries an encoded response yields it back.
pub proof fn lemma_decode_response_encode(
    value: Seq<char>,
    error: Seq<char>,
    data: Seq<char>,
    off: int,
)
    requires
        0 <= off,
        off + spec_encode_response(value, error).len() <= data.len(),
        data.subrange(off, off + spec_encode_response(value, error).len())
            == spec_encode_response(value, error),
    ensures
        spec_decode_response(data, off) == Some(
            ((value, error), off + spec_encode_response(value, error).len()),
        ),
{
    let e = spec_encode_response(value, error);
    let p1 = resp_head();
    let p2 = field_enc(value);
    let p3 = resp_mid();
    let p4 = field_enc(error);
    let p5 = obj_end();
    let a1 = p1.len() as int;
    let a2 = a1 + p2.len() as int;
    let a3 = a2 + p3.len() as int;
    let a4 = a3 + p4.len() as int;
    let a5 = a4 + p5.len() as int;
    assert(e.subrange(0, a1) =~= p1);
    assert(e.subrange(a1, a2) =~= p2);
    assert(e.subrange(a2, a3) =~= p3);
    assert(e.subrange(a3, a4) =~= p4);
    assert(e.subrange(a4, a5) =~= p5);
    lemma_subrange_cut(data, off, e, 0, a1);
    lemma_subrange_cut(data, off, e, a1, a2);
    lemma_subrange_cut(data, off, e, a2, a3);
    lemma_subrange_cut(data, off, e, a3, a4);
    lemma_subrange_cut(data, off, e, a4, a5);
    assert(spec_lit(data, off, p1) == Some(off + a1));
    lemma_field_complete(value, data, off + a1);
    assert(spec_lit(data, off + a2, p3) == Some(off + a3));
    lemma_field_complete(error, data, off + a3);
    assert(spec_lit(data, off + a4, p5) == Some(off + a5));
}

/// Whatever the response decoder accepts is the canonical encoding of
/// the response it returns.
pub proof fn lemma_decode_response_sound(data: Seq<char>, off: int)
    requires
        spec_decode_response(data, off) is Some,
    ensures
        ({
            let ((value, error), end) = spec_decode_response(data, off)->Some_0;
            &&& 0 <= off < end <= data.len()
            &&& end - off == spec_encode_response(value, error).len()
            &&& data.subrange(off, end) == spec_encode_response(value, error)
        }),
{
    let ((value, error), end) = spec_decode_response(data, off)->Some_0;
    let o1 = spec_lit(data, off, resp_head())->Some_0;
    let (v2, o2) = spec_field(data, o1)->Some_0;
    let o3 = spec_lit(data, o2, resp_mid())->Some_0;
    let (e2, o4) = spec_field(data, o3)->Some_0;
    let o5 = spec_lit(data, o4, obj_end())->Some_0;
    lemma_field_sound(data, o1);
    lemma_field_sound(data, o3);
    lemma_subrange_glue(data, off, o1, o2);
    lemma_subrange_glue(data, off, o2, o3);
    lemma_subrange_glue(data, off, o3, o4);
    lemma_subrange_glue(data, off, o4, o5);
    assert(data.subrange(off, o5) == resp_head() + field_enc(value) + resp_mid() + field_enc(
        error,
    ) + obj_end());
}

// ------------------------------------------------------------------
// Executable encoding and decoding.
// ------------------------------------------------------------------

/// Encodes one request canonically.
pub fn encode_request(r: &ClientRequest) -> (out: Vec<char>)
    ensures
        out@ == spec_encode_request(r.command_type, r.key@, r.value@),
{
    let mut out: Vec<char> = Vec::new();
    push_str(&mut out, "{\"command_type\":\"");
    match r.command_type {
        ClientRequestType::Get => push_str(&mut out, "Get"),
        ClientRequestType::Put => push_str(&mut out, "Set"),
        ClientRequestType::Rm => push_str(&mut out, "Rm"),
    }
    push_str(&mut out, "\",\"key\":\"");
    push_field(&mut out, r.key.as_str());
    push_str(&mut out, ",\"value\":\"");
    push_field(&mut out, r.value.as_str());
    push_str(&mut out, "}");
    proof {
        assert(out@ =~= spec_encode_request(r.command_type, r.key@, r.value@));
    }
    out
}

/// Encodes one response canonically.
pub fn encode_response(r: &Response) -> (out: Vec<char>)
    ensures
        out@ == spec_encode_response(r.value@, r.error@),
{
    let mut out: Vec<char> = Vec::new();
    push_str(&mut out, "{\"value\":\"");
    push_field(&mut out, r.value.as_str());
    push_str(&mut out, ",\"error\":\"");
    push_field(&mut out, r.error.as_str());
    push_str(&mut out, "}");
    proof {
        assert(out@ =~= spec_encode_response(r.value@, r.error@));
    }
    out
}

/// Decodes one request; succeeds exactly on a canonical request and
/// reports where the stream continues.
pub fn decode_request(data: &Vec<char>, off: usize) -> (r: Result<
    (ClientRequest, usize),
    KvStoreError,
>)
    ensures
        match r {
            Ok((req, end)) => spec_decode_request(data@, off as int) == Some(
                ((req.command_type, req.key@, req.value@), end as int),
            ) && off < end <= data.len(),
            Err(e) => spec_decode_request(data@, off as int) is None && e is SerdeError,
        },
{
    let bad = "invalid request";
    let o1 = match expect_lit(data, off, "{\"command_type\":\"") {
        Some(x) => x,
        None => {
            return Err(KvStoreError::SerdeError { error: bad.to_owned() });
        },
    };
    let (t, o2) = match expect_lit(data, o1, "Get") {
        Some(x) => (ClientRequestType::Get, x),
        None => match expect_lit(data, o1, "Set") {
            Some(x) => (ClientRequestType::Put, x),
            None => match expect_lit(data, o1, "Rm") {
                Some(x) => (ClientRequestType::Rm, x),
                None => {
                    return Err(KvStoreError::SerdeError { error: bad.to_owned() });
                },
            },
        },
    };
    let o3 = match expect_lit(data, o2, "\",\"key\":\"") {
        Some(x) => x,
        None => {
            return Err(KvStoreError::SerdeError { error: bad.to_owned() });
        },
    };
    let (key_chars, o4) = match parse_field(data, o3) {
        Some(x) => x,
        None => {
            return Err(KvStoreError::SerdeError { error: bad.to_owned() });
        },
    };
    let o5 = match expect_lit(data, o4, ",\"value\":\"") {
        Some(x) => x,
        None => {
            return Err(KvStoreError::SerdeError { error: bad.to_owned() });
        },
    };
    let (value_chars, o6) = match parse_field(data, o5) {
        Some(x) => x,
        None => {
            return Err(KvStoreError::SerdeError { error: bad.to_owned() });
        },
    };
    let o7 = match expect_lit(data, o6, "}") {
        Some(x) => x,
        None => {
            return Err(KvStoreError::SerdeError { error: bad.to_owned() });
        },
    };
    let req = ClientRequest {
        command_type: t,
        key: chars_to_string(&key_chars),
        value: chars_to_string(&value_chars),
    };
    proof {
        lemma_decode_request_sound(data@, off as int);
    }
    Ok((req, o7))
}

/// Decodes one response; succeeds exactly on a canonical response.
pub fn decode_response(data: &Vec<char>, off: usize) -> (r: Result<
    (Response, usize),
    KvStoreError,
>)
    ensures
        match r {
            Ok((resp, end)) => spec_decode_response(data@, off as int) == Some(
                ((resp.value@, resp.error@), end as int),
            ) && off < end <= data.len(),
            Err(e) => spec_decode_response(data@, off as int) is None && e is SerdeError,
        },
{
    let bad = "invalid response";
    let o1 = match expect_lit(data, off, "{\"value\":\"") {
        Some(x) => x,
        None => {
            return Err(KvStoreError::SerdeError { error: bad.to_owned() });
        },
    };
    let (value_chars, o2) = match parse_field(data, o1) {
        Some(x) => x,
        None => {
            return Err(KvStoreError::SerdeError { error: bad.to_owned() });
        },
    };
    let o3 = match expect_lit(data, o2, ",\"error\":\"") {
        Some(x) => x,
        None => {
            return Err(KvStoreError::SerdeError { error: bad.to_owned() });
        },
    };
    let (error_chars, o4) = match parse_field(data, o3) {
        Some(x) => x,
        None => {
            return Err(KvStoreError::SerdeError { error: bad.to_owned() });
        },
    };
    let o5 = match expect_lit(data, o4, "}") {
        Some(x) => x,
        None => {
            return Err(KvStoreError::SerdeError { error: bad.to_owned() });
        },
    };
    let resp = Response {
        value: chars_to_string(&value_chars),
        error: chars_to_string(&error_chars),
    };
    proof {
        lemma_decode_response_sound(data@, off as int);
    }
    Ok((resp, o5))
}

} // verus!
