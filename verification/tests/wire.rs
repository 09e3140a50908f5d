use kvs::client::{
    get_request, interpret_get_response, interpret_mutation_response, remove_request, set_request,
};
use kvs::network::{
    decode_request, decode_response, encode_request, encode_response, ClientRequest,
    ClientRequestType, Response,
};
use kvs::server::{handle_connection, process_cmd};
use kvs::KvStore;
use kvs::KvStoreError;

fn text(v: &[char]) -> String {
    v.iter().collect()
}

#[test]
fn request_spelling() {
    let req = ClientRequest {
        command_type: ClientRequestType::Put,
        key: "k".to_owned(),
        value: "v".to_owned(),
    };
    assert_eq!(
        text(&encode_request(&req)),
        "{\"command_type\":\"Set\",\"key\":\"k\",\"value\":\"v\"}"
    );
}

#[test]
fn response_spelling() {
    let resp = Response { value: "OK".to_owned(), error: String::new() };
    assert_eq!(text(&encode_response(&resp)), "{\"value\":\"OK\",\"error\":\"\"}");
}

#[test]
fn request_round_trip() {
    for req in [
        set_request("key one".to_owned(), "a \"value\"".to_owned()),
        get_request("k\\2".to_owned()),
        remove_request("k3".to_owned()),
    ] {
        let out = encode_request(&req);
        let (back, end) = decode_request(&out, 0).expect("decode");
        assert_eq!(end, out.len());
        assert_eq!(back.command_type, req.command_type);
        assert_eq!(back.key, req.key);
        assert_eq!(back.value, req.value);
    }
}

#[test]
fn response_round_trip() {
    let resp = Response {
        value: "some \"answer\"".to_owned(),
        error: String::new(),
    };
    let out = encode_response(&resp);
    let (back, end) = decode_response(&out, 0).expect("decode");
    assert_eq!(end, out.len());
    assert_eq!(back.value, resp.value);
    assert_eq!(back.error, resp.error);
}

#[test]
fn request_decoder_rejects_garbage() {
    let data: Vec<char> = "{\"command_type\":\"Nope\",\"key\":\"k\",\"value\":\"\"}"
        .chars()
        .collect();
    match decode_request(&data, 0) {
        Err(KvStoreError::SerdeError { .. }) => {}
        other => panic!("expected SerdeError, got {:?}", other),
    }
}

#[test]
fn server_answers_set_get_remove() {
    let mut store = KvStore::open(Vec::new()).expect("open");
    let resp = process_cmd(&mut store, set_request("k".to_owned(), "v".to_owned()));
    assert_eq!(resp.value, "OK");
    assert_eq!(resp.error, "");

    let resp = process_cmd(&mut store, get_request("k".to_owned()));
    assert_eq!(resp.value, "v");
    assert_eq!(resp.error, "");

    let resp = process_cmd(&mut store, get_request("absent".to_owned()));
    assert_eq!(resp.value, "");
    assert_eq!(resp.error, "");

    let resp = process_cmd(&mut store, remove_request("k".to_owned()));
    assert_eq!(resp.value, "OK");
    assert_eq!(resp.error, "");

    let resp = process_cmd(&mut store, remove_request("k".to_owned()));
    assert_eq!(resp.value, "");
    assert_eq!(resp.error, "Key not found");
}

#[test]
fn one_connection_end_to_end() {
    let mut store = KvStore::open(Vec::new()).expect("open");
    let request = encode_request(&set_request("key0".to_owned(), "value0".to_owned()));
    let answer = handle_connection(&mut store, &request).expect("handle");
    let (resp, _) = decode_response(&answer, 0).expect("decode");
    assert_eq!(interpret_mutation_response(resp).expect("ok"), "OK");

    let request = encode_request(&get_request("key0".to_owned()));
    let answer = handle_connection(&mut store, &request).expect("handle");
    let (resp, _) = decode_response(&answer, 0).expect("decode");
    assert_eq!(
        interpret_get_response(resp).expect("ok"),
        Some("value0".to_owned())
    );

    let request = encode_request(&get_request("other".to_owned()));
    let answer = handle_connection(&mut store, &request).expect("handle");
    let (resp, _) = decode_response(&answer, 0).expect("decode");
    assert_eq!(interpret_get_response(resp).expect("ok"), None);
}

#[test]
fn connection_with_garbage_is_refused() {
    let mut store = KvStore::open(Vec::new()).expect("open");
    let bytes: Vec<char> = "not a request".chars().collect();
    match handle_connection(&mut store, &bytes) {
        Err(KvStoreError::SerdeError { .. }) => {}
        other => panic!("expected SerdeError, got {:?}", other),
    }
}

#[test]
fn client_surfaces_server_errors() {
    let resp = Response {
        value: String::new(),
        error: "ServerError: boom".to_owned(),
    };
    match interpret_mutation_response(resp) {
        Err(KvStoreError::ServerError { error }) => assert_eq!(error, "ServerError: boom"),
        other => panic!("expected ServerError, got {:?}", other),
    }
    let resp = Response {
        value: String::new(),
        error: "Key not found".to_owned(),
    };
    match interpret_get_response(resp) {
        Err(KvStoreError::ServerError { error }) => assert_eq!(error, "Key not found"),
        other => panic!("expected ServerError, got {:?}", other),
    }
}

#[test]
fn error_messages_are_rendered() {
    assert_eq!(KvStoreError::KeyNotFoundError.message(), "Key not found");
    let e = KvStoreError::SerdeError { error: "bad".to_owned() };
    assert_eq!(e.message(), "SerdeError: bad");
    let e = KvStoreError::IoError { error: "disk".to_owned() };
    assert_eq!(e.message(), "IoError: disk");
}

#[test]
fn default_config_values() {
    let c = kvs::Config::default();
    assert_eq!(c.filesize_limit, 1024);
    assert_eq!(c.compaction_thresh, 4);
}
