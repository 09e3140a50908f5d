use kvs::codec::{decode_command, encode_command, Command, CommandType};
use kvs::kv::{get_log_id, get_log_path};
use kvs::KvStoreError;

fn chars(s: &str) -> Vec<char> {
    s.chars().collect()
}

fn text(v: &[char]) -> String {
    v.iter().collect()
}

#[test]
fn set_record_spelling() {
    let cmd = Command {
        cmd: CommandType::Put,
        key: "k".to_owned(),
        value: "v".to_owned(),
    };
    let out = encode_command(&cmd);
    assert_eq!(text(&out), "{\"cmd\":\"Set\",\"key\":\"k\",\"value\":\"v\"}");
}

#[test]
fn remove_record_spelling() {
    let cmd = Command {
        cmd: CommandType::Rm,
        key: "k".to_owned(),
        value: String::new(),
    };
    let out = encode_command(&cmd);
    assert_eq!(text(&out), "{\"cmd\":\"Rm\",\"key\":\"k\",\"value\":\"\"}");
}

#[test]
fn record_round_trip_with_escapes() {
    let cmd = Command {
        cmd: CommandType::Put,
        key: "a\"b\\c".to_owned(),
        value: "\\\"".to_owned(),
    };
    let out = encode_command(&cmd);
    let (back, end) = decode_command(&out, 0).expect("decode");
    assert_eq!(end, out.len());
    assert!(matches!(back.cmd, CommandType::Put));
    assert_eq!(back.key, "a\"b\\c");
    assert_eq!(back.value, "\\\"");
}

#[test]
fn records_decode_as_a_stream() {
    let one = Command {
        cmd: CommandType::Put,
        key: "x".to_owned(),
        value: "1".to_owned(),
    };
    let two = Command {
        cmd: CommandType::Rm,
        key: "x".to_owned(),
        value: String::new(),
    };
    let mut data = encode_command(&one);
    data.extend(encode_command(&two));
    let (first, next) = decode_command(&data, 0).expect("first");
    assert!(matches!(first.cmd, CommandType::Put));
    assert_eq!(first.key, "x");
    assert_eq!(first.value, "1");
    let (second, end) = decode_command(&data, next).expect("second");
    assert!(matches!(second.cmd, CommandType::Rm));
    assert_eq!(second.key, "x");
    assert_eq!(end, data.len());
}

#[test]
fn decoder_rejects_malformed_records() {
    for bad in [
        "",
        "{",
        "{\"cmd\":\"Put\",\"key\":\"k\",\"value\":\"v\"}",
        "{\"cmd\":\"Set\",\"key\":\"k\",\"value\":\"v\"",
        "{\"cmd\":\"Set\",\"key\":\"k\"}",
        "{\"cmd\":\"Rm\",\"key\":\"k\",\"value\":\"x\"}",
        "[\"cmd\"]",
    ] {
        let data = chars(bad);
        match decode_command(&data, 0) {
            Err(KvStoreError::SerdeError { .. }) => {}
            other => panic!("expected SerdeError for {:?}, got {:?}", bad, other),
        }
    }
}

#[test]
fn log_path_spells_the_id() {
    assert_eq!(get_log_path(0), "0.log");
    assert_eq!(get_log_path(42), "42.log");
    assert_eq!(get_log_path(65535), "65535.log");
}

#[test]
fn log_id_reads_back_what_log_path_spells() {
    for id in [0u16, 1, 9, 10, 4000, 65535] {
        let name = get_log_path(id);
        assert_eq!(get_log_id(&name).expect("parse"), Some(id));
    }
}

#[test]
fn log_id_ignores_other_files() {
    assert_eq!(get_log_id("foo.txt").expect("parse"), None);
    assert_eq!(get_log_id("nodot").expect("parse"), None);
    assert_eq!(get_log_id(".log").expect("parse"), None);
    assert_eq!(get_log_id("7.log.bak").expect("parse"), None);
}

#[test]
fn log_id_rejects_bad_stems() {
    for bad in ["abc.log", "1a.log", "65536.log", "99999.log", "a.b.log", "-3.log"] {
        match get_log_id(bad) {
            Err(KvStoreError::ParseIntError { .. }) => {}
            other => panic!("expected ParseIntError for {:?}, got {:?}", bad, other),
        }
    }
}
