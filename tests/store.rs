use kvs::memory;
use kvs::record::{frame, Record};
use kvs::store::{KeyNotFound, KvStore, KvsError};

fn s(x: &str) -> String {
    x.to_owned()
}

/// Appends a pending record's bytes to `log`, then commits it.
fn put(store: &mut KvStore, log: &mut Vec<u8>, k: &str, v: &str) {
    let p = store.set(s(k), s(v));
    log.extend_from_slice(p.frame());
    store.commit(p);
}

fn rm(store: &mut KvStore, log: &mut Vec<u8>, k: &str) -> Result<(), KvsError> {
    let p = store.remove(s(k))?;
    log.extend_from_slice(p.frame());
    store.commit(p);
    Ok(())
}

#[test]
fn scenario_set_overwrite_remove() {
    let mut log: Vec<u8> = Vec::new();
    let mut store = KvStore::open(&log).unwrap();
    put(&mut store, &mut log, "key1", "value1");
    put(&mut store, &mut log, "key1", "value2");
    assert_eq!(store.get(s("key1")).unwrap(), Some(s("value2")));
    assert_eq!(rm(&mut store, &mut log, "key1"), Ok(()));
    assert_eq!(store.get(s("key1")).unwrap(), None);
    assert_eq!(
        rm(&mut store, &mut log, "key1"),
        Err(KvsError::KeyNotFound(KeyNotFound))
    );
}

#[test]
fn scenario_reopen_after_close() {
    let mut log: Vec<u8> = Vec::new();
    {
        let mut store = KvStore::open(&log).unwrap();
        put(&mut store, &mut log, "a", "1");
        put(&mut store, &mut log, "b", "2");
        rm(&mut store, &mut log, "a").unwrap();
    }
    let store = KvStore::open(&log).unwrap();
    assert_eq!(store.get(s("a")).unwrap(), None);
    assert_eq!(store.get(s("b")).unwrap(), Some(s("2")));
    assert_eq!(store.log_len(), log.len());
}

#[test]
fn reopen_matches_reference_map() {
    let mut log: Vec<u8> = Vec::new();
    let mut store = KvStore::open(&log).unwrap();
    put(&mut store, &mut log, "x", "1");
    put(&mut store, &mut log, "y", "2");
    assert!(rm(&mut store, &mut log, "z").is_err());
    put(&mut store, &mut log, "x", "3");
    rm(&mut store, &mut log, "y").unwrap();
    put(&mut store, &mut log, "w", "with \"quotes\"\nand newline");
    let reopened = KvStore::open(&log).unwrap();
    for k in ["x", "y", "z", "w"] {
        assert_eq!(reopened.get(s(k)).unwrap(), store.get(s(k)).unwrap());
    }
    assert_eq!(reopened.get(s("x")).unwrap(), Some(s("3")));
    assert_eq!(
        reopened.get(s("w")).unwrap(),
        Some(s("with \"quotes\"\nand newline"))
    );
}

#[test]
fn get_twice_gives_same_answer() {
    let mut log: Vec<u8> = Vec::new();
    let mut store = KvStore::open(&log).unwrap();
    put(&mut store, &mut log, "k", "v");
    assert_eq!(store.get(s("k")).unwrap(), store.get(s("k")).unwrap());
    assert_eq!(store.get(s("nope")).unwrap(), store.get(s("nope")).unwrap());
}

#[test]
fn overwrite_keeps_last_value() {
    let mut log: Vec<u8> = Vec::new();
    let mut store = KvStore::open(&log).unwrap();
    put(&mut store, &mut log, "k", "v1");
    put(&mut store, &mut log, "k", "v2");
    assert_eq!(store.get(s("k")).unwrap(), Some(s("v2")));
}

#[test]
fn remove_then_get_is_none() {
    let mut log: Vec<u8> = Vec::new();
    let mut store = KvStore::open(&log).unwrap();
    put(&mut store, &mut log, "k", "v");
    rm(&mut store, &mut log, "k").unwrap();
    assert_eq!(store.get(s("k")).unwrap(), None);
}

#[test]
fn remove_absent_appends_nothing() {
    let mut log: Vec<u8> = Vec::new();
    let mut store = KvStore::open(&log).unwrap();
    put(&mut store, &mut log, "a", "1");
    let before_len = store.log_len();
    let before_bytes = log.len();
    assert_eq!(
        rm(&mut store, &mut log, "never"),
        Err(KvsError::KeyNotFound(KeyNotFound))
    );
    assert_eq!(store.log_len(), before_len);
    assert_eq!(log.len(), before_bytes);
    assert_eq!(store.get(s("a")).unwrap(), Some(s("1")));
}

#[test]
fn truncated_last_record_is_left_out() {
    let mut log: Vec<u8> = b"{\"Set\":[\"a\",\"1\"]}\n{\"Set\":[\"b\",\"2\"]}\n".to_vec();
    let valid = log.len();
    log.extend_from_slice(b"{\"Set\":[\"c\",\"3");
    let store = KvStore::open(&log).unwrap();
    assert_eq!(store.get(s("a")).unwrap(), Some(s("1")));
    assert_eq!(store.get(s("b")).unwrap(), Some(s("2")));
    assert_eq!(store.get(s("c")).unwrap(), None);
    assert_eq!(store.log_len(), valid);
}

#[test]
fn complete_but_unterminated_last_record_is_left_out() {
    let log: Vec<u8> = b"{\"Set\":[\"a\",\"1\"]}\n{\"Rm\":[\"a\"]}".to_vec();
    let store = KvStore::open(&log).unwrap();
    assert_eq!(store.get(s("a")).unwrap(), Some(s("1")));
    assert_eq!(store.log_len(), 18);
}

#[test]
fn corrupt_interior_record_fails_open() {
    let log: Vec<u8> = b"{\"Set\":[\"a\",\"1\"]}\ngarbage\n{\"Set\":[\"b\",\"2\"]}\n".to_vec();
    assert!(matches!(KvStore::open(&log), Err(KvsError::Decode)));
}

#[test]
fn empty_line_fails_open() {
    let log: Vec<u8> = b"\n".to_vec();
    assert!(matches!(KvStore::open(&log), Err(KvsError::Decode)));
}

#[test]
fn empty_log_opens_empty() {
    let store = KvStore::open(&Vec::new()).unwrap();
    assert_eq!(store.get(s("a")).unwrap(), None);
    assert_eq!(store.log_len(), 0);
}

#[test]
fn remove_replayed_from_log() {
    let log: Vec<u8> = b"{\"Set\":[\"a\",\"1\"]}\n{\"Rm\":[\"a\"]}\n{\"Rm\":[\"zz\"]}\n".to_vec();
    let store = KvStore::open(&log).unwrap();
    assert_eq!(store.get(s("a")).unwrap(), None);
    assert_eq!(store.log_len(), log.len());
}

#[test]
fn set_frame_is_json_line() {
    let store = KvStore::open(&Vec::new()).unwrap();
    let p = store.set(s("k"), s("v"));
    assert_eq!(p.frame().as_slice(), b"{\"Set\":[\"k\",\"v\"]}\n");
}

#[test]
fn remove_frame_is_json_line() {
    let mut log: Vec<u8> = Vec::new();
    let mut store = KvStore::open(&log).unwrap();
    put(&mut store, &mut log, "k", "v");
    let p = store.remove(s("k")).unwrap();
    assert_eq!(p.frame().as_slice(), b"{\"Rm\":[\"k\"]}\n");
}

#[test]
fn encode_escapes_strings() {
    let r = Record::Put(s("a\"b"), s("line\nbreak"));
    let b = r.encode();
    assert_eq!(b.as_slice(), b"{\"Set\":[\"a\\\"b\",\"line\\nbreak\"]}\n");
}

#[test]
fn decode_reads_both_kinds() {
    let set_line = b"{\"Set\":[\"k\",\"v\"]}".to_vec();
    assert_eq!(Record::decode(&set_line), Some(Record::Put(s("k"), s("v"))));
    let rm_line = b"{\"Rm\":[\"k\"]}".to_vec();
    assert_eq!(Record::decode(&rm_line), Some(Record::Rm(s("k"))));
}

#[test]
fn decode_rejects_wrong_shapes() {
    for line in [
        &b"{\"Set\":[\"k\"]}"[..],
        &b"{\"Rm\":[\"k\",\"v\"]}"[..],
        &b"{\"Put\":[\"k\",\"v\"]}"[..],
        &b"{\"Set\":[\"k\",\"v\"]"[..],
        &b"{\"Set\":[1,2]}"[..],
        &b""[..],
    ] {
        assert_eq!(Record::decode(&line.to_vec()), None);
    }
}

#[test]
fn encode_then_decode_gives_record() {
    for r in [Record::Put(s("k e y"), s("välue")), Record::Rm(s("\\x"))] {
        let mut b = r.encode();
        assert_eq!(b.pop(), Some(b'\n'));
        assert_eq!(Record::decode(&b), Some(r));
    }
}

#[test]
fn from_fields_checks_length() {
    assert_eq!(
        Record::from_fields(true, vec![s("k"), s("v")]),
        Some(Record::Put(s("k"), s("v")))
    );
    assert_eq!(Record::from_fields(true, vec![s("k")]), None);
    assert_eq!(Record::from_fields(false, vec![s("k")]), Some(Record::Rm(s("k"))));
    assert_eq!(Record::from_fields(false, vec![]), None);
}

#[test]
fn frame_wraps_body() {
    assert_eq!(frame(true, &b"[]".to_vec()).as_slice(), b"{\"Set\":[]}\n");
    assert_eq!(frame(false, &b"[\"a\"]".to_vec()).as_slice(), b"{\"Rm\":[\"a\"]}\n");
}

#[test]
fn key_not_found_message() {
    assert_eq!(KeyNotFound.message(), "Key not Found");
}

#[test]
fn memory_set_get_remove() {
    let mut kv = memory::KvStore::new();
    assert_eq!(kv.set(s("key1"), s("value1")), None);
    assert_eq!(kv.set(s("key1"), s("new_value")), Some(s("value1")));
    assert_eq!(kv.get(s("key1")), Some(s("new_value")));
    assert_eq!(kv.get(s("key2")), None);
    assert_eq!(kv.set(s("key2"), s("v2")), None);
    assert_eq!(kv.remove(s("key1")), Some(s("new_value")));
    assert_eq!(kv.remove(s("key1")), None);
    assert_eq!(kv.get(s("key1")), None);
    assert_eq!(kv.get(s("key2")), Some(s("v2")));
}
