use kvdb::protocol::command::Command;
use kvdb::protocol::error::ProtocolError;
use kvdb::storage::db::DbState;
use kvdb::storage::error::StorageError;
use kvdb::storage::kv_map::KvMap;

fn frame(c: Command) -> Vec<u8> {
    c.encode()
}

#[test]
fn kv_map_insert_get_remove() {
    let mut m = KvMap::new();
    assert_eq!(m.len(), 0);
    m.insert("a".to_string(), vec![1]);
    m.insert("b".to_string(), vec![2]);
    m.insert("a".to_string(), vec![3]);
    assert_eq!(m.len(), 2);
    assert_eq!(m.get("a"), Some(&vec![3]));
    assert_eq!(m.get("b"), Some(&vec![2]));
    assert_eq!(m.get("c"), None);
    assert_eq!(m.remove("a"), Some(vec![3]));
    assert_eq!(m.remove("a"), None);
    assert_eq!(m.get("a"), None);
    assert_eq!(m.get("b"), Some(&vec![2]));
    assert_eq!(m.len(), 1);
}

#[test]
fn db_state_set_get_delete() {
    let mut db = DbState::recovered(KvMap::new(), 0);
    assert_eq!(db.get("k"), None);
    db.set("k", b"v".to_vec());
    assert_eq!(db.get("k"), Some(&b"v".to_vec()));
    assert_eq!(db.delete("k"), Some(b"v".to_vec()));
    assert_eq!(db.delete("k"), None);
    assert_eq!(db.get_wal_size(), 0);
}

#[test]
fn db_state_wal_size() {
    let mut db = DbState::recovered(KvMap::new(), 10);
    assert_eq!(db.get_wal_size(), 10);
    db.add_wal_size(5);
    assert_eq!(db.get_wal_size(), 15);
    db.set("x", vec![]);
    db.reset_wal();
    assert_eq!(db.get_wal_size(), 0);
    assert_eq!(db.get("x"), Some(&vec![]));
}

#[test]
fn db_state_clone_of_data() {
    let mut db = DbState::recovered(KvMap::new(), 0);
    db.set("a", vec![1]);
    db.set("b", vec![2]);
    let copy = db.get_db_data_clone();
    db.delete("a");
    assert_eq!(copy.len(), 2);
    assert_eq!(copy.get("a"), Some(&vec![1]));
    assert_eq!(copy.get("b"), Some(&vec![2]));
}

#[test]
fn replay_applies_log_in_order() {
    let mut log = Vec::new();
    log.extend(frame(Command::Put { key: "a", value: b"1" }));
    log.extend(frame(Command::Put { key: "b", value: b"2" }));
    log.extend(frame(Command::Delete { key: "a" }));
    log.extend(frame(Command::Put { key: "b", value: b"3" }));
    let mut m = KvMap::new();
    match DbState::replay_bytes(&log, &mut m) {
        Ok(n) => assert_eq!(n, log.len()),
        Err(_) => panic!("log did not replay"),
    }
    assert_eq!(m.get("a"), None);
    assert_eq!(m.get("b"), Some(&b"3".to_vec()));
    assert_eq!(m.len(), 1);
}

#[test]
fn replay_empty_log() {
    let mut m = KvMap::new();
    m.insert("keep".to_string(), vec![9]);
    assert!(matches!(DbState::replay_bytes(&[], &mut m), Ok(0)));
    assert_eq!(m.get("keep"), Some(&vec![9]));
}

#[test]
fn replay_stops_at_get_frame() {
    let mut log = Vec::new();
    log.extend(frame(Command::Put { key: "a", value: b"1" }));
    log.extend(frame(Command::Get { key: "a" }));
    log.extend(frame(Command::Put { key: "c", value: b"1" }));
    let mut m = KvMap::new();
    match DbState::replay_bytes(&log, &mut m) {
        Err(StorageError::ParseError(msg)) => assert_eq!(msg, "解析失败，未知的Command类型。"),
        _ => panic!("expected a parse error"),
    }
    assert_eq!(m.get("a"), Some(&b"1".to_vec()));
    assert_eq!(m.get("c"), None);
}

#[test]
fn replay_stops_at_cut_frame() {
    let mut log = frame(Command::Put { key: "a", value: b"1" });
    log.extend_from_slice(&[2, 0, 5, 97]);
    let mut m = KvMap::new();
    match DbState::replay_bytes(&log, &mut m) {
        Err(StorageError::CommandError(ProtocolError::ParseError(msg))) => {
            assert_eq!(msg, "解析失败，字节长度不足以包含键。")
        }
        _ => panic!("expected a frame error"),
    }
    assert_eq!(m.get("a"), Some(&b"1".to_vec()));
}

#[test]
fn replay_stops_at_key_not_utf8() {
    let log = vec![3u8, 0, 2, 0xC3, 0x28];
    let mut m = KvMap::new();
    assert!(matches!(
        DbState::replay_bytes(&log, &mut m),
        Err(StorageError::CommandError(ProtocolError::ParseUtf8Error(_)))
    ));
}

#[test]
fn snapshot_replays_to_same_table() {
    let mut m = KvMap::new();
    m.insert("a".to_string(), b"one".to_vec());
    m.insert("键".to_string(), vec![0, 1, 2]);
    m.insert("empty".to_string(), vec![]);
    m.remove("a");
    m.insert("z".to_string(), b"last".to_vec());
    let snap = DbState::snapshot_bytes(&m);
    let mut back = KvMap::new();
    match DbState::replay_bytes(&snap, &mut back) {
        Ok(n) => assert_eq!(n, snap.len()),
        Err(_) => panic!("snapshot did not replay"),
    }
    assert_eq!(back.len(), m.len());
    for k in ["a", "键", "empty", "z"] {
        assert_eq!(back.get(k), m.get(k));
    }
}

#[test]
fn snapshot_of_empty_table_is_empty() {
    assert!(DbState::snapshot_bytes(&KvMap::new()).is_empty());
}

#[test]
fn snapshot_is_set_frames() {
    let mut m = KvMap::new();
    m.insert("k".to_string(), b"v".to_vec());
    assert_eq!(DbState::snapshot_bytes(&m), vec![2, 0, 1, 107, 0, 1, 118]);
}

#[test]
fn kv_map_many_keys_grow_and_shrink() {
    let mut m = KvMap::new();
    for i in 0..2000u32 {
        m.insert(format!("key_{}", i), i.to_be_bytes().to_vec());
    }
    assert_eq!(m.len(), 2000);
    for i in (0..2000u32).step_by(3) {
        assert_eq!(m.remove(&format!("key_{}", i)), Some(i.to_be_bytes().to_vec()));
    }
    for i in 0..2000u32 {
        let got = m.get(&format!("key_{}", i));
        if i % 3 == 0 {
            assert_eq!(got, None);
        } else {
            assert_eq!(got, Some(&i.to_be_bytes().to_vec()));
        }
    }
    assert_eq!(m.len(), 2000 - 667);
}
