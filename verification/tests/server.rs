use kvdb::protocol::command::Command;
use kvdb::protocol::response::Response;
use kvdb::server::server::{Server, SNAPSHOT_WAL_SIZE};
use kvdb::storage::db::DbState;
use kvdb::storage::kv_map::KvMap;

fn reply_bytes(r: Response) -> Vec<u8> {
    r.encode()
}

#[test]
fn execute_get_missing_and_present() {
    let mut db = DbState::recovered(KvMap::new(), 0);
    let raw = Command::Get { key: "k" }.encode();
    let r = Server::execute(Command::Get { key: "k" }, &mut db, &raw);
    assert_eq!(reply_bytes(r), b"KEY_NOT_EXIST\n".to_vec());
    db.set("k", b"v".to_vec());
    let r = Server::execute(Command::Get { key: "k" }, &mut db, &raw);
    assert!(matches!(r, Response::Value(ref v) if v == b"v"));
    assert_eq!(db.get_wal_size(), 0);
}

#[test]
fn execute_set_counts_request_and_writes() {
    let mut db = DbState::recovered(KvMap::new(), 4);
    let raw = Command::Put { key: "k", value: b"v" }.encode();
    let r = Server::execute(Command::Put { key: "k", value: b"v" }, &mut db, &raw);
    assert!(matches!(r, Response::Okay));
    assert_eq!(db.get_wal_size(), 4 + raw.len());
    assert_eq!(db.get("k"), Some(&b"v".to_vec()));
}

#[test]
fn execute_delete_present_and_missing() {
    let mut db = DbState::recovered(KvMap::new(), 0);
    db.set("k", b"v".to_vec());
    let raw = Command::Delete { key: "k" }.encode();
    let r = Server::execute(Command::Delete { key: "k" }, &mut db, &raw);
    assert!(matches!(r, Response::Deleted));
    let r = Server::execute(Command::Delete { key: "k" }, &mut db, &raw);
    assert!(matches!(r, Response::KeyNotExist));
    assert_eq!(db.get_wal_size(), 2 * raw.len());
    assert_eq!(db.get("k"), None);
}

#[test]
fn get_after_set_gives_value() {
    let mut db = DbState::recovered(KvMap::new(), 0);
    let raw = [0u8; 3];
    Server::execute(Command::Put { key: "a", value: b"1" }, &mut db, &raw);
    Server::execute(Command::Put { key: "b", value: b"2" }, &mut db, &raw);
    let r = Server::execute(Command::Get { key: "a" }, &mut db, &raw);
    assert!(matches!(r, Response::Value(ref v) if v == b"1"));
    Server::execute(Command::Delete { key: "a" }, &mut db, &raw);
    let r = Server::execute(Command::Get { key: "a" }, &mut db, &raw);
    assert!(matches!(r, Response::KeyNotExist));
    let r = Server::execute(Command::Get { key: "b" }, &mut db, &raw);
    assert!(matches!(r, Response::Value(ref v) if v == b"2"));
}

#[test]
fn wal_entry_for_each_command() {
    let raw = [1u8, 2, 3];
    assert!(Server::wal_entry(&Command::Get { key: "k" }, &raw).is_none());
    assert_eq!(Server::wal_entry(&Command::Put { key: "k", value: b"" }, &raw), Some(&raw[..]));
    assert_eq!(Server::wal_entry(&Command::Delete { key: "k" }, &raw), Some(&raw[..]));
}

#[test]
fn snapshot_due_at_twenty_mebibytes() {
    assert_eq!(SNAPSHOT_WAL_SIZE, 20 * 1024 * 1024);
    assert!(!Server::snapshot_due(&DbState::recovered(KvMap::new(), 20 * 1024 * 1024 - 1)));
    assert!(Server::snapshot_due(&DbState::recovered(KvMap::new(), 20 * 1024 * 1024)));
    assert!(!Server::snapshot_due(&DbState::recovered(KvMap::new(), 0)));
}

#[test]
fn executed_log_replays_to_same_table() {
    let mut db = DbState::recovered(KvMap::new(), 0);
    let mut log = Vec::new();
    let cmds = vec![
        Command::Put { key: "a", value: b"1" },
        Command::Put { key: "b", value: b"2" },
        Command::Delete { key: "a" },
        Command::Put { key: "b", value: b"22" },
        Command::Delete { key: "nope" },
    ];
    for c in cmds {
        let raw = c.encode();
        if let Some(bytes) = Server::wal_entry(&c, &raw) {
            log.extend_from_slice(bytes);
        }
        Server::execute(c, &mut db, &raw);
    }
    assert_eq!(db.get_wal_size(), log.len());
    let mut back = KvMap::new();
    assert!(DbState::replay_bytes(&log, &mut back).is_ok());
    let now = db.get_db_data_clone();
    assert_eq!(back.len(), now.len());
    for k in ["a", "b", "nope"] {
        assert_eq!(back.get(k), now.get(k));
    }
}
