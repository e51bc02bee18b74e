use kvdb::standalone::{handle_command, parse_command, Command, Error};
use kvdb::storage::kv_map::KvMap;

fn parse_error(raw: &[u8]) -> String {
    match parse_command(raw) {
        Err(Error::ParseError(m)) => m,
        _ => panic!("expected a parse error"),
    }
}

#[test]
fn parse_each_command() {
    assert!(matches!(parse_command(&[1, 0, 1, 97]), Ok(Command::Get { key: "a" })));
    assert!(matches!(parse_command(&[3, 0, 1, 97, 0]), Ok(Command::Delete { key: "a" })));
    match parse_command(&[2, 0, 1, 97, 0, 1, 98]) {
        Ok(Command::Put { key, value }) => {
            assert_eq!(key, "a");
            assert_eq!(value, b"b");
        }
        _ => panic!("expected a set"),
    }
}

#[test]
fn parse_errors() {
    assert_eq!(parse_error(&[1]), "解析失败，字节长度不足。");
    assert_eq!(parse_error(&[1, 0, 2, 97]), "解析失败，字节长度不足以包含键。");
    assert_eq!(parse_error(&[2, 0, 1, 97, 0]), "解析失败，字节长度不足");
    assert_eq!(parse_error(&[2, 0, 1, 97, 0, 2, 1]), "解析失败，字节长度不足以包含值。");
    assert_eq!(parse_error(&[4, 0, 0]), "解析失败，未知的Command类型。");
    assert!(matches!(parse_command(&[1, 0, 1, 0x80]), Err(Error::ParseUtf8Error(_))));
}

#[test]
fn handle_commands_in_turn() {
    let mut db = KvMap::new();
    assert_eq!(handle_command(&mut db, Command::Get { key: "k" }), b"KEY_NOT_EXIST\n".to_vec());
    assert_eq!(handle_command(&mut db, Command::Put { key: "k", value: b"v" }), b"OK\n".to_vec());
    assert_eq!(handle_command(&mut db, Command::Get { key: "k" }), b"v\n".to_vec());
    assert_eq!(handle_command(&mut db, Command::Delete { key: "k" }), b"DELETED\n".to_vec());
    assert_eq!(handle_command(&mut db, Command::Delete { key: "k" }), b"KEY_NOT_EXIST\n".to_vec());
    assert_eq!(db.len(), 0);
}
