use kvdb::client::client::Client;
use kvdb::client::error::ClientError;
use kvdb::protocol::command::Command;

fn cli_error(line: &str) {
    match Client::new().input_decode(line) {
        Err(ClientError::CliError(m)) => assert_eq!(m, "命令错误！"),
        _ => panic!("expected a command-line error for {:?}", line),
    }
}

fn frame(line: &str) -> Vec<u8> {
    match Client::new().input_decode(line) {
        Ok(f) => f,
        Err(_) => panic!("expected a frame for {:?}", line),
    }
}

#[test]
fn input_get() {
    assert_eq!(frame("get k"), vec![1, 0, 1, 107]);
    assert_eq!(frame("get k extra words"), vec![1, 0, 1, 107]);
}

#[test]
fn input_set() {
    assert_eq!(frame("set k v"), vec![2, 0, 1, 107, 0, 1, 118]);
    assert_eq!(frame("set 名 值"), Command::Put { key: "名", value: "值".as_bytes() }.encode());
}

#[test]
fn input_delete() {
    assert_eq!(frame("delete k"), vec![3, 0, 1, 107]);
}

#[test]
fn input_double_space_gives_empty_key() {
    assert_eq!(frame("get  k"), vec![1, 0, 0]);
}

#[test]
fn input_errors() {
    cli_error("get");
    cli_error("");
    cli_error("set k");
    cli_error("set k v w");
    cli_error("put k v");
    cli_error("GET k");
}

#[test]
fn input_frame_reads_back() {
    let f = frame("set key_1 val_1");
    match Command::decode(&f) {
        Ok((Command::Put { key, value }, n)) => {
            assert_eq!(key, "key_1");
            assert_eq!(value, b"val_1");
            assert_eq!(n, f.len());
        }
        _ => panic!("frame did not read back"),
    }
}
