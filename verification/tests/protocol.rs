use kvdb::protocol::command::Command;
use kvdb::protocol::error::ProtocolError;
use kvdb::protocol::response::Response;

fn parse_error(raw: &[u8]) -> String {
    match Command::decode(raw) {
        Err(ProtocolError::ParseError(m)) => m,
        _ => panic!("expected a parse error"),
    }
}

#[test]
fn encode_get_frame() {
    assert_eq!(Command::Get { key: "ab" }.encode(), vec![1, 0, 2, 97, 98]);
}

#[test]
fn encode_set_frame() {
    let c = Command::Put { key: "k", value: b"xyz" };
    assert_eq!(c.encode(), vec![2, 0, 1, 107, 0, 3, 120, 121, 122]);
}

#[test]
fn encode_delete_frame() {
    assert_eq!(Command::Delete { key: "k" }.encode(), vec![3, 0, 1, 107]);
}

#[test]
fn encode_uses_utf8_bytes_of_key() {
    assert_eq!(Command::Get { key: "é" }.encode(), vec![1, 0, 2, 0xC3, 0xA9]);
}

#[test]
fn encode_length_field_keeps_low_sixteen_bits() {
    let key = "a".repeat(65537);
    let frame = Command::Delete { key: &key }.encode();
    assert_eq!(&frame[..3], &[3, 0, 1]);
    assert_eq!(frame.len(), 3 + 65537);
    let value = vec![7u8; 300];
    let frame = Command::Put { key: "k", value: &value }.encode();
    assert_eq!(&frame[4..6], &[1, 44]);
}

#[test]
fn decode_get_ignores_trailing_bytes() {
    match Command::decode(&[1, 0, 2, 97, 98, 9, 9]) {
        Ok((Command::Get { key }, n)) => {
            assert_eq!(key, "ab");
            assert_eq!(n, 5);
        }
        _ => panic!("expected a get"),
    }
}

#[test]
fn decode_set_and_delete() {
    match Command::decode(&[2, 0, 1, 107, 0, 2, 5, 6]) {
        Ok((Command::Put { key, value }, n)) => {
            assert_eq!(key, "k");
            assert_eq!(value, &[5, 6]);
            assert_eq!(n, 8);
        }
        _ => panic!("expected a set"),
    }
    match Command::decode(&[3, 0, 0]) {
        Ok((Command::Delete { key }, n)) => {
            assert_eq!(key, "");
            assert_eq!(n, 3);
        }
        _ => panic!("expected a delete"),
    }
}

#[test]
fn decode_short_header() {
    assert_eq!(parse_error(&[]), "解析失败，字节长度不足。");
    assert_eq!(parse_error(&[1, 0]), "解析失败，字节长度不足。");
}

#[test]
fn decode_short_key() {
    assert_eq!(parse_error(&[1, 0, 5, 97]), "解析失败，字节长度不足以包含键。");
}

#[test]
fn decode_short_value_length() {
    assert_eq!(parse_error(&[2, 0, 1, 97, 0]), "解析失败，字节长度不足以包含值长度。");
}

#[test]
fn decode_short_value() {
    assert_eq!(parse_error(&[2, 0, 1, 97, 0, 5, 1]), "解析失败，字节长度不足以包含值。");
}

#[test]
fn decode_unknown_code() {
    assert_eq!(parse_error(&[9, 0, 1, 97]), "解析失败，未知的Command类型。");
    assert_eq!(parse_error(&[0, 0, 0]), "解析失败，未知的Command类型。");
}

#[test]
fn decode_key_not_utf8() {
    assert!(matches!(Command::decode(&[1, 0, 1, 0xFF]), Err(ProtocolError::ParseUtf8Error(_))));
    // the key is checked before the code byte
    assert!(matches!(Command::decode(&[9, 0, 1, 0xFF]), Err(ProtocolError::ParseUtf8Error(_))));
}

#[test]
fn decode_reads_back_encoding() {
    let value = vec![0u8, 255, 10];
    let cmds = vec![
        Command::Get { key: "key_000001" },
        Command::Put { key: "名字", value: &value },
        Command::Delete { key: "" },
    ];
    for c in cmds.iter() {
        let mut frame = c.encode();
        let len = frame.len();
        frame.extend_from_slice(&[1, 2, 3]);
        let (d, n) = match Command::decode(&frame) {
            Ok(x) => x,
            Err(_) => panic!("frame did not read"),
        };
        assert_eq!(n, len);
        assert_eq!(d.encode(), c.encode());
    }
}

#[test]
fn decoded_frame_is_its_own_encoding() {
    let raw = [2u8, 0, 2, 104, 105, 0, 1, 33, 77, 78];
    let (c, n) = match Command::decode(&raw) {
        Ok(x) => x,
        Err(_) => panic!("frame did not read"),
    };
    assert_eq!(n, 8);
    assert_eq!(c.encode(), raw[..n].to_vec());
}

#[test]
fn response_encode_each_variant() {
    assert_eq!(Response::Okay.encode(), b"Ok\n".to_vec());
    assert_eq!(Response::KeyNotExist.encode(), b"KEY_NOT_EXIST\n".to_vec());
    assert_eq!(Response::Deleted.encode(), b"DELETED\n".to_vec());
    assert_eq!(Response::Value(vec![1, 2]).encode(), vec![1, 2, 10]);
    assert_eq!(Response::Error("boom".to_string()).encode(), b"ERROR: boom\n".to_vec());
    assert_eq!(Response::Error("错误".to_string()).encode(), "ERROR: 错误\n".as_bytes().to_vec());
}

#[test]
fn response_decode_outcomes() {
    assert!(matches!(Response::decode(b"Ok\n"), Some(Response::Okay)));
    assert!(matches!(Response::decode(b"Ok \t\r\n"), Some(Response::Okay)));
    assert!(matches!(Response::decode(b"KEY_NOT_EXIST\n"), Some(Response::KeyNotExist)));
    assert!(matches!(Response::decode(b"DELETED"), Some(Response::Deleted)));
}

#[test]
fn response_decode_nothing() {
    assert!(Response::decode(b"").is_none());
    assert!(Response::decode(&[0xFF, 10]).is_none());
}

#[test]
fn response_decode_error_and_value() {
    match Response::decode(b"ERROR: bad key\n") {
        Some(Response::Error(m)) => assert_eq!(m, "bad key"),
        _ => panic!("expected an error"),
    }
    match Response::decode(b"ERROR:\n") {
        Some(Response::Value(v)) => assert_eq!(v, b"ERROR:".to_vec()),
        _ => panic!("expected a value"),
    }
    match Response::decode(b"OK\n") {
        Some(Response::Value(v)) => assert_eq!(v, b"OK".to_vec()),
        _ => panic!("expected a value"),
    }
    match Response::decode("hello\u{3000}\u{85} \n".as_bytes()) {
        Some(Response::Value(v)) => assert_eq!(v, b"hello".to_vec()),
        _ => panic!("expected a value"),
    }
    match Response::decode(b"  \n") {
        Some(Response::Value(v)) => assert!(v.is_empty()),
        _ => panic!("expected a value"),
    }
}

#[test]
fn response_reads_back() {
    let replies = vec![
        Response::Okay,
        Response::KeyNotExist,
        Response::Deleted,
        Response::Value(b"val_iiii_000001".to_vec()),
        Response::Value(Vec::new()),
        Response::Error("x".to_string()),
    ];
    for r in replies.iter() {
        let back = Response::decode(&r.encode());
        match (r, back) {
            (Response::Okay, Some(Response::Okay)) => {}
            (Response::KeyNotExist, Some(Response::KeyNotExist)) => {}
            (Response::Deleted, Some(Response::Deleted)) => {}
            (Response::Value(a), Some(Response::Value(b))) => assert_eq!(a, &b),
            (Response::Error(a), Some(Response::Error(b))) => assert_eq!(a, &b),
            _ => panic!("reply did not read back"),
        }
    }
}

#[test]
fn response_empty_error_does_not_read_back() {
    assert!(matches!(Response::decode(&Response::Error(String::new()).encode()), Some(Response::Value(_))));
}
