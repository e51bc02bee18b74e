use kvdb::text::{bytes_eq, has_prefix, is_whitespace, split_fields, str_eq, trim_end};

#[test]
fn whitespace_matches_std() {
    for u in 0u32..0x3100 {
        if let Some(c) = char::from_u32(u) {
            assert_eq!(is_whitespace(c), c.is_whitespace(), "char {:x}", u);
        }
    }
    for c in ['\u{feff}', '\u{200b}', '\u{10ffff}', 'z'] {
        assert_eq!(is_whitespace(c), c.is_whitespace());
    }
}

#[test]
fn trim_end_matches_std() {
    for s in ["", "  ", "a b \t\n", "x\u{3000}", "\u{a0}y\u{85}", "no"] {
        assert_eq!(trim_end(s), s.trim_end());
    }
}

#[test]
fn prefix_and_equality() {
    assert!(has_prefix("ERROR: x", "ERROR: "));
    assert!(!has_prefix("ERROR:", "ERROR: "));
    assert!(has_prefix("abc", ""));
    assert!(str_eq("é", "é"));
    assert!(!str_eq("e", "é"));
    assert!(bytes_eq(&[1, 2], &[1, 2]));
    assert!(!bytes_eq(&[1, 2], &[1]));
}

#[test]
fn split_matches_std() {
    for s in ["", " ", "get k", "set  k v ", "a b c d", "名 字"] {
        let expected: Vec<&str> = s.split(" ").collect();
        assert_eq!(split_fields(s), expected);
    }
}
