use airs::server::{convo_key, key_has_prefix, msg_key, msg_prefix};

#[test]
fn convo_key_has_convo_prefix() {
    assert_eq!(convo_key("abc-123"), "convo::abc-123");
    assert_eq!(convo_key(""), "convo::");
}

#[test]
fn msg_key_joins_conversation_and_message() {
    assert_eq!(msg_key("c1", "m1"), "msg::c1::m1");
    assert_eq!(msg_prefix("c1"), "msg::c1::");
}

#[test]
fn msg_key_starts_with_its_prefix() {
    let key = msg_key("conv", "msg");
    let prefix = msg_prefix("conv");
    assert!(key.starts_with(&prefix));
    assert!(key_has_prefix(key.as_bytes(), &prefix));
}

#[test]
fn scan_stops_at_other_conversation() {
    let prefix = msg_prefix("a");
    assert!(!key_has_prefix(msg_key("b", "x").as_bytes(), &prefix));
    assert!(!key_has_prefix(b"msg::a:", &prefix));
    assert!(key_has_prefix(b"msg::a::", &prefix));
}

#[test]
fn non_utf8_key_reads_as_empty() {
    let bytes: Vec<u8> = vec![b'm', b's', b'g', 0xff];
    assert!(!key_has_prefix(&bytes, "msg"));
    assert!(key_has_prefix(&bytes, ""));
}

#[test]
fn multibyte_keys_are_matched_bytewise() {
    let key = msg_key("é", "ü");
    assert!(key_has_prefix(key.as_bytes(), &msg_prefix("é")));
    assert!(!key_has_prefix(key.as_bytes(), &msg_prefix("e")));
}
