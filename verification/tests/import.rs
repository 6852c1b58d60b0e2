use airs::server::{
    conversation_from_raw, import_step, is_bare_list, key_has_prefix, message_from_raw,
    message_text, msg_key, msg_prefix, records_for, ImportStep, RawContent, RawConversation, RawExport, RawMessage,
};

fn raw_msg(uuid: &str, text: &str, content: &[(&str, &str)]) -> RawMessage {
    RawMessage {
        uuid: uuid.to_string(),
        text: text.to_string(),
        sender: "human".to_string(),
        created_at: "2024-01-01T00:00:00Z".to_string(),
        updated_at: "2024-01-01T00:00:01Z".to_string(),
        parent_message_uuid: Some("p".to_string()),
        content: content
            .iter()
            .map(|(k, t)| RawContent { kind: k.to_string(), text: t.to_string() })
            .collect(),
    }
}

fn raw_convo(uuid: &str, msgs: Vec<RawMessage>) -> RawConversation {
    RawConversation {
        uuid: uuid.to_string(),
        name: "Name".to_string(),
        summary: "Sum".to_string(),
        created_at: "c".to_string(),
        updated_at: "u".to_string(),
        chat_messages: msgs,
    }
}

#[test]
fn top_level_text_is_preferred() {
    let m = raw_msg("m", "top", &[("text", "block")]);
    assert_eq!(message_text(&m), "top");
}

#[test]
fn first_text_block_is_the_fallback() {
    let m = raw_msg("m", "", &[("tool_use", "x"), ("text", "first"), ("text", "second")]);
    assert_eq!(message_text(&m), "first");
}

#[test]
fn no_text_anywhere_gives_empty() {
    let m = raw_msg("m", "", &[("image", "x")]);
    assert_eq!(message_text(&m), "");
    let m = raw_msg("m", "", &[]);
    assert_eq!(message_text(&m), "");
}

#[test]
fn bare_list_is_detected_after_white_space() {
    assert!(is_bare_list("[]"));
    assert!(is_bare_list(" \n\t [{\"uuid\": 1}]"));
    assert!(is_bare_list("\u{3000}["));
    assert!(!is_bare_list("{\"conversations\": []}"));
    assert!(!is_bare_list(""));
    assert!(!is_bare_list("   "));
    assert!(!is_bare_list("x["));
}

#[test]
fn export_without_conversations_is_empty() {
    let e = RawExport { conversations: None };
    assert!(e.into_conversations().is_empty());
    let e = RawExport { conversations: Some(vec![raw_convo("a", vec![])]) };
    assert_eq!(e.into_conversations().len(), 1);
}

#[test]
fn conversation_record_counts_messages() {
    let r = raw_convo("a", vec![raw_msg("1", "x", &[]), raw_msg("2", "y", &[])]);
    let c = conversation_from_raw(&r);
    assert_eq!(c.uuid, "a");
    assert_eq!(c.name, "Name");
    assert_eq!(c.summary, "Sum");
    assert_eq!(c.message_count, 2);
}

#[test]
fn message_record_names_its_conversation() {
    let r = raw_msg("m1", "", &[("text", "hi")]);
    let m = message_from_raw(&r, &"conv".to_string());
    assert_eq!(m.uuid, "m1");
    assert_eq!(m.convo_uuid, "conv");
    assert_eq!(m.text, "hi");
    assert_eq!(m.parent_message_uuid, Some("p".to_string()));
    assert_eq!(m.sender, "human");
}

#[test]
fn records_use_storage_keys_in_order() {
    let r = raw_convo("c9", vec![raw_msg("m1", "x", &[]), raw_msg("m2", "", &[("text", "y")])]);
    let rec = records_for(&r);
    assert_eq!(rec.key, "convo::c9");
    assert_eq!(rec.convo.message_count, 2);
    assert_eq!(rec.messages.len(), 2);
    assert_eq!(rec.messages[0].0, msg_key("c9", "m1"));
    assert_eq!(rec.messages[1].0, "msg::c9::m2");
    assert_eq!(rec.messages[1].1.text, "y");
    assert_eq!(rec.messages[1].1.convo_uuid, "c9");
}

#[test]
fn import_runs_only_on_empty_store_with_file() {
    assert!(matches!(import_step(true, true), ImportStep::AlreadyPopulated));
    assert!(matches!(import_step(true, false), ImportStep::AlreadyPopulated));
    assert!(matches!(import_step(false, false), ImportStep::NoExportFile));
    assert!(matches!(import_step(false, true), ImportStep::Import));
}

#[test]
fn imported_message_keys_are_found_by_their_scan() {
    let r = raw_convo("conv-1", vec![raw_msg("a", "x", &[]), raw_msg("b", "y", &[])]);
    let rec = records_for(&r);
    let own = msg_prefix("conv-1");
    let other = msg_prefix("conv-2");
    for (key, msg) in &rec.messages {
        assert!(key_has_prefix(key.as_bytes(), &own));
        assert!(!key_has_prefix(key.as_bytes(), &other));
        assert_eq!(msg.convo_uuid, "conv-1");
    }
}
