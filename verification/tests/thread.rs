use airs::server::{search_request, sort_by_created, Conversation, Message, ThreadResponse, DEFAULT_LIMIT};

fn msg(uuid: &str, created_at: &str) -> Message {
    Message {
        uuid: uuid.to_string(),
        convo_uuid: "c".to_string(),
        text: format!("text of {}", uuid),
        sender: "assistant".to_string(),
        created_at: created_at.to_string(),
        updated_at: created_at.to_string(),
        parent_message_uuid: None,
    }
}

#[test]
fn messages_sorted_oldest_first() {
    let sorted = sort_by_created(vec![
        msg("m3", "2024-01-03"),
        msg("m1", "2024-01-01"),
        msg("m2", "2024-01-02"),
    ]);
    let ids: Vec<&str> = sorted.iter().map(|m| m.uuid.as_str()).collect();
    assert_eq!(ids, vec!["m1", "m2", "m3"]);
}

#[test]
fn equal_times_keep_scan_order() {
    let sorted = sort_by_created(vec![msg("b", "t2"), msg("a", "t1"), msg("c", "t1"), msg("d", "t0")]);
    let ids: Vec<&str> = sorted.iter().map(|m| m.uuid.as_str()).collect();
    assert_eq!(ids, vec!["d", "a", "c", "b"]);
    assert_eq!(sorted[1].text, "text of a");
}

#[test]
fn byte_order_decides_non_ascii_times() {
    let sorted = sort_by_created(vec![msg("x", "é"), msg("y", "z"), msg("w", "")]);
    let ids: Vec<&str> = sorted.iter().map(|m| m.uuid.as_str()).collect();
    assert_eq!(ids, vec!["w", "y", "x"]);
}

#[test]
fn thread_response_sorts_messages() {
    let convo = Conversation {
        uuid: "c".to_string(),
        name: "n".to_string(),
        summary: String::new(),
        created_at: "a".to_string(),
        updated_at: "b".to_string(),
        message_count: 2,
    };
    let t = ThreadResponse::new(convo, vec![msg("late", "2"), msg("early", "1")]);
    assert_eq!(t.convo.uuid, "c");
    assert_eq!(t.messages[0].uuid, "early");
    assert_eq!(t.messages[1].uuid, "late");
}

#[test]
fn search_request_defaults() {
    let (q, limit) = search_request(None, None);
    assert_eq!(q, "");
    assert_eq!(limit, DEFAULT_LIMIT);
    assert_eq!(DEFAULT_LIMIT, 200);
    let (q, limit) = search_request(Some("abc".to_string()), Some(5));
    assert_eq!(q, "abc");
    assert_eq!(limit, 5);
}
