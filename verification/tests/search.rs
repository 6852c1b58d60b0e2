use airs::server::{Conversation, IndexEntry, Message, SearchIndex, SearchResponse};

fn convo(uuid: &str, name: &str, updated_at: &str, message_count: usize) -> Conversation {
    Conversation {
        uuid: uuid.to_string(),
        name: name.to_string(),
        summary: String::new(),
        created_at: "2024-01-01".to_string(),
        updated_at: updated_at.to_string(),
        message_count,
    }
}

fn entry(uuid: &str, name: &str, updated_at: &str, texts: &[&str]) -> IndexEntry {
    IndexEntry {
        convo: convo(uuid, name, updated_at, texts.len()),
        message_snippets: texts
            .iter()
            .enumerate()
            .map(|(i, t)| (format!("{}-m{}", uuid, i), t.to_string()))
            .collect(),
    }
}

fn sample() -> SearchIndex {
    SearchIndex {
        entries: vec![
            entry("a", "Rust questions", "2024-03-01", &["how do lifetimes work", "Rust is neat"]),
            entry("b", "Cooking", "2024-05-01", &["pasta recipe", "more pasta"]),
            entry("c", "Travel", "2024-04-01", &["rust on the bike chain", "RUST again", "rusty"]),
            entry("d", "Misc", "2024-05-01", &[]),
        ],
    }
}

fn uuids(res: &SearchResponse) -> Vec<String> {
    res.convos.iter().map(|c| c.uuid.clone()).collect()
}

#[test]
fn empty_query_lists_newest_first() {
    let res = sample().search("", 200);
    assert_eq!(res.total, 4);
    // b and d tie on updated_at and keep index order.
    assert_eq!(uuids(&res), vec!["b", "d", "c", "a"]);
    assert!(res.convos.iter().all(|c| c.match_count == 0 && c.snippet.is_empty()));
}

#[test]
fn empty_query_respects_limit_but_counts_all() {
    let res = sample().search("", 2);
    assert_eq!(res.total, 4);
    assert_eq!(uuids(&res), vec!["b", "d"]);
}

#[test]
fn query_counts_name_and_message_hits() {
    let res = sample().search("rust", 200);
    assert_eq!(res.total, 2);
    assert_eq!(uuids(&res), vec!["c", "a"]);
    assert_eq!(res.convos[0].match_count, 3);
    assert_eq!(res.convos[1].match_count, 2);
    assert_eq!(res.convos[0].snippet, "rust on the bike chain");
    assert_eq!(res.convos[1].snippet, "Rust is neat");
    assert_eq!(res.convos[1].name, "Rust questions");
    assert_eq!(res.convos[1].message_count, 2);
}

#[test]
fn query_is_ascii_case_insensitive() {
    let lower = sample().search("rust", 200);
    let upper = sample().search("RuSt", 200);
    assert_eq!(uuids(&lower), uuids(&upper));
    assert_eq!(lower.total, upper.total);
    for (a, b) in lower.convos.iter().zip(upper.convos.iter()) {
        assert_eq!(a.match_count, b.match_count);
        assert_eq!(a.snippet, b.snippet);
    }
}

#[test]
fn ties_keep_index_order() {
    let res = sample().search("pasta", 200);
    assert_eq!(uuids(&res), vec!["b"]);
    let res = sample().search("e", 200);
    // a: name + 2 messages, b: name ("Cooking" has no e) -> pasta recipe, more pasta
    let counts: Vec<usize> = res.convos.iter().map(|c| c.match_count).collect();
    let mut sorted = counts.clone();
    sorted.sort_by(|x, y| y.cmp(x));
    assert_eq!(counts, sorted);
}

#[test]
fn limit_cuts_cards_but_not_total() {
    let res = sample().search("rust", 1);
    assert_eq!(res.total, 2);
    assert_eq!(uuids(&res), vec!["c"]);
    let none = sample().search("rust", 0);
    assert_eq!(none.total, 2);
    assert!(none.convos.is_empty());
}

#[test]
fn no_match_gives_no_cards() {
    let res = sample().search("zebra", 200);
    assert_eq!(res.total, 0);
    assert!(res.convos.is_empty());
}

#[test]
fn name_only_match_has_empty_snippet() {
    let res = sample().search("travel", 200);
    assert_eq!(uuids(&res), vec!["c"]);
    assert_eq!(res.convos[0].match_count, 1);
    assert_eq!(res.convos[0].snippet, "");
}

#[test]
fn build_keeps_message_ids_and_texts_in_order() {
    let m = |id: &str, text: &str| Message {
        uuid: id.to_string(),
        convo_uuid: "x".to_string(),
        text: text.to_string(),
        sender: "human".to_string(),
        created_at: "t".to_string(),
        updated_at: "t".to_string(),
        parent_message_uuid: None,
    };
    let index = SearchIndex::build(vec![
        (convo("x", "X", "1", 2), vec![m("m1", "first"), m("m2", "second")]),
        (convo("y", "Y", "2", 0), vec![]),
    ]);
    assert_eq!(index.entries.len(), 2);
    assert_eq!(index.entries[0].convo.uuid, "x");
    assert_eq!(
        index.entries[0].message_snippets,
        vec![("m1".to_string(), "first".to_string()), ("m2".to_string(), "second".to_string())]
    );
    assert!(index.entries[1].message_snippets.is_empty());
    assert_eq!(index.search("second", 10).convos[0].snippet, "second");
}
