use markov_bot::messages::{parse_messages_response, Message, MessageRecord, MessageStore, SyncError};
use markov_bot::model::{update_markov_chain, MarkovModel};
use markov_bot::sync::{fetch_messages, fetch_messages_as_match_as_possible_at_once, fetch_page};

fn record(id: &str, created_at: i64, content: &str) -> MessageRecord {
    MessageRecord {
        id: id.to_string(),
        channel_id: "channel-1".to_string(),
        content: content.to_string(),
        created_at,
    }
}

fn remote_of(n: i64) -> Vec<MessageRecord> {
    let mut remote = Vec::new();
    for k in 0..n {
        remote.push(record(&format!("id-{}", k), 1_000 + k, &format!("message {}", k)));
    }
    remote
}

fn assert_distinct_ids(store: &MessageStore) {
    let records = store.get_messages();
    for i in 0..records.len() {
        for j in (i + 1)..records.len() {
            assert_ne!(records[i].id, records[j].id);
        }
    }
}

#[test]
fn forward_pass_issues_expected_requests() {
    // A source of 10 records at page size 3 takes 4 requests, and the store
    // ends with all 10, none of them twice.
    let remote = remote_of(10);
    let mut store = MessageStore::new();
    let (pages, fetched) =
        fetch_messages_as_match_as_possible_at_once(&mut store, &remote, None, None, 3);
    assert_eq!(pages, 4);
    assert_eq!(fetched.len(), 10);
    assert_eq!(store.get_messages().len(), 10);
    assert_distinct_ids(&store);
}

#[test]
fn pagination_exact_page_boundary() {
    let remote = remote_of(9);
    let mut store = MessageStore::new();
    let (pages, fetched) =
        fetch_messages_as_match_as_possible_at_once(&mut store, &remote, None, None, 3);
    assert_eq!(pages, 3);
    assert_eq!(fetched.len(), 9);
}

#[test]
fn pagination_empty_source_takes_one_request() {
    let remote: Vec<MessageRecord> = Vec::new();
    let mut store = MessageStore::new();
    let (pages, fetched) =
        fetch_messages_as_match_as_possible_at_once(&mut store, &remote, None, None, 5);
    assert_eq!(pages, 1);
    assert!(fetched.is_empty());
    assert_eq!(store.get_messages().len(), 0);
}

#[test]
fn reinserting_a_page_changes_nothing() {
    let remote = remote_of(6);
    let mut store = MessageStore::new();
    store.insert_messages(&remote);
    assert_eq!(store.get_messages().len(), 6);
    store.insert_messages(&remote);
    assert_eq!(store.get_messages().len(), 6);
    assert_distinct_ids(&store);
}

#[test]
fn fetch_page_reports_total_and_slice() {
    let remote = remote_of(7);
    let (total, page) = fetch_page(&remote, 3, 2, None, None);
    assert_eq!(total, 7);
    assert_eq!(page.len(), 2);
    assert_eq!(page[0].id, "id-3");
    assert_eq!(page[1].id, "id-4");
    let (_, tail) = fetch_page(&remote, 6, 2, None, None);
    assert_eq!(tail.len(), 1);
    let (_, beyond) = fetch_page(&remote, 10, 2, None, None);
    assert!(beyond.is_empty());
}

#[test]
fn incremental_fetch_respects_after_boundary() {
    let remote = remote_of(10);
    let mut store = MessageStore::new();
    let fetched = fetch_messages(&mut store, &remote, None, Some(1_005), 4);
    assert_eq!(fetched.len(), 5);
    for m in &fetched {
        assert!(m.created_at >= 1_005);
    }
    assert_eq!(store.get_messages().len(), 5);
}

#[test]
fn full_fetch_converges_to_whole_source() {
    let remote = remote_of(11);
    let mut store = MessageStore::new();
    let fetched = fetch_messages(&mut store, &remote, None, None, 4);
    assert_eq!(fetched.len(), 11);
    assert_eq!(store.get_messages().len(), 11);
    assert_distinct_ids(&store);
}

#[test]
fn store_latest_message_is_newest() {
    let mut store = MessageStore::new();
    assert!(store.get_latest_message().is_none());
    store.insert_messages(&vec![
        record("a", 50, "older"),
        record("b", 90, "newest"),
        record("c", 70, "middle"),
    ]);
    let latest = store.get_latest_message().unwrap();
    assert_eq!(latest.id, "b");
    assert_eq!(latest.created_at, 90);
}

#[test]
fn message_to_record_parses_timestamp() {
    let message = Message {
        id: "m-1".to_string(),
        channel_id: "c-1".to_string(),
        content: "hi".to_string(),
        created_at: "1970-01-01T00:00:01Z".to_string(),
    };
    let rec = message.to_record().unwrap();
    assert_eq!(rec.id, "m-1");
    assert_eq!(rec.created_at, 1_000_000);

    let later = Message {
        id: "m-2".to_string(),
        channel_id: "c-1".to_string(),
        content: "hi".to_string(),
        created_at: "2022-07-28T20:24:16Z".to_string(),
    };
    assert!(later.to_record().unwrap().created_at > rec.created_at);
}

#[test]
fn message_to_record_rejects_malformed_timestamp() {
    let message = Message {
        id: "m-1".to_string(),
        channel_id: "c-1".to_string(),
        content: "hi".to_string(),
        created_at: "not a date".to_string(),
    };
    assert_eq!(message.to_record(), Err(SyncError::MalformedTimestamp));
}

#[test]
fn page_response_parses_fields() {
    let res = r#"{
        "totalHits": 2,
        "hits": [
            {"id": "a", "channelId": "c", "content": "x", "createdAt": "t1"},
            {"id": "b", "channelId": "c", "content": "y", "createdAt": "t2"}
        ]
    }"#;
    let (total, msgs) = parse_messages_response(res).unwrap();
    assert_eq!(total, 2);
    assert_eq!(msgs.len(), 2);
    assert_eq!(msgs[0].id, "a");
    assert_eq!(msgs[0].created_at, "t1");
    assert_eq!(msgs[1].content, "y");
}

#[test]
fn page_response_rejects_malformed() {
    assert!(parse_messages_response("{ not json").is_err());
    assert_eq!(
        parse_messages_response(r#"{ "hits": [] }"#),
        Err("totalHits is not a number".to_string())
    );
    assert_eq!(
        parse_messages_response(r#"{ "totalHits": 1 }"#),
        Err("hits is not an array".to_string())
    );
    assert_eq!(
        parse_messages_response(r#"{ "totalHits": 1, "hits": [ {"id": 5} ] }"#),
        Err("hit id is not a string".to_string())
    );
    assert_eq!(
        parse_messages_response(r#"{ "totalHits": 1, "hits": [ {"id": "a"} ] }"#),
        Err("hit channelId is not a string".to_string())
    );
}

#[test]
fn refresh_feeds_stored_messages() {
    let remote = vec![
        record("a", 10, "hello world"),
        record("b", 20, ":awoo:"),
        record("c", 30, "more text"),
    ];
    let mut store = MessageStore::new();
    let mut model = MarkovModel::new();
    assert!(model.is_empty());
    let fetched = update_markov_chain(&mut model, &mut store, &remote, false, 2);
    assert_eq!(fetched.len(), 3);
    assert_eq!(store.get_messages().len(), 3);
    // Two of the three messages are eligible; the blocked one is skipped.
    assert!(!model.is_empty());

    // A second refresh fetches only the delta past the stored boundary.
    let fetched_again = update_markov_chain(&mut model, &mut store, &remote, false, 2);
    assert_eq!(fetched_again.len(), 1);
    assert_eq!(store.get_messages().len(), 3);
}
