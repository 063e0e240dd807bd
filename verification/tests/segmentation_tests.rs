use markov_bot::format::{traq_message_format, ContentType};
use markov_bot::tokenize::{eligible_training_string, flatten_segments, join_tokens, tokenize};

fn segment_source(segment: &ContentType) -> &str {
    match segment {
        ContentType::Text(t) => t,
        ContentType::Stamp(s) => s,
        ContentType::SpecialLink { raw: _, source } => source,
    }
}

#[test]
fn hello_stamp_world_pipeline() {
    let segments = traq_message_format("Hello :blob_pyon: world".to_string());
    assert_eq!(
        segments,
        vec![
            ContentType::Text("Hello ".to_string()),
            ContentType::Stamp(":blob_pyon:".to_string()),
            ContentType::Text(" world".to_string()),
        ]
    );
    let tokens = flatten_segments(&segments);
    let training = join_tokens(&tokens);
    assert_eq!(training, "Hello :blob_pyon: world");
}

#[test]
fn segments_reassemble_input() {
    let inputs = [
        "Hello :blob_pyon: world",
        "plain text only",
        ":awoo:",
        "こんにちは :blob_pyon: 世界",
        "a!{\"type\":\"user\",\"raw\":\"@BOT_SSlime\",\"id\":\"d8ff0b6c-431f-4476-9708-cb9d2e49b0a5\"}b :x: c",
        "::",
        ":ok::go:",
    ];
    for input in inputs {
        let segments = traq_message_format(input.to_string());
        let mut rebuilt = String::new();
        for segment in &segments {
            assert!(!segment_source(segment).is_empty());
            rebuilt.push_str(segment_source(segment));
        }
        assert_eq!(rebuilt, input, "coverage failed for {:?}", input);
    }
}

#[test]
fn empty_input_has_no_segments() {
    let segments = traq_message_format(String::new());
    assert!(segments.is_empty());
}

#[test]
fn stamp_and_link_stay_atomic() {
    let input = "see !{\"type\":\"channel\",\"raw\":\"#gps/times\",\"id\":\"11c32e27-5aa5-44f2-bc3b-ef8e94103ccf\"} and :blob_pyon: now";
    let segments = traq_message_format(input.to_string());
    assert_eq!(
        segments,
        vec![
            ContentType::Text("see ".to_string()),
            ContentType::SpecialLink {
                raw: "#gps/times".to_string(),
                source: "!{\"type\":\"channel\",\"raw\":\"#gps/times\",\"id\":\"11c32e27-5aa5-44f2-bc3b-ef8e94103ccf\"}".to_string(),
            },
            ContentType::Text(" and ".to_string()),
            ContentType::Stamp(":blob_pyon:".to_string()),
            ContentType::Text(" now".to_string()),
        ]
    );
    let tokens = flatten_segments(&segments);
    let token_strs: Vec<&str> = tokens.iter().map(|t| t.as_str()).collect();
    assert_eq!(
        token_strs,
        vec!["see", "#gps/times", "and", ":blob_pyon:", "now"]
    );
}

#[test]
fn whole_input_single_stamp() {
    let segments = traq_message_format(":blob_pyon:".to_string());
    assert_eq!(segments, vec![ContentType::Stamp(":blob_pyon:".to_string())]);
}

#[test]
fn tokenizer_splits_on_whitespace_without_empties() {
    let tokens = tokenize("  two\twords\nhere  ");
    let token_strs: Vec<&str> = tokens.iter().map(|t| t.as_str()).collect();
    assert_eq!(token_strs, vec!["two", "words", "here"]);
    assert!(tokenize("").is_empty());
    assert!(tokenize("   ").is_empty());
}

#[test]
fn blocked_messages_are_excluded_from_training() {
    assert_eq!(eligible_training_string(":awoo:".to_string()), None);
    assert_eq!(
        eligible_training_string("https://example.com/path".to_string()),
        None
    );
    assert_eq!(eligible_training_string("ううう".to_string()), None);
    assert_eq!(eligible_training_string("%command".to_string()), None);
    assert_eq!(
        eligible_training_string("Hello :blob_pyon: world".to_string()),
        Some("Hello :blob_pyon: world".to_string())
    );
}
