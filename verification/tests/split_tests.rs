use markov_bot::{SplittedElement, SplittedText};
use markov_bot::split::{split_all_regex, split_first_regex};
use regex::Regex;

const ABC_REGEX_BASE: &str = r#"a+b+c+"#;

#[test]
fn test_split_first_unmatched() {
    let text = "bbbccccc".to_string();
    let result = split_first_regex(text.clone(), &Regex::new(ABC_REGEX_BASE).unwrap());
    assert_eq!(result, SplittedText::Unmatched(text));
}

#[test]
fn test_split_first_full_match() {
    let text = "aaabbbbbcccc".to_string();
    let result = split_first_regex(text.clone(), &Regex::new(ABC_REGEX_BASE).unwrap());
    assert_eq!(result, SplittedText::FullMatch(text));
}

#[test]
fn test_split_first_has_prefix() {
    let text = "xxxxaaabbbbbcccc".to_string();
    let result = split_first_regex(text, &Regex::new(ABC_REGEX_BASE).unwrap());
    assert_eq!(
        result,
        SplittedText::HasPrefix("xxxx".to_string(), "aaabbbbbcccc".to_string())
    );
}

#[test]
fn test_split_first_has_suffix() {
    let text = "aaabbbbbccccxxxx".to_string();
    let result = split_first_regex(text, &Regex::new(ABC_REGEX_BASE).unwrap());
    assert_eq!(
        result,
        SplittedText::HasSuffix("aaabbbbbcccc".to_string(), "xxxx".to_string())
    );
}

#[test]
fn test_split_first_has_prefix_and_suffix() {
    let text = "xxxxaaabbbbbccccxxxx".to_string();
    let result = split_first_regex(text, &Regex::new(ABC_REGEX_BASE).unwrap());
    assert_eq!(
        result,
        SplittedText::HasPrefixAndSuffix(
            "xxxx".to_string(),
            "aaabbbbbcccc".to_string(),
            "xxxx".to_string()
        )
    );
}

#[test]
fn test_split_all_unmatched() {
    let text = "bbbccccc".to_string();
    let result = split_all_regex(text.clone(), &Regex::new(ABC_REGEX_BASE).unwrap());
    assert_eq!(result, vec![SplittedElement::Unmatched(text)]);
}

#[test]
fn test_split_all_full_match() {
    let text = "aaabbbbbcccc".to_string();
    let result = split_all_regex(text.clone(), &Regex::new(ABC_REGEX_BASE).unwrap());
    assert_eq!(result, vec![SplittedElement::Matched(text)]);
}

#[test]
fn test_split_all_has_prefix() {
    let text = "xxxxaaabbbbbcccc".to_string();
    let result = split_all_regex(text, &Regex::new(ABC_REGEX_BASE).unwrap());
    assert_eq!(
        result,
        vec![
            SplittedElement::Unmatched("xxxx".to_string()),
            SplittedElement::Matched("aaabbbbbcccc".to_string()),
        ]
    );
}

#[test]
fn test_split_all_has_suffix() {
    let text = "aaabbbbbccccxxxx".to_string();
    let result = split_all_regex(text, &Regex::new(ABC_REGEX_BASE).unwrap());
    assert_eq!(
        result,
        vec![
            SplittedElement::Matched("aaabbbbbcccc".to_string()),
            SplittedElement::Unmatched("xxxx".to_string()),
        ]
    );
}

#[test]
fn test_split_all_long() {
    let text = "xxabcxxxaabbccxxxxaxbxcxabcx".to_string();
    let result = split_all_regex(text, &Regex::new(ABC_REGEX_BASE).unwrap());
    assert_eq!(
        result,
        vec![
            SplittedElement::Unmatched("xx".to_string()),
            SplittedElement::Matched("abc".to_string()),
            SplittedElement::Unmatched("xxx".to_string()),
            SplittedElement::Matched("aabbcc".to_string()),
            SplittedElement::Unmatched("xxxxaxbxcx".to_string()),
            SplittedElement::Matched("abc".to_string()),
            SplittedElement::Unmatched("x".to_string()),
        ]
    );
}

#[test]
fn test_split_all_longest_match() {
    let regex = Regex::new(r#"\{.*\}"#).unwrap();
    let text = "xx{XXX}yyy{YYY}zzz{ZZZ}www".to_string();
    let result = split_all_regex(text, &regex);
    assert_eq!(
        result,
        vec![
            SplittedElement::Unmatched("xx".to_string()),
            SplittedElement::Matched("{XXX}yyy{YYY}zzz{ZZZ}".to_string()),
            SplittedElement::Unmatched("www".to_string()),
        ]
    );
}

#[test]
fn test_split_all_shortest_match() {
    let regex = Regex::new(r#"\{.*?\}"#).unwrap();
    let text = "xx{XXX}yyy{YYY}zzz{ZZZ}www".to_string();
    let result = split_all_regex(text, &regex);
    assert_eq!(
        result,
        vec![
            SplittedElement::Unmatched("xx".to_string()),
            SplittedElement::Matched("{XXX}".to_string()),
            SplittedElement::Unmatched("yyy".to_string()),
            SplittedElement::Matched("{YYY}".to_string()),
            SplittedElement::Unmatched("zzz".to_string()),
            SplittedElement::Matched("{ZZZ}".to_string()),
            SplittedElement::Unmatched("www".to_string()),
        ]
    );
}

#[test]
fn split_all_empty_input_yields_no_elements() {
    let result = split_all_regex(String::new(), &Regex::new(ABC_REGEX_BASE).unwrap());
    assert!(result.is_empty());
}

#[test]
fn split_all_coverage_reassembles_input() {
    let inputs = [
        "xxabcxxxaabbccxxxxaxbxcxabcx",
        "no matches here",
        "abc",
        "aabbccaabbcc",
    ];
    for input in inputs {
        let parts = split_all_regex(input.to_string(), &Regex::new(ABC_REGEX_BASE).unwrap());
        let mut rebuilt = String::new();
        for part in &parts {
            match part {
                SplittedElement::Unmatched(t) => rebuilt.push_str(t),
                SplittedElement::Matched(m) => rebuilt.push_str(m),
            }
            match part {
                SplittedElement::Unmatched(t) => assert!(!t.is_empty()),
                SplittedElement::Matched(m) => assert!(!m.is_empty()),
            }
        }
        assert_eq!(rebuilt, input);
    }
}
