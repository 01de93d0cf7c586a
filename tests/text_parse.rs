use wfc::text_parse::{convert_tokens_to_rules, generate_rules, parse_lowered, parse_text};
use wfc::rules::{END, START};

fn strings(items: &[&str]) -> Vec<String> {
    items.iter().map(|s| s.to_string()).collect()
}

#[test]
fn test_parse_text_sanity() {
    let text = "Hello there nice to meet you\n".to_string();
    assert_eq!(
        parse_text(text),
        strings(&[START, "hello", "there", "nice", "to", "meet", "you", END])
    )
}

#[test]
fn test_parse_text_tokens() {
    let text = "Hello there, Nice to meet (you)!\n".to_string();
    assert_eq!(
        parse_text(text),
        strings(&[START, "hello", "there", ",", "nice", "to", "meet", "(", "you", ")", "!", END])
    )
}

#[test]
fn test_parse_text_multiline() {
    let text = "hello there\nnice to meet (you)!".to_string();
    assert_eq!(
        parse_text(text),
        strings(&[START, "hello", "there", "\n", "nice", "to", "meet", "(", "you", ")", "!", END])
    )
}

#[test]
fn parse_lowered_keeps_case() {
    assert_eq!(parse_lowered("Hi there"), strings(&[START, "Hi", "there", END]));
    assert_eq!(parse_lowered(""), strings(&[START, "", END]));
}

#[test]
fn test_convert_tokens_to_rules_sanity() {
    let vector = strings(&[START, "hello", "there", END]);

    let rules = convert_tokens_to_rules(&vector);

    assert_eq!(rules.keys().len(), 4);
    assert!(rules.contains_key(END));
    assert!(rules.contains_key(START));
    assert!(rules.contains_key("hello"));
    assert!(rules.contains_key("there"));
    assert!(rules.get(END).unwrap().after.contains(&START.to_string()));
    assert!(rules.get(END).unwrap().before.contains(&"there".to_string()));
    assert!(rules.get(START).unwrap().after.contains(&"hello".to_string()));
    assert!(rules.get(START).unwrap().before.contains(&END.to_string()));
    assert!(rules.get("hello").unwrap().after.contains(&"there".to_string()));
    assert!(rules.get("hello").unwrap().before.contains(&START.to_string()));
    assert!(rules.get("there").unwrap().after.contains(&END.to_string()));
    assert!(rules.get("there").unwrap().before.contains(&"hello".to_string()));
}

#[test]
fn test_convert_tokens_to_rules_multiple() {
    let vector = strings(&[START, "hello", "there", "\n", "hello", "world", END]);

    let rules = convert_tokens_to_rules(&vector);

    assert_eq!(rules.keys().len(), 6);
    assert!(rules.contains_key(END));
    assert!(rules.contains_key(START));
    assert!(rules.contains_key("hello"));
    assert!(rules.contains_key("there"));
    assert!(rules.contains_key("world"));
    assert!(rules.contains_key("\n"));
    assert!(rules.get("hello").unwrap().after.contains(&"there".to_string()));
    assert!(rules.get("hello").unwrap().after.contains(&"world".to_string()));
}

#[test]
fn convert_tokens_without_markers() {
    let rules = convert_tokens_to_rules(&strings(&["a", "b", "a"]));
    assert_eq!(rules.keys().len(), 2);
    assert_eq!(rules.get("a").unwrap().after, strings(&["b"]));
    assert_eq!(rules.get("a").unwrap().before, strings(&["b"]));
    assert!(!rules.contains_key(START));
}

#[test]
fn generate_rules_from_text() {
    let rules = generate_rules("Hello World".to_string());
    assert_eq!(rules.keys().len(), 4);
    assert_eq!(rules.get("hello").unwrap().after, strings(&["world"]));
    assert_eq!(rules.get(END).unwrap().after, strings(&[START]));
    assert_eq!(rules.get(START).unwrap().before, strings(&[END]));
}
