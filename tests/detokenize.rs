use wfc::post_processing::{merge, remove_double_char};
use wfc::rules::{END, START};

#[test]
fn post_processing_test_remove_double_char_sanity() {
    let string = "hello          there".to_string();
    let result = remove_double_char(string, ' ');

    assert_eq!(result, "hello there".to_string());
}

#[test]
fn remove_double_char_keeps_single_runs() {
    assert_eq!(remove_double_char("a\n\n\nb\nc".to_string(), '\n'), "a\nb\nc".to_string());
    assert_eq!(remove_double_char(String::new(), ' '), String::new());
    assert_eq!(remove_double_char("  ".to_string(), ' '), " ".to_string());
}

#[test]
fn post_processing_test_merge_sanity() {
    let vector = vec![
        START.to_string(),
        "hello".to_string(),
        "world".to_string(),
        END.to_string(),
    ];

    assert_eq!(merge(vector), "hello world\n".to_string());
}

#[test]
fn merge_closing_mark() {
    let vector = vec![
        START.to_string(),
        "hello".to_string(),
        "world".to_string(),
        "!".to_string(),
        END.to_string(),
    ];

    assert_eq!(merge(vector), "hello world!\n".to_string());
}

#[test]
fn post_processing_test_merge_tokens() {
    let vector = vec![
        START.to_string(),
        "hello".to_string(),
        "world".to_string(),
        "!".to_string(),
        "is".to_string(),
        "this".to_string(),
        "(".to_string(),
        "thing".to_string(),
        ")".to_string(),
        ",".to_string(),
        "working".to_string(),
        "?".to_string(),
        END.to_string(),
    ];

    assert_eq!(
        merge(vector),
        "hello world! is this (thing), working?\n".to_string()
    );
}

#[test]
fn post_processing_test_merge_multiline() {
    let vector = vec![
        START.to_string(),
        "hello".to_string(),
        "world".to_string(),
        "!".to_string(),
        END.to_string(),
        START.to_string(),
        "is".to_string(),
        "this".to_string(),
        "(".to_string(),
        "thing".to_string(),
        ")".to_string(),
        ",".to_string(),
        "working".to_string(),
        "?".to_string(),
        END.to_string(),
    ];

    assert_eq!(
        merge(vector),
        "hello world!\nis this (thing), working?\n".to_string()
    );
}

#[test]
fn merge_of_nothing_is_empty() {
    assert_eq!(merge(vec![]), String::new());
    assert_eq!(merge(vec!["a;".to_string(), ";".to_string()]), "a;;".to_string());
}
