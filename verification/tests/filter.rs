use ft_filter::filter::document_text;

#[test]
fn jsonl_record_gives_its_text_field() {
    let r = document_text(r#"{"id":3,"text":"hello world"}"#, true, "text");
    assert_eq!(r, Some("hello world".to_string()));
}

#[test]
fn jsonl_text_field_keeps_escaped_newlines() {
    let r = document_text(r#"{"text":"a\nb \u00e9"}"#, true, "text");
    assert_eq!(r, Some("a\nb \u{e9}".to_string()));
}

#[test]
fn jsonl_other_key_is_read() {
    let r = document_text(r#"{"text":"x","body":"y z"}"#, true, "body");
    assert_eq!(r, Some("y z".to_string()));
}

#[test]
fn jsonl_missing_key_gives_none() {
    assert_eq!(document_text(r#"{"body":"y"}"#, true, "text"), None);
}

#[test]
fn jsonl_non_string_field_gives_none() {
    assert_eq!(document_text(r#"{"text":12}"#, true, "text"), None);
    assert_eq!(document_text(r#"{"text":["a"]}"#, true, "text"), None);
    assert_eq!(document_text(r#"{"text":null}"#, true, "text"), None);
}

#[test]
fn jsonl_non_object_gives_none() {
    assert_eq!(document_text(r#"["text","a"]"#, true, "text"), None);
    assert_eq!(document_text(r#""text""#, true, "text"), None);
}

#[test]
fn jsonl_invalid_json_gives_none() {
    assert_eq!(document_text(r#"{"text":"unterminated"#, true, "text"), None);
    assert_eq!(document_text("plain words", true, "text"), None);
}

#[test]
fn plain_record_is_scored_whole() {
    let line = r#"{"text":"a"} and more"#;
    assert_eq!(document_text(line, false, "text"), Some(line.to_string()));
}
