use kiro_gateway::{
    detect_truncation, extract_partial_fields, is_write_tool, looks_like_truncated_json,
    required_fields, JsonValue, TruncationType,
};

fn obj(fields: Vec<(&str, JsonValue)>) -> JsonValue {
    JsonValue::Object(
        fields
            .into_iter()
            .map(|(k, v)| (k.to_string(), v))
            .collect(),
    )
}

fn s(v: &str) -> JsonValue {
    JsonValue::String(v.to_string())
}

#[test]
fn test_empty_input_beats_everything() {
    // rule one fires on empty or all-whitespace input, whatever the tool
    for name in ["fsWrite", "unknown_tool", "Bash"] {
        let info = detect_truncation(name, "id", "", None);
        assert!(info.is_truncated);
        assert_eq!(info.truncation_type, TruncationType::EmptyInput);
        assert_eq!(
            info.error_message,
            "Tool input was completely empty - API response may have been truncated"
        );
    }
    let info = detect_truncation("fsWrite", "id", " \t\n ", None);
    assert_eq!(info.truncation_type, TruncationType::EmptyInput);
    // Unicode whitespace counts too: a lone no-break space is empty input
    let info = detect_truncation("fsWrite", "id", "\u{a0}\u{2003}", None);
    assert_eq!(info.truncation_type, TruncationType::EmptyInput);
}

#[test]
fn test_complete_object_is_not_truncated() {
    let parsed = obj(vec![("path", s("a.txt"))]);
    let info = detect_truncation("edit_file", "id", "{\"path\": \"a.txt\"}", Some(&parsed));
    assert!(!info.is_truncated);
    assert_eq!(info.truncation_type, TruncationType::NotTruncated);
    assert_eq!(info.error_message, "");
}

#[test]
fn test_missing_fields_names_the_absent_ones() {
    let parsed = obj(vec![("path", s("a.txt"))]);
    let info = detect_truncation("fsWrite", "id", "{\"path\": \"a.txt\"}", Some(&parsed));
    assert!(info.is_truncated);
    assert_eq!(info.truncation_type, TruncationType::MissingFields);
    assert_eq!(
        info.error_message,
        "Tool 'fsWrite' missing required fields: content"
    );
    assert_eq!(info.parsed_fields.len(), 1);
    assert_eq!(info.parsed_fields[0].0, "path");
    assert_eq!(info.parsed_fields[0].1, "a.txt");
}

#[test]
fn test_unterminated_string_is_invalid_json() {
    let raw = "{\"path\": \"a.txt\", \"content\": \"x";
    let info = detect_truncation("fsWrite", "id", raw, None);
    assert!(info.is_truncated);
    assert_eq!(info.truncation_type, TruncationType::InvalidJson);
    assert_eq!(
        info.error_message,
        "Tool input JSON was truncated mid-transmission (31 bytes received)"
    );
    // best-effort extraction still reports both keys
    assert_eq!(info.parsed_fields.len(), 2);
    assert_eq!(info.parsed_fields[0].0, "path");
    assert_eq!(info.parsed_fields[0].1, "\"a.txt\"");
    assert_eq!(info.parsed_fields[1].0, "content");
    assert_eq!(info.parsed_fields[1].1, "\"x");
}

#[test]
fn test_incomplete_string_unclosed_fence() {
    let parsed = obj(vec![
        ("path", s("a.rs")),
        ("content", s("```rust\nfn main() {}")),
    ]);
    let info = detect_truncation("fsWrite", "id", "{\"path\": \"a.rs\", \"content\": \"..\"}", Some(&parsed));
    assert!(info.is_truncated);
    assert_eq!(info.truncation_type, TruncationType::IncompleteString);
    assert_eq!(
        info.error_message,
        "content contains unclosed code fence (```) suggesting truncation"
    );
}

#[test]
fn test_incomplete_string_suspiciously_short() {
    let mut raw = String::from("{\"path\": \"a.rs\", \"content\": \"hi\", \"pad\": \"");
    raw.push_str(&"p".repeat(1500));
    raw.push_str("\"}");
    let parsed = obj(vec![
        ("path", s("a.rs")),
        ("content", s("hi")),
        ("pad", s(&"p".repeat(1500))),
    ]);
    let info = detect_truncation("fsWrite", "id", &raw, Some(&parsed));
    assert!(info.is_truncated);
    assert_eq!(info.truncation_type, TruncationType::IncompleteString);
    assert_eq!(
        info.error_message,
        "content field appears suspiciously short compared to raw input size"
    );
}

#[test]
fn test_balanced_fences_pass() {
    let parsed = obj(vec![
        ("path", s("a.rs")),
        ("content", s("```rust\nfn main() {}\n```")),
    ]);
    let info = detect_truncation(
        "fsWrite",
        "id",
        "{\"path\": \"a.rs\", \"content\": \"..\"}",
        Some(&parsed),
    );
    assert!(!info.is_truncated);
}

#[test]
fn test_non_write_tools_skip_content_checks() {
    let parsed = obj(vec![
        ("command", s("ls")),
        ("content", s("```unclosed")),
    ]);
    let info = detect_truncation(
        "Bash",
        "id",
        "{\"command\": \"ls\", \"content\": \"```unclosed\"}",
        Some(&parsed),
    );
    assert!(!info.is_truncated);
}

#[test]
fn test_looks_like_truncated_json_heuristics() {
    // more opens than closes
    assert!(looks_like_truncated_json("{\"a\": 1"));
    // bad final character
    assert!(looks_like_truncated_json("{\"a\": 1},"));
    // odd number of unescaped quotes
    assert!(looks_like_truncated_json("{\"a\": \"b}"));
    // escaped quotes do not count
    assert!(!looks_like_truncated_json("{\"a\": \"b\\\"c\"}"));
    // complete objects pass
    assert!(!looks_like_truncated_json("{}"));
    assert!(!looks_like_truncated_json("{\"a\": [1, 2]}"));
    // only object-like text is considered
    assert!(!looks_like_truncated_json("[1, 2"));
    assert!(!looks_like_truncated_json(""));
}

#[test]
fn test_extract_partial_fields_top_level_commas() {
    // the comma inside the nested object does not split the piece
    let fields = extract_partial_fields("{\"a\": {\"x\": 1, \"y\": 2}, \"b\": 3");
    assert_eq!(fields.len(), 2);
    assert_eq!(fields[0].0, "a");
    assert_eq!(fields[0].1, "{\"x\": 1, \"y\": 2}");
    assert_eq!(fields[1].0, "b");
    assert_eq!(fields[1].1, "3");
}

#[test]
fn test_extract_partial_fields_previews_long_values() {
    let mut raw = String::from("{\"key\": \"");
    raw.push_str(&"v".repeat(80));
    let fields = extract_partial_fields(&raw);
    assert_eq!(fields.len(), 1);
    assert_eq!(fields[0].0, "key");
    // 50 characters plus the ellipsis
    assert_eq!(fields[0].1.len(), 53);
    assert!(fields[0].1.ends_with("..."));
}

#[test]
fn test_extract_partial_fields_previews_count_characters() {
    // forty two-byte characters are eighty bytes but only forty
    // characters, so no ellipsis is added
    let mut raw = String::from("{\"key\": ");
    raw.push_str(&"\u{e9}".repeat(40));
    let fields = extract_partial_fields(&raw);
    assert_eq!(fields.len(), 1);
    assert_eq!(fields[0].1, "\u{e9}".repeat(40));
}

#[test]
fn test_extract_partial_fields_last_duplicate_wins() {
    // a repeated name keeps one entry, the last preview, at the position
    // where the name first appeared
    let fields = extract_partial_fields("{\"a\": 1, \"b\": 2, \"a\": 3");
    assert_eq!(fields.len(), 2);
    assert_eq!(fields[0].0, "a");
    assert_eq!(fields[0].1, "3");
    assert_eq!(fields[1].0, "b");
    assert_eq!(fields[1].1, "2");
}

#[test]
fn test_required_fields_table() {
    assert_eq!(required_fields("Write"), vec!["file_path", "content"]);
    assert_eq!(required_fields("write_to_file"), vec!["path", "content"]);
    assert_eq!(required_fields("fsWrite"), vec!["path", "content"]);
    assert_eq!(required_fields("create_file"), vec!["path", "content"]);
    assert_eq!(required_fields("edit_file"), vec!["path"]);
    assert_eq!(required_fields("apply_diff"), vec!["path", "diff"]);
    assert_eq!(
        required_fields("str_replace_editor"),
        vec!["path", "old_str", "new_str"]
    );
    assert_eq!(required_fields("Bash"), vec!["command"]);
    assert_eq!(required_fields("execute"), vec!["command"]);
    assert_eq!(required_fields("run_command"), vec!["command"]);
    assert!(required_fields("unknown").is_empty());
}

#[test]
fn test_is_write_tool_table() {
    for name in [
        "Write",
        "write_to_file",
        "fsWrite",
        "create_file",
        "edit_file",
        "apply_diff",
        "str_replace_editor",
        "insert",
    ] {
        assert!(is_write_tool(name));
    }
    assert!(!is_write_tool("Bash"));
    assert!(!is_write_tool("read_file"));
}

#[test]
fn test_null_and_non_string_previews() {
    let parsed = obj(vec![
        ("path", JsonValue::Null),
        ("count", JsonValue::Number("7".to_string())),
    ]);
    let info = detect_truncation("apply_diff", "id", "{\"path\": null, \"count\": 7}", Some(&parsed));
    assert_eq!(info.truncation_type, TruncationType::MissingFields);
    assert_eq!(
        info.error_message,
        "Tool 'apply_diff' missing required fields: diff"
    );
    assert_eq!(info.parsed_fields.len(), 2);
    assert_eq!(info.parsed_fields[0].1, "<null>");
    assert_eq!(info.parsed_fields[1].1, "<present>");
}

#[test]
fn test_empty_parsed_object_counts_as_unparsed() {
    // an empty object is treated as no parse; the raw text is complete
    // JSON, so nothing fires
    let parsed = obj(vec![]);
    let info = detect_truncation("fsWrite", "id", "{}", Some(&parsed));
    assert!(!info.is_truncated);
    assert_eq!(info.truncation_type, TruncationType::NotTruncated);
}
