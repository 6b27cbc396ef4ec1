use kiro_gateway::{
    calculate_tools_size, compress_description, compress_tools_if_needed,
    elevate_long_descriptions, simplify_input_schema, JsonValue, Tool,
};

fn tool(name: &str, description: &str, schema: JsonValue) -> Tool {
    Tool {
        name: name.to_string(),
        description: description.to_string(),
        input_schema: schema,
    }
}

/// A plain rendering of a JSON value for structural comparisons.
fn render(v: &JsonValue) -> String {
    match v {
        JsonValue::Null => "null".to_string(),
        JsonValue::Bool(b) => b.to_string(),
        JsonValue::Number(s) => s.clone(),
        JsonValue::String(s) => format!("\"{}\"", s),
        JsonValue::Array(elems) => {
            let inner: Vec<String> = elems.iter().map(render).collect();
            format!("[{}]", inner.join(","))
        }
        JsonValue::Object(fields) => {
            let inner: Vec<String> = fields
                .iter()
                .map(|(k, v)| format!("\"{}\":{}", k, render(v)))
                .collect();
            format!("{{{}}}", inner.join(","))
        }
    }
}

#[test]
fn test_calculate_tools_size_exact() {
    assert_eq!(calculate_tools_size(&Vec::new()), 2);
    // {"name":"","description":"","input_schema":{"json":null}} inside []
    let tools = vec![tool("", "", JsonValue::Null)];
    assert_eq!(calculate_tools_size(&tools), 59);
    // a quote in the description escapes to two bytes
    let tools = vec![tool("", "\"", JsonValue::Null)];
    assert_eq!(calculate_tools_size(&tools), 61);
}

#[test]
fn test_compress_below_threshold_unchanged() {
    let tools = vec![tool("alpha", "a small tool", JsonValue::Null)];
    let (out, sizes) = compress_tools_if_needed(tools);
    assert_eq!(sizes, None);
    assert_eq!(out.len(), 1);
    assert_eq!(out[0].name, "alpha");
    assert_eq!(out[0].description, "a small tool");
}

#[test]
fn test_compress_empty_unchanged() {
    let (out, sizes) = compress_tools_if_needed(Vec::new());
    assert!(out.is_empty());
    assert_eq!(sizes, None);
}

#[test]
fn test_compress_shrinks_descriptions_to_budget() {
    // one tool, 30,000 bytes of description, trivial schema: the schema
    // step saves nothing and the proportional shrink lands exactly on
    // the 20 KiB budget
    let tools = vec![tool("t", &"x".repeat(30000), JsonValue::Null)];
    let (out, sizes) = compress_tools_if_needed(tools);
    let (original, final_size) = sizes.unwrap();
    assert_eq!(original, 30060);
    assert_eq!(final_size, 20480);
    assert_eq!(out[0].description.len(), 20420);
    assert!(out[0].description.ends_with("..."));
}

#[test]
fn test_compress_simplifies_schemas() {
    // an oversized list whose weight sits in schema descriptions: step A
    // alone brings it under budget, and descriptions stay intact
    let fat_schema = JsonValue::Object(vec![
        ("type".to_string(), JsonValue::String("object".to_string())),
        (
            "description".to_string(),
            JsonValue::String("y".repeat(25000)),
        ),
        (
            "properties".to_string(),
            JsonValue::Object(vec![(
                "a".to_string(),
                JsonValue::Object(vec![
                    ("type".to_string(), JsonValue::String("string".to_string())),
                    (
                        "description".to_string(),
                        JsonValue::String("free text".to_string()),
                    ),
                ]),
            )]),
        ),
    ]);
    let tools = vec![tool("t", "keep me", fat_schema)];
    let (out, sizes) = compress_tools_if_needed(tools);
    let (original, final_size) = sizes.unwrap();
    assert!(original > 20480);
    assert!(final_size <= 20480);
    assert_eq!(out[0].description, "keep me");
    assert_eq!(
        render(&out[0].input_schema),
        "{\"type\":\"object\",\"properties\":{\"a\":{\"type\":\"string\"}}}"
    );
}

#[test]
fn test_simplify_input_schema_keeps_structural_keys() {
    let schema = JsonValue::Object(vec![
        ("description".to_string(), JsonValue::String("drop".to_string())),
        ("type".to_string(), JsonValue::String("object".to_string())),
        (
            "enum".to_string(),
            JsonValue::Array(vec![
                JsonValue::String("a".to_string()),
                JsonValue::String("b".to_string()),
            ]),
        ),
        (
            "required".to_string(),
            JsonValue::Array(vec![JsonValue::String("a".to_string())]),
        ),
        (
            "items".to_string(),
            JsonValue::Object(vec![
                ("type".to_string(), JsonValue::String("string".to_string())),
                ("title".to_string(), JsonValue::String("drop".to_string())),
            ]),
        ),
        (
            "anyOf".to_string(),
            JsonValue::Array(vec![JsonValue::Object(vec![
                ("type".to_string(), JsonValue::String("number".to_string())),
                ("minimum".to_string(), JsonValue::Number("3".to_string())),
            ])]),
        ),
    ]);
    let simplified = simplify_input_schema(&schema);
    assert_eq!(
        render(&simplified),
        "{\"type\":\"object\",\"enum\":[\"a\",\"b\"],\"required\":[\"a\"],\"items\":{\"type\":\"string\"},\"anyOf\":[{\"type\":\"number\"}]}"
    );
    // non-objects pass through unchanged
    let passthrough = simplify_input_schema(&JsonValue::Number("1.5".to_string()));
    assert_eq!(render(&passthrough), "1.5");
}

#[test]
fn test_compress_description_exact() {
    let d = "a".repeat(100);
    // fits: unchanged
    assert_eq!(compress_description(&d, 100), d);
    // truncated to the target, ellipsis included
    let shrunk = compress_description(&d, 60);
    assert_eq!(shrunk.len(), 60);
    assert_eq!(shrunk, format!("{}...", "a".repeat(57)));
    // a tiny target is floored at 50 bytes
    let floored = compress_description(&d, 10);
    assert_eq!(floored.len(), 50);
    assert_eq!(floored, format!("{}...", "a".repeat(47)));
    // a short description never gains an ellipsis
    assert_eq!(compress_description("short", 10), "short");
}

#[test]
fn test_compress_description_multibyte_boundary() {
    // 20 three-byte characters, 60 bytes; the cut at byte 49 rounds up to
    // the end of the straddling character
    let d = "你".repeat(20);
    let shrunk = compress_description(&d, 52);
    assert_eq!(shrunk, format!("{}...", "你".repeat(17)));
}

#[test]
fn test_compress_floors_descriptions_when_excess_dominates() {
    // the weight sits in a schema value that simplification keeps, so the
    // excess dwarfs the description mass: every description is cut to
    // the 50-byte floor even though the list cannot reach the budget
    let heavy_schema = JsonValue::Object(vec![(
        "type".to_string(),
        JsonValue::String("z".repeat(30000)),
    )]);
    let tools = vec![tool("t", &"d".repeat(100), heavy_schema)];
    let (out, sizes) = compress_tools_if_needed(tools);
    let (_, final_size) = sizes.unwrap();
    assert!(final_size > 20480);
    assert_eq!(out[0].description.len(), 50);
    assert!(out[0].description.ends_with("..."));
}

#[test]
fn test_elevation_threshold() {
    // 10,001 characters is elevated, exactly 10,000 is not
    let tools = vec![
        tool("big", &"d".repeat(10001), JsonValue::Null),
        tool("small", &"d".repeat(10000), JsonValue::Null),
    ];
    let (out, documentation, count) = elevate_long_descriptions(tools);
    assert_eq!(count, 1);
    assert_eq!(
        out[0].description,
        "[Full documentation in system prompt under '## Tool: big']"
    );
    assert_eq!(out[1].description.len(), 10000);
    assert!(documentation.contains("# Tool Documentation"));
    assert!(documentation.contains("## Tool: big"));
    assert!(documentation.contains(&"d".repeat(10001)));
    assert!(!documentation.contains("## Tool: small"));
}

#[test]
fn test_elevation_threshold_counts_characters() {
    // the threshold counts characters, not bytes: 5,001 two-byte
    // characters are 10,002 bytes yet stay put, 10,001 of them move
    let tools = vec![
        tool("wide_small", &"\u{e9}".repeat(5001), JsonValue::Null),
        tool("wide_big", &"\u{e9}".repeat(10001), JsonValue::Null),
    ];
    let (out, documentation, count) = elevate_long_descriptions(tools);
    assert_eq!(count, 1);
    assert_eq!(out[0].description, "\u{e9}".repeat(5001));
    assert_eq!(
        out[1].description,
        "[Full documentation in system prompt under '## Tool: wide_big']"
    );
    assert!(documentation.contains("## Tool: wide_big"));
    assert!(!documentation.contains("## Tool: wide_small"));
}

#[test]
fn test_elevation_untouched_when_all_fit() {
    let tools = vec![tool("a", "tiny", JsonValue::Null)];
    let (out, documentation, count) = elevate_long_descriptions(tools);
    assert_eq!(count, 0);
    assert_eq!(documentation, "");
    assert_eq!(out[0].description, "tiny");
}
