use credential_mapper::json::Json;
use credential_mapper::markdown::{
    assemble_json, cleanup_string, evaluate_line, json_to_markdown, markdown_to_json, LineKind,
    MarkdownError,
};
use credential_mapper::text::{chars_of, trim, CharClass};

fn text(s: &str) -> Json {
    Json::String(s.to_string())
}

fn object(entries: Vec<(&str, Json)>) -> Json {
    Json::Object(entries.into_iter().map(|(k, v)| (k.to_string(), v)).collect())
}

fn parse(markdown: &str) -> Result<Json, MarkdownError> {
    let mut lines: Vec<&str> = markdown.lines().collect();
    lines.insert(0, "");
    markdown_to_json(&lines)
}

#[test]
fn renders_nested_object() {
    let doc = object(vec![("a", object(vec![("b", text("1"))]))]);
    assert_eq!(json_to_markdown(&doc, 0), "**a**:\n  **b**:\n    1\n");
}

#[test]
fn renders_scalars_and_arrays() {
    assert_eq!(json_to_markdown(&Json::Null, 0), "null\n");
    assert_eq!(json_to_markdown(&Json::Bool(true), 1), "  true\n");
    assert_eq!(json_to_markdown(&Json::Bool(false), 0), "false\n");
    assert_eq!(json_to_markdown(&Json::Number("12.5".to_string()), 2), "    12.5\n");
    let list = object(vec![("l", Json::Array(vec![text("x"), text("y")]))]);
    assert_eq!(json_to_markdown(&list, 0), "**l**:\n  -     x\n  -     y\n");
    let objects = object(vec![(
        "l",
        Json::Array(vec![
            object(vec![("k", text("v1")), ("m", text("w"))]),
            object(vec![("k", text("v2"))]),
        ]),
    )]);
    assert_eq!(
        json_to_markdown(&objects, 0),
        "**l**:\n  -     **k**:\n      v1\n    **m**:\n      w\n  -     **k**:\n      v2\n"
    );
}

#[test]
fn classifies_lines() {
    assert_eq!(evaluate_line(""), (LineKind::Blank, 0));
    assert_eq!(evaluate_line("**a**:"), (LineKind::ObjectKey, 0));
    assert_eq!(evaluate_line("    **a**:"), (LineKind::ObjectKey, 2));
    assert_eq!(evaluate_line("  - item"), (LineKind::ArrayItem, 1));
    assert_eq!(evaluate_line("  -     **k**:"), (LineKind::ArrayOfObjects, 2));
    assert_eq!(evaluate_line("   plain text"), (LineKind::Value, 1));
    assert_eq!(evaluate_line("   "), (LineKind::Value, 1));
}

#[test]
fn cleans_keys_and_values() {
    assert_eq!(cleanup_string("  **key**:"), "\"key\"");
    assert_eq!(cleanup_string("  -     **key**:"), "\"key\"");
    assert_eq!(cleanup_string("  - item"), "\"item\"");
    assert_eq!(cleanup_string("    well-known value "), "\"well-known value\"");
    assert_eq!(cleanup_string(""), "\"\"");
    assert_eq!(cleanup_string("   "), "\"\"");
}

#[test]
fn cleaning_takes_the_markup_and_nothing_else() {
    assert_eq!(cleanup_string("  - a - b"), "\"a - b\"");
    assert_eq!(cleanup_string("  -     - twice"), "\"- twice\"");
    assert_eq!(cleanup_string("  **a**:b**:"), "\"a**:b\"");
    assert_eq!(cleanup_string("  **a*-*b**:"), "\"a*-*b\"");
    assert_eq!(cleanup_string("  ****:"), "\"\"");
    assert_eq!(cleanup_string("  -     **a-b **:"), "\"a-b \"");
    assert_eq!(cleanup_string("    2 * 3 **: 6"), "\"2 * 3 **: 6\"");
    assert_eq!(cleanup_string("    *starred*"), "\"*starred*\"");
    assert_eq!(cleanup_string("  **open"), "\"open\"");
}

#[test]
fn cleaning_escapes_what_a_json_string_cannot_hold() {
    assert_eq!(cleanup_string("  say \"hi\""), "\"say \\\"hi\\\"\"");
    assert_eq!(cleanup_string("  C:\\dir"), "\"C:\\\\dir\"");
    assert_eq!(cleanup_string("  a\tb"), "\"a\\u0009b\"");
    assert_eq!(cleanup_string("  a\u{1f}b\u{0}"), "\"a\\u001fb\\u0000\"");
    assert_eq!(cleanup_string("  \u{7f}\u{e9}/"), "\"\u{7f}\u{e9}/\"");
    for code in 0u32..=0xffff {
        if let Some(c) = char::from_u32(code) {
            let line = format!("  x{}x", c);
            let cleaned = cleanup_string(&line);
            let read: serde_json::Value = serde_json::from_str(&cleaned).unwrap();
            assert_eq!(read, serde_json::Value::String(format!("x{}x", c)), "{:x}", code);
        }
    }
}

#[test]
fn whitespace_is_what_std_calls_whitespace() {
    for code in 0u32..=0x10ffff {
        if let Some(c) = char::from_u32(code) {
            assert_eq!(CharClass::Whitespace.contains(c), c.is_whitespace(), "{:x}", code);
        }
    }
    assert_eq!(trim(&chars_of("\u{3000} a b\t\n"), CharClass::Whitespace), chars_of("a b"));
    assert_eq!(trim(&chars_of("  "), CharClass::Whitespace), chars_of(""));
    assert_eq!(trim(&chars_of("**a*b**"), CharClass::Exactly('*')), chars_of("a*b"));
}

#[test]
fn assembles_nested_object() {
    let lines = vec!["", "**a**:", "  **b**:", "    1"];
    assert_eq!(assemble_json(&lines), Ok("{\"a\":{\"b\":\"1\"}}".to_string()));
}

#[test]
fn assembles_siblings_after_nested_object() {
    let lines = vec!["", "**a**:", "  **b**:", "    1", "  **c**:", "    2", "**d**:", "  3"];
    assert_eq!(
        assemble_json(&lines),
        Ok("{\"a\":{\"b\":\"1\",\"c\":\"2\"},\"d\":\"3\"}".to_string())
    );
}

#[test]
fn assembles_arrays() {
    let lines = vec!["", "**l**:", "  -     x", "  -     y", "**n**:", "  z"];
    assert_eq!(assemble_json(&lines), Ok("{\"l\":[\"x\",\"y\"],\"n\":\"z\"}".to_string()));
    let objects =
        vec!["", "**l**:", "  -     **k**:", "      v1", "    **m**:", "      w", "  -     **k**:", "      v2"];
    assert_eq!(
        assemble_json(&objects),
        Ok("{\"l\":[{\"k\":\"v1\",\"m\":\"w\"},{\"k\":\"v2\"}]}".to_string())
    );
}

#[test]
fn reports_the_line_that_fits_nowhere() {
    assert_eq!(assemble_json(&["**a**:", "  1"]), Err(MarkdownError::Structure { line: 0 }));
    assert_eq!(assemble_json(&["", "  1"]), Err(MarkdownError::Structure { line: 1 }));
    assert_eq!(assemble_json(&["", "**a**:", "**b**:"]), Err(MarkdownError::Structure { line: 2 }));
    assert_eq!(
        assemble_json(&["", "**a**:", "      **b**:"]),
        Err(MarkdownError::Structure { line: 2 })
    );
    assert_eq!(
        assemble_json(&["", "**a**:", "  - x", "  **b**:"]),
        Err(MarkdownError::Structure { line: 3 })
    );
    assert_eq!(
        assemble_json(&["", "**a**:", "  - x", "  -     **k**:", "      v"]),
        Err(MarkdownError::Structure { line: 3 })
    );
    assert_eq!(
        assemble_json(&["", "**a**:", "  -     **k**:", "      v", "  - x"]),
        Err(MarkdownError::Structure { line: 4 })
    );
    assert_eq!(assemble_json(&["", "**a**:"]), Err(MarkdownError::Structure { line: 2 }));
    assert_eq!(assemble_json(&[]), Err(MarkdownError::Structure { line: 0 }));
}

#[test]
fn markdown_round_trip() {
    let doc = object(vec![("a", object(vec![("b", text("1"))]))]);
    let markdown = json_to_markdown(&doc, 0);
    assert_eq!(markdown, "**a**:\n  **b**:\n    1\n");
    assert_eq!(parse(&markdown), Ok(doc));
}

#[test]
fn markdown_round_trip_with_arrays_of_objects() {
    let doc = object(vec![
        ("name", text("badge")),
        (
            "results",
            Json::Array(vec![
                object(vec![("level", text("one")), ("note", text("first"))]),
                object(vec![("level", text("two"))]),
            ]),
        ),
        ("tags", Json::Array(vec![text("x"), text("y")])),
        ("issuer", object(vec![("id", text("urn:x")), ("label", text("school"))])),
    ]);
    assert_eq!(parse(&json_to_markdown(&doc, 0)), Ok(doc));
}

#[test]
fn text_without_bold_is_one_string() {
    assert_eq!(markdown_to_json(&["", "plain", " text"]), Ok(text("plain text")));
    assert_eq!(markdown_to_json(&[]), Ok(text("")));
}

#[test]
fn nesting_deeper_than_the_reader_follows_is_invalid_json() {
    let mut markdown = String::new();
    for depth in 0..200 {
        markdown.push_str(&"  ".repeat(depth));
        markdown.push_str("**k**:\n");
    }
    markdown.push_str(&"  ".repeat(200));
    markdown.push_str("v\n");
    assert_eq!(parse(&markdown), Err(MarkdownError::InvalidJson));
}

#[test]
fn quotes_and_backslashes_are_read_as_they_stand() {
    assert_eq!(
        parse("**a**:\n  say \"hi\"\n**b\\c**:\n  - C:\\dir\n  - \"\n"),
        Ok(object(vec![
            ("a", text("say \"hi\"")),
            ("b\\c", Json::Array(vec![text("C:\\dir"), text("\"")])),
        ]))
    );
    assert_eq!(parse("**a**:\n  x\ty\u{1}\n"), Ok(object(vec![("a", text("x\ty\u{1}"))])));
}

#[test]
fn texts_with_quotes_dashes_and_stars_come_back_as_they_were() {
    let doc = object(vec![
        ("say \"hi\"", text("well-known \"value\" \\ 2 * 3 ** 4")),
        ("a-b*c**:d", text("x -- y **: z")),
        (
            "list",
            Json::Array(vec![text("- dashed"), text("**bold**"), text("a\\b\"c"), text("")]),
        ),
        ("objects", Json::Array(vec![object(vec![("k-\"1\"", text("v\\"))])])),
        ("tab", text("a\tb")),
    ]);
    assert_eq!(parse(&json_to_markdown(&doc, 0)), Ok(doc));
}

#[test]
fn what_the_lines_cannot_hold_comes_back_changed() {
    let number = object(vec![("a", Json::Number("1".to_string()))]);
    assert_eq!(parse(&json_to_markdown(&number, 0)), Ok(object(vec![("a", text("1"))])));
    let padded = object(vec![("a", text(" x "))]);
    assert_eq!(parse(&json_to_markdown(&padded, 0)), Ok(object(vec![("a", text("x"))])));
    let dashed = object(vec![("a", text("- x"))]);
    assert_eq!(
        parse(&json_to_markdown(&dashed, 0)),
        Ok(object(vec![("a", Json::Array(vec![text("x")]))]))
    );
    let marked = object(vec![("a", Json::Array(vec![text("x**:")]))]);
    assert_eq!(parse(&json_to_markdown(&marked, 0)), Err(MarkdownError::Structure { line: 3 }));
    let empty = object(vec![("a", object(vec![]))]);
    assert_eq!(parse(&json_to_markdown(&empty, 0)), Err(MarkdownError::Structure { line: 2 }));
}

#[test]
fn plain_documents_come_back_as_they_were() {
    let doc = object(vec![
        ("title", text("Data and software business")),
        ("empty", text("")),
        (
            "nested",
            object(vec![
                ("list", Json::Array(vec![text("one"), text(""), text("three: 3")])),
                ("deeper", object(vec![("key with spaces", text("value, with \u{e9}"))])),
            ]),
        ),
        (
            "objects",
            Json::Array(vec![
                object(vec![("k", Json::Array(vec![object(vec![("in", text("most"))])]))]),
                object(vec![("k", text("v")), ("l", object(vec![("m", text("n"))]))]),
            ]),
        ),
        ("last", text("end")),
    ]);
    assert_eq!(parse(&json_to_markdown(&doc, 0)), Ok(doc));
}
