use personal_ranker::json::display_value;
use personal_ranker::import::{
    decode_utf8, import_format, ImportError, ImportService, ImportSourceType, ImportedFieldType,
    ImportedItem,
};
use personal_ranker::json::JsonValue;

fn text(value: &str) -> JsonValue {
    JsonValue::String(value.to_string())
}

fn number(value: &str) -> JsonValue {
    JsonValue::Number(value.to_string())
}

/// An object with its members sorted by key, as a parsed document holds it.
fn object(members: Vec<(&str, JsonValue)>) -> JsonValue {
    let mut members: Vec<(String, JsonValue)> =
        members.into_iter().map(|(k, v)| (k.to_string(), v)).collect();
    members.sort_by(|a, b| a.0.cmp(&b.0));
    JsonValue::Object(members)
}

fn field<'a>(item: &'a ImportedItem, name: &str) -> &'a JsonValue {
    &item.fields.iter().find(|(key, _)| key == name).unwrap().1
}

fn text_of(value: &JsonValue) -> &str {
    match value {
        JsonValue::String(s) => s.as_str(),
        other => panic!("not a text value: {other:?}"),
    }
}

#[test]
fn imports_text_and_removes_empty_lines() {
    let result = ImportService::import_text(" 第一项 \n\n第二项\n", false).unwrap();
    assert_eq!(result.items.len(), 2);
    assert_eq!(result.removed_empty_count, 1);
    assert_eq!(result.items[0].original_index, 0);
    assert_eq!(result.items[1].original_index, 2);
    assert_ne!(result.items[0].id, result.items[1].id);
}

#[test]
fn imports_markdown_table_and_escaped_pipes() {
    let result = ImportService::import_markdown(
        "| 名称 | 说明 | 图片 |\n| --- | :--- | ---: |\n| A | 甲\\|乙 | ./a.png |\n| B | 丙 | https://example.com/b.webp |",
        false,
    )
    .unwrap();
    assert_eq!(result.source_type, ImportSourceType::Markdown);
    assert_eq!(result.items.len(), 2);
    assert_eq!(text_of(field(&result.items[0], "说明")), "甲|乙");
    assert_eq!(result.fields[2].field_type, ImportedFieldType::Image);
}

#[test]
fn imports_ordered_and_unordered_markdown_lists() {
    let result = ImportService::import_markdown("- 第一项\n* 第二项\n3. 第三项", false).unwrap();
    assert_eq!(result.items.len(), 3);
    assert_eq!(text_of(field(&result.items[2], "内容")), "第三项");
}

#[test]
fn rejects_markdown_without_a_table_or_list() {
    assert!(matches!(
        ImportService::import_markdown("# 标题\n普通段落", false),
        Err(ImportError::InvalidMarkdown)
    ));
}

#[test]
fn optionally_deduplicates_without_losing_original_index() {
    let result = ImportService::import_text("A\nA\nB", true).unwrap();
    assert_eq!(result.items.len(), 2);
    assert_eq!(result.duplicate_count, 1);
    assert_eq!(result.items[1].original_index, 2);
}

#[test]
fn imports_csv_bom_and_normalizes_headers() {
    let result = ImportService::import_csv("\u{feff}名称,,名称\nA,x,1\nB,y,2", false).unwrap();
    let names: Vec<_> = result.fields.iter().map(|field| field.name.as_str()).collect();
    assert_eq!(names, ["名称", "字段2", "名称_2"]);
    assert_eq!(result.items.len(), 2);
    assert_eq!(result.fields[2].field_type, ImportedFieldType::Number);
    assert_eq!(result.fields[0].empty_count, 0);
    assert_eq!(result.fields[0].unique_count, 2);
    assert_eq!(result.fields[0].samples.len(), 2);
}

#[test]
fn infers_dates_and_recalculates_stats_after_deduplication() {
    let result = ImportService::import_csv(
        "name,date,note\nA,2026-08-01,\nA,2026-08-01,\nB,2026-08-02,x",
        true,
    )
    .unwrap();
    assert_eq!(result.items.len(), 2);
    assert_eq!(result.fields[1].field_type, ImportedFieldType::Date);
    assert_eq!(result.fields[0].unique_count, 2);
    assert_eq!(result.fields[2].empty_count, 1);
}

#[test]
fn reports_csv_line_for_malformed_record() {
    let error = ImportService::import_csv("a,b\n1,2\n3", false).unwrap_err();
    assert!(matches!(error, ImportError::InvalidCsv { line: 3, .. }));
}

/// `{"data":{"items":[{"name":"A","score":1},{"name":"B","score":2}]}}`
fn nested_document() -> JsonValue {
    object(vec![(
        "data",
        object(vec![(
            "items",
            JsonValue::Array(vec![
                object(vec![("name", text("A")), ("score", number("1"))]),
                object(vec![("name", text("B")), ("score", number("2"))]),
            ]),
        )]),
    )])
}

#[test]
fn lists_and_imports_nested_json_array() {
    let content = nested_document();
    let nodes = ImportService::list_json_array_nodes(&content).unwrap();
    assert_eq!(nodes.len(), 1);
    assert_eq!(nodes[0].pointer, "/data/items");
    assert_eq!(nodes[0].item_count, 2);
    let result = ImportService::import_json(&content, Some("/data/items"), false).unwrap();
    assert_eq!(result.items.len(), 2);
    assert_eq!(result.fields[1].field_type, ImportedFieldType::Number);
}

#[test]
fn supports_json_pointer_escaped_keys() {
    // {"a/b":{"~items":[{"v":1},{"v":2}]}}
    let content = object(vec![(
        "a/b",
        object(vec![(
            "~items",
            JsonValue::Array(vec![
                object(vec![("v", number("1"))]),
                object(vec![("v", number("2"))]),
            ]),
        )]),
    )]);
    let nodes = ImportService::list_json_array_nodes(&content).unwrap();
    assert_eq!(nodes[0].pointer, "/a~1b/~0items");
}

#[test]
fn rejects_non_object_json_items() {
    let content = JsonValue::Array(vec![number("1"), number("2")]);
    let error = ImportService::import_json(&content, None, false).unwrap_err();
    assert!(matches!(error, ImportError::JsonItemNotObject { index: 0 }));
}

#[test]
fn rejects_too_few_items_after_cleanup() {
    let error = ImportService::import_text("only one", false).unwrap_err();
    assert!(matches!(error, ImportError::TooFewItems { found: 1, required: 2 }));
}

#[test]
fn rejects_invalid_utf8_file() {
    let error = decode_utf8(&[0xFF, 0xFE]).unwrap_err();
    assert!(matches!(error, ImportError::InvalidEncoding));
}

#[test]
fn imports_all_supported_formats_from_files() {
    let samples = [
        ("items.txt", "A\nB", ImportSourceType::Text),
        ("items.csv", "name\nA\nB", ImportSourceType::Csv),
        ("items.json", r#"[{"name":"A"},{"name":"B"}]"#, ImportSourceType::Json),
        ("items.md", "- 第一项\n- 第二项", ImportSourceType::Markdown),
    ];
    for (filename, content, expected_type) in samples {
        let format = import_format(filename).unwrap();
        assert_eq!(format, expected_type);
        let content = decode_utf8(content.as_bytes()).unwrap();
        let result = match format {
            ImportSourceType::Text => ImportService::import_text(&content, false),
            ImportSourceType::Csv => ImportService::import_csv(&content, false),
            ImportSourceType::Markdown => ImportService::import_markdown(&content, false),
            ImportSourceType::Json => {
                let document = JsonValue::Array(vec![
                    object(vec![("name", text("A"))]),
                    object(vec![("name", text("B"))]),
                ]);
                ImportService::import_json(&document, None, false)
            }
        }
        .unwrap();
        assert_eq!(result.source_type, expected_type);
        assert_eq!(result.items.len(), 2);
    }
}

#[test]
fn reports_when_json_has_no_usable_object_array() {
    // {"values":[1,2]}
    let content = object(vec![(
        "values",
        JsonValue::Array(vec![number("1"), number("2")]),
    )]);
    let error = ImportService::list_json_array_nodes(&content).unwrap_err();
    assert!(matches!(error, ImportError::NoUsableJsonArray));
}

#[test]
fn decoding_drops_a_byte_order_mark() {
    let text = decode_utf8(&[0xEF, 0xBB, 0xBF, b'a', 0xE4, 0xB8, 0xAD]).unwrap();
    assert_eq!(text, "a中");
}

#[test]
fn format_is_chosen_by_extension_without_case() {
    assert_eq!(import_format("/data/List.MD").unwrap(), ImportSourceType::Markdown);
    assert_eq!(import_format("notes.markdown").unwrap(), ImportSourceType::Markdown);
    assert_eq!(import_format("a.TXT").unwrap(), ImportSourceType::Text);
    match import_format("scores.XLSX").unwrap_err() {
        ImportError::UnsupportedFormat(extension) => assert_eq!(extension, "xlsx"),
        other => panic!("unexpected error {other:?}"),
    }
    match import_format("no_extension").unwrap_err() {
        ImportError::UnsupportedFormat(extension) => assert_eq!(extension, ""),
        other => panic!("unexpected error {other:?}"),
    }
}

#[test]
fn import_errors_carry_codes_and_messages() {
    let error = ImportError::TooFewItems { found: 1, required: 2 };
    assert_eq!(error.code(), "IMPORT_TOO_FEW_ITEMS");
    assert_eq!(
        error.message(),
        "清理空条目和去重后仅剩 1 个条目；至少需要 2 个条目才能继续。"
    );
    let error = ImportError::InvalidJson { line: 3, column: 14, reason: "EOF".into() };
    assert_eq!(error.message(), "JSON 解析失败（第 3 行，第 14 列）：EOF");
    assert_eq!(ImportError::InvalidCsv { line: 7, reason: "x".into() }.message(), "CSV 第 7 行解析失败：x");
}

#[test]
fn listed_pointers_select_their_arrays() {
    // {"a/b":{"~items":[{"v":1},{"v":2}]}, "list":[{"k":"x"},{"k":"y"},{"k":"z"}]}
    let content = object(vec![
        (
            "a/b",
            object(vec![(
                "~items",
                JsonValue::Array(vec![object(vec![("v", number("1"))]), object(vec![("v", number("2"))])]),
            )]),
        ),
        (
            "list",
            JsonValue::Array(vec![
                object(vec![("k", text("x"))]),
                object(vec![("k", text("y"))]),
                object(vec![("k", text("z"))]),
            ]),
        ),
    ]);
    let nodes = ImportService::list_json_array_nodes(&content).unwrap();
    assert_eq!(nodes.len(), 2);
    for node in &nodes {
        let result = ImportService::import_json(&content, Some(&node.pointer), false).unwrap();
        assert_eq!(result.items.len(), node.item_count);
    }
    assert!(matches!(
        ImportService::import_json(&content, Some("/missing"), false),
        Err(ImportError::JsonNodeNotFound(pointer)) if pointer == "/missing"
    ));
}

#[test]
fn values_are_shown_as_labels() {
    assert_eq!(display_value(None), "—");
    assert_eq!(display_value(Some(&JsonValue::Null)), "—");
    assert_eq!(display_value(Some(&text("名称"))), "名称");
    assert_eq!(display_value(Some(&number("2.5"))), "2.5");
    assert_eq!(display_value(Some(&JsonValue::Array(vec![text("a\"b"), JsonValue::Bool(true)]))), "[\"a\\\"b\",true]");
}
