use knora::json::{parse_json, JsonValue};
use knora::processor::DocumentProcessor;

#[test]
fn test_json_extraction() {
    let processor = DocumentProcessor::new(1000, 100);
    let json = JsonValue::Object(vec![
        ("name".to_string(), JsonValue::String("test".to_string())),
        (
            "items".to_string(),
            JsonValue::Array(vec![
                JsonValue::Number("1".to_string()),
                JsonValue::Number("2".to_string()),
                JsonValue::Number("3".to_string()),
            ]),
        ),
    ]);
    let text = processor.json_to_text(&json);
    assert!(!text.is_empty());
    assert!(text.contains("test"));
}

#[test]
fn json_value_is_rendered_line_by_line() {
    let processor = DocumentProcessor::new(1000, 100);
    let json = JsonValue::Object(vec![
        ("name".to_string(), JsonValue::String("test".to_string())),
        (
            "items".to_string(),
            JsonValue::Array(vec![
                JsonValue::Number("1".to_string()),
                JsonValue::Bool(true),
                JsonValue::Null,
                JsonValue::Bool(false),
            ]),
        ),
        ("none".to_string(), JsonValue::Null),
    ]);
    assert_eq!(processor.json_to_text(&json), "name: test\nitems: 1\ntrue\n\nfalse\nnone: ");
    assert_eq!(processor.json_to_text(&JsonValue::Null), "");
    assert_eq!(processor.json_to_text(&JsonValue::Array(vec![])), "");
    assert_eq!(processor.json_to_text(&JsonValue::Object(vec![])), "");
    assert_eq!(processor.json_to_text(&JsonValue::Number("-2.5".to_string())), "-2.5");
}

#[test]
fn json_document_is_parsed_and_rendered() {
    let processor = DocumentProcessor::new(1000, 100);
    let text = processor.extract_json_text("{\"name\":\"test\",\"items\":[1,2,3]}").unwrap();
    assert!(text.contains("test"));
    assert!(text.contains("1"));
    assert!(text.contains("2"));
    assert!(text.contains("3"));
    assert_eq!(text, "items: 1\n2\n3\nname: test");
}

#[test]
fn json_document_with_nested_values() {
    let processor = DocumentProcessor::new(1000, 100);
    let text = processor
        .extract_json_text("{\"a\": {\"b\": true, \"c\": null}, \"d\": 1.5, \"e\": -7}")
        .unwrap();
    assert_eq!(text, "a: b: true\nc: \nd: 1.5\ne: -7");
}

#[test]
fn text_that_is_no_json_is_refused() {
    let processor = DocumentProcessor::new(1000, 100);
    let cause = processor.extract_json_text("{\"name\": ").unwrap_err();
    assert!(cause.starts_with("Failed to parse JSON: "));
    assert!(parse_json("").is_err());
    assert!(parse_json("[1, 2").is_err());
}

#[test]
fn parsed_value_has_the_documents_shape() {
    match parse_json("[\"x\", 2, false]").unwrap() {
        JsonValue::Array(items) => {
            assert_eq!(items.len(), 3);
            assert!(matches!(&items[0], JsonValue::String(s) if s == "x"));
            assert!(matches!(&items[1], JsonValue::Number(n) if n == "2"));
            assert!(matches!(&items[2], JsonValue::Bool(false)));
        }
        other => panic!("not an array: {:?}", other),
    }
}
