use knora::markdown::markdown_to_text;
use knora::processor::DocumentProcessor;
use knora::tabular::{render_csv, Sheet};

fn processor() -> DocumentProcessor {
    DocumentProcessor::new(1000, 100)
}

#[test]
fn pdf_scanner_reads_literals_in_text_objects() {
    let content =
        b"%PDF-1.4\nBT /F1 12 Tf (Hello) Tj (World \\(nested\\) ok) Tj ET\nBT (Second (inner) line) Tj ET";
    assert_eq!(
        processor().extract_text_from_pdf_bytes(content),
        "Hello World \\(nested\\) ok Second (inner) line"
    );
}

#[test]
fn pdf_scanner_wants_whitespace_around_the_markers() {
    assert_eq!(processor().extract_text_from_pdf_bytes(b"BT (abc) ET"), "abc");
    assert_eq!(processor().extract_text_from_pdf_bytes(b"xBT (abc) ET"), "");
    assert_eq!(processor().extract_text_from_pdf_bytes(b"BT (abc) ETx BT (def) ET"), "abc def");
    assert_eq!(processor().extract_text_from_pdf_bytes(b"BT (a) (b)ET"), "a b");
}

#[test]
fn pdf_scanner_keeps_printable_bytes_only() {
    assert_eq!(
        processor().extract_text_from_pdf_bytes(b"BT (line\none\rtwo\x01\xff) Tj ET"),
        "line one two"
    );
}

#[test]
fn pdf_scanner_drops_text_that_no_marker_closes() {
    assert_eq!(processor().extract_text_from_pdf_bytes(b"BT (unterminated"), "");
    assert_eq!(processor().extract_text_from_pdf_bytes(b""), "");
    assert_eq!(processor().extract_text_from_pdf_bytes(b"(outside) BT ET"), "");
}

#[test]
fn xml_text_is_what_stands_outside_tags() {
    assert_eq!(
        processor().extract_text_from_xml(
            "<w:p><w:t>Hello</w:t><w:t> wide   world</w:t></w:p>tail"
        ),
        "Hello wide world tail"
    );
    assert_eq!(processor().extract_text_from_xml("a > b <tag attr='x>y'>c</tag>"), "a b y'c");
    assert_eq!(processor().extract_text_from_xml(""), "");
    assert_eq!(processor().extract_text_from_xml("<only/>"), "");
    assert_eq!(processor().extract_text_from_xml("ab<i>cd</i>ef"), "ab cd ef");
}

#[test]
fn markdown_lines_lose_their_marks() {
    let text: Vec<char> =
        "# Title\n\n- item *one*\n**bold**\n__under__\nplain\r\n   \n## \nlast\r".chars().collect();
    let plain: String = markdown_to_text(&text).into_iter().collect();
    assert_eq!(plain, "Title\nitem *one\nbold\n__under\nplain\nlast\r");
}

#[test]
fn markdown_lines_that_are_empty_are_left_out() {
    let text: Vec<char> = "one\n\n   \n## \ntwo\n".chars().collect();
    let plain: String = markdown_to_text(&text).into_iter().collect();
    assert_eq!(plain, "one\ntwo");
}

#[test]
fn markdown_line_of_tabs_is_kept() {
    let text: Vec<char> = "one\n\t\n \t \n\ntwo\n- \t\n".chars().collect();
    let plain: String = markdown_to_text(&text).into_iter().collect();
    assert_eq!(plain, "one\n\t\n\t \ntwo\n\t");
}

#[test]
fn markdown_of_marks_only_is_empty() {
    let text: Vec<char> = "# \n---\n***\n".chars().collect();
    assert!(markdown_to_text(&text).is_empty());
}

#[test]
fn csv_is_rendered_with_banner_header_and_records() {
    let text = processor().extract_csv_text("people.csv", "name,age\nAlice,30\nBob,25\n");
    assert_eq!(text, "Document: people.csv\n\nname | age\n---\nAlice | 30\nBob | 25\n");
}

#[test]
fn csv_record_of_another_length_is_left_out() {
    let text = processor().extract_csv_text("t.csv", "a,b\n1,2\n3\n4,5\n");
    assert_eq!(text, "Document: t.csv\n\na | b\n---\n1 | 2\n4 | 5\n");
}

#[test]
fn csv_without_content_has_an_empty_header() {
    let text = processor().extract_csv_text("", "");
    assert_eq!(text, "Document: \n\n\n---\n");
}

#[test]
fn csv_rendering_skips_what_could_not_be_read() {
    let records = vec![Some(vec!["x".to_string(), "y".to_string()]), None, Some(vec![])];
    assert_eq!(render_csv("f", &None, &records), "Document: f\n\nx | y\n\n");
}

#[test]
fn workbook_is_rendered_sheet_by_sheet() {
    let sheets = vec![
        Sheet {
            name: "First".to_string(),
            rows: Some(vec![
                vec!["a".to_string(), "1".to_string()],
                vec!["b".to_string(), "".to_string()],
            ]),
        },
        Sheet { name: "Broken".to_string(), rows: None },
    ];
    let rule = "\u{2500}".repeat(50);
    let expected = format!(
        "Sheet: First\n{}\na | 1\nb | \n\nSheet: Broken\n{}\n\n",
        rule, rule
    );
    assert_eq!(processor().extract_excel_text(&sheets), expected);
    assert_eq!(processor().extract_excel_text(&Vec::new()), "");
}

#[test]
fn old_word_format_is_refused() {
    let message = processor().extract_doc_text().unwrap_err();
    assert!(message.contains("require conversion"));
}
