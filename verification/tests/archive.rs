use knora::archive::{is_slide, render_slides};
use knora::processor::DocumentProcessor;
use std::io::Write;

fn archive(entries: &[(&str, &str)]) -> Vec<u8> {
    let mut writer = zip::ZipWriter::new(std::io::Cursor::new(Vec::new()));
    for (name, content) in entries {
        writer.start_file(*name, zip::write::FileOptions::default()).unwrap();
        writer.write_all(content.as_bytes()).unwrap();
    }
    writer.finish().unwrap().into_inner()
}

fn processor() -> DocumentProcessor {
    DocumentProcessor::new(1000, 100)
}

#[test]
fn word_document_is_read_from_its_entry() {
    let bytes = archive(&[
        ("[Content_Types].xml", "<Types/>"),
        ("word/document.xml", "<w:document><w:p><w:t>Hello</w:t><w:t>Word</w:t></w:p></w:document>"),
    ]);
    assert_eq!(processor().extract_docx_text(&bytes).unwrap(), "Hello Word");
}

#[test]
fn word_document_without_its_entry_is_refused() {
    let bytes = archive(&[("other.xml", "<a>b</a>")]);
    let cause = processor().extract_docx_text(&bytes).unwrap_err();
    assert!(cause.starts_with("Failed to find document.xml in DOCX: "), "{}", cause);
}

#[test]
fn bytes_that_are_no_archive_are_refused() {
    let cause = processor().extract_docx_text(b"not a zip file").unwrap_err();
    assert!(cause.starts_with("Failed to read DOCX archive: "), "{}", cause);
    let cause = processor().extract_pptx_text(b"not a zip file").unwrap_err();
    assert!(cause.starts_with("Failed to read PPTX archive: "), "{}", cause);
}

#[test]
fn presentation_is_read_slide_by_slide() {
    let bytes = archive(&[
        ("ppt/presentation.xml", "<p>not a slide</p>"),
        ("ppt/slides/slide1.xml", "<a:t>First</a:t><a:t>slide</a:t>"),
        ("ppt/slides/_rels/slide1.xml.rels", "<r>relations</r>"),
        ("ppt/slides/slide2.xml", "<a:t>Second</a:t>"),
        ("ppt/slides/slide3.txt", "<a:t>no slide</a:t>"),
    ]);
    assert_eq!(processor().extract_pptx_text(&bytes).unwrap(), "First slide\nSecond\n");
}

#[test]
fn presentation_without_slides_is_refused() {
    let bytes = archive(&[("ppt/presentation.xml", "<p>text</p>")]);
    assert_eq!(
        processor().extract_pptx_text(&bytes).unwrap_err(),
        "No text content found in PPTX file"
    );
}

#[test]
fn slide_without_text_still_counts() {
    let bytes = archive(&[("ppt/slides/slide1.xml", "<a/>")]);
    assert_eq!(processor().extract_pptx_text(&bytes).unwrap(), "\n");
}

#[test]
fn slide_names() {
    assert!(is_slide("ppt/slides/slide1.xml"));
    assert!(is_slide("ppt/slides/slide.xml"));
    assert!(is_slide("ppt/slides/slideshow/x.xml"));
    assert!(!is_slide("ppt/slides/slide1.xml.rels"));
    assert!(!is_slide("ppt/slides/slid.xml"));
    assert!(!is_slide("xppt/slides/slide1.xml"));
    assert!(!is_slide(".xml"));
}

#[test]
fn slides_are_rendered_from_names_and_texts() {
    let names = vec![
        Some("ppt/slides/slide1.xml".to_string()),
        None,
        Some("docProps/app.xml".to_string()),
        Some("ppt/slides/slide2.xml".to_string()),
        Some("ppt/slides/slide3.xml".to_string()),
    ];
    let texts = vec![
        Some("<t>one</t>".to_string()),
        Some("<t>hidden</t>".to_string()),
        Some("<t>props</t>".to_string()),
        None,
        Some("<t>three</t>".to_string()),
    ];
    assert_eq!(render_slides(&names, &texts), "one\nthree\n");
    assert_eq!(render_slides(&names, &Vec::new()), "");
}
