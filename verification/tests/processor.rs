use knora::processor::{
    extension_of, resolve_file_type, supported_extension, DocumentProcessor, FileSource,
    ProcessError,
};
use knora::tabular::Sheet;

fn source(content: &[u8]) -> FileSource {
    FileSource {
        exists: true,
        size: Some(content.len() as u64),
        content: Some(content.to_vec()),
        read_error: String::new(),
        pdf_text: None,
        sheets: None,
        sheets_error: String::new(),
    }
}

fn processor() -> DocumentProcessor {
    DocumentProcessor::new(100, 20)
}

#[test]
fn unsupported_extension_is_refused() {
    let result = processor().process_file("tool.exe", &source(b"MZ"));
    match result {
        Err(ProcessError::UnsupportedFormat { file_type, file_name, file_path }) => {
            assert_eq!(file_type, ".exe");
            assert_eq!(file_name, "tool.exe");
            assert_eq!(file_path, "tool.exe");
        }
        other => panic!("{:?}", other),
    }
    let p = DocumentProcessor::new(1000, 200);
    let result = p.process_file_with_name("sample.exe", None, &source(b"hello"));
    assert!(matches!(result, Err(ProcessError::UnsupportedFormat { .. })));
}

#[test]
fn staged_upload_is_processed_under_its_display_name() {
    let p = DocumentProcessor::new(1000, 200);
    let d = p
        .process_file_with_name("/tmp/upload_blob", Some("Notes.TXT"), &source(b"Hello world."))
        .unwrap();
    assert_eq!(d.file_type, ".txt");
    assert_eq!(d.file_path, "/tmp/upload_blob");
    assert_eq!(d.file_name, "upload_blob");
    assert_eq!(d.text, "Hello world.");
    assert_eq!(d.file_size, 12);
    assert_eq!(d.num_chunks, 1);
    assert_eq!(d.chunks[0].text, "Hello world");
    assert_eq!(d.chunks[0].size, 12);
}

#[test]
fn name_that_ends_in_a_dot_has_an_unsupported_type() {
    let result = processor().process_file("report.", &source(b"text"));
    assert!(
        matches!(result, Err(ProcessError::UnsupportedFormat { file_type, .. }) if file_type == ".")
    );
}

#[test]
fn file_without_extension_is_refused() {
    let result = processor().process_file("README", &source(b"text"));
    match result {
        Err(ProcessError::UnsupportedFormat { file_type, file_name, file_path }) => {
            assert_eq!(file_type, "");
            assert_eq!(file_name, "README");
            assert_eq!(file_path, "README");
        }
        other => panic!("{:?}", other),
    }
}

#[test]
fn missing_file_is_not_found() {
    let mut missing = source(b"");
    missing.exists = false;
    let result = processor().process_file("notes.txt", &missing);
    match result {
        Err(ProcessError::NotFound(path)) => assert_eq!(path, "notes.txt"),
        other => panic!("{:?}", other),
    }
    // a missing file is reported before its extension is looked at
    let result = processor().process_file("tool.exe", &missing);
    assert!(matches!(result, Err(ProcessError::NotFound(_))));
}

#[test]
fn text_file_is_processed() {
    let content = b"First sentence here. Second sentence there.";
    let document = processor().process_file("dir/notes.txt", &source(content)).unwrap();
    assert_eq!(document.file_path, "dir/notes.txt");
    assert_eq!(document.file_name, "notes.txt");
    assert_eq!(document.file_type, ".txt");
    assert_eq!(document.text, "First sentence here. Second sentence there.");
    assert_eq!(document.file_size, content.len() as u64);
    assert_eq!(document.num_chunks, 1);
    assert_eq!(document.chunks.len(), 1);
    assert_eq!(document.chunks[0].text, "First sentence here Second sentence there");
}

#[test]
fn file_size_is_what_was_read_from_disk() {
    let mut given = source(b"Some text.");
    given.size = Some(4096);
    let document = processor().process_file("a.txt", &given).unwrap();
    assert_eq!(document.file_size, 4096);
}

#[test]
fn extension_is_read_in_any_case() {
    let document = processor().process_file("NOTES.TXT", &source(b"Shouting.")).unwrap();
    assert_eq!(document.file_type, ".txt");
    let document = processor().process_file("Notes.Md", &source(b"# Title")).unwrap();
    assert_eq!(document.file_type, ".md");
    assert_eq!(document.text, "Title");
}

#[test]
fn display_name_decides_the_format() {
    let document = processor()
        .process_file_with_name("/tmp/upload_0001", Some("report.md"), &source(b"## Heading"))
        .unwrap();
    assert_eq!(document.file_type, ".md");
    assert_eq!(document.text, "Heading");
    assert_eq!(document.file_name, "upload_0001");
    // a display name without extension leaves it to the path
    let document = processor()
        .process_file_with_name("/tmp/upload.txt", Some("report"), &source(b"## Heading"))
        .unwrap();
    assert_eq!(document.file_type, ".txt");
    assert_eq!(document.text, "## Heading");
}

#[test]
fn blank_text_is_empty_content() {
    let result = processor().process_file("blank.txt", &source(b"  \n\t  "));
    assert!(matches!(result, Err(ProcessError::EmptyContent)));
    let result = processor().process_file("blank.md", &source(b"# \n---\n"));
    assert!(matches!(result, Err(ProcessError::EmptyContent)));
}

#[test]
fn bytes_that_are_no_text_fail_extraction() {
    let result = processor().process_file("bad.txt", &source(&[0x66, 0xff, 0xfe]));
    match result {
        Err(ProcessError::ExtractionFailed(cause)) => {
            assert!(cause.starts_with("Error reading text file: "), "{}", cause)
        }
        other => panic!("{:?}", other),
    }
}

#[test]
fn unreadable_file_fails_extraction() {
    let mut unreadable = source(b"");
    unreadable.content = None;
    unreadable.read_error = "permission denied".to_string();
    let result = processor().process_file("secret.json", &unreadable);
    match result {
        Err(ProcessError::ExtractionFailed(cause)) => {
            assert_eq!(cause, "Error reading JSON file: permission denied")
        }
        other => panic!("{:?}", other),
    }
}

#[test]
fn old_word_file_fails_extraction() {
    let result = processor().process_file("letter.doc", &source(b"\xd0\xcf\x11\xe0"));
    assert!(matches!(result, Err(ProcessError::ExtractionFailed(_))));
}

#[test]
fn json_file_is_processed() {
    let document = processor()
        .process_file("data.json", &source(b"{\"name\":\"test\",\"items\":[1,2,3]}"))
        .unwrap();
    assert_eq!(document.text, "items: 1\n2\n3\nname: test");
    let result = processor().process_file("data.json", &source(b"{oops"));
    assert!(matches!(result, Err(ProcessError::ExtractionFailed(_))));
}

#[test]
fn csv_file_carries_its_name_in_the_banner() {
    let document =
        processor().process_file("tables/people.csv", &source(b"name,age\nAlice,30\n")).unwrap();
    assert_eq!(document.text, "Document: people.csv\n\nname | age\n---\nAlice | 30\n");
}

#[test]
fn pdf_text_of_the_full_reader_is_preferred() {
    let mut given = source(b"BT (from the scanner) Tj ET");
    given.pdf_text = Some("From the reader.".to_string());
    let document = processor().process_file("paper.pdf", &given).unwrap();
    assert_eq!(document.text, "From the reader.");
}

#[test]
fn pdf_scanner_is_the_fallback() {
    let mut given = source(b"BT (from the scanner) Tj ET");
    given.pdf_text = Some("  \n ".to_string());
    let document = processor().process_file("paper.pdf", &given).unwrap();
    assert_eq!(document.text, "from the scanner");
    given.pdf_text = None;
    let document = processor().process_file("paper.pdf", &given).unwrap();
    assert_eq!(document.text, "from the scanner");
}

#[test]
fn pdf_without_any_text_fails_extraction() {
    let result = processor().process_file("scan.pdf", &source(b"%PDF-1.4 binary"));
    match result {
        Err(ProcessError::ExtractionFailed(cause)) => assert_eq!(
            cause,
            "Could not extract text from PDF - file may be image-based or encrypted"
        ),
        other => panic!("{:?}", other),
    }
}

#[test]
fn workbook_is_processed_from_its_sheets() {
    let mut given = source(b"PK");
    given.sheets = Some(vec![Sheet {
        name: "Data".to_string(),
        rows: Some(vec![vec!["k".to_string(), "v".to_string()]]),
    }]);
    let document = processor().process_file("book.xlsx", &given).unwrap();
    assert_eq!(document.text, format!("Sheet: Data\n{}\nk | v\n\n", "\u{2500}".repeat(50)));
    given.sheets = None;
    given.sheets_error = "no workbook".to_string();
    let result = processor().process_file("book.xls", &given);
    match result {
        Err(ProcessError::ExtractionFailed(cause)) => {
            assert_eq!(cause, "Failed to open Excel file: no workbook")
        }
        other => panic!("{:?}", other),
    }
}

#[test]
fn unknown_size_fails_after_extraction() {
    let mut given = source(b"Text.");
    given.size = None;
    let result = processor().process_file("a.txt", &given);
    assert!(matches!(result, Err(ProcessError::ExtractionFailed(_))));
}

#[test]
fn extractor_is_chosen_by_type() {
    let p = processor();
    let given = source(b"# Title");
    assert_eq!(p.extract_text_by_type(&given, "x", ".txt").unwrap(), "# Title");
    assert_eq!(p.extract_text_by_type(&given, "x", ".md").unwrap(), "Title");
    assert_eq!(
        p.extract_text_by_type(&given, "x", ".exe").unwrap_err(),
        "No extractor available for .exe"
    );
}

#[test]
fn supported_extensions() {
    for ext in [".pdf", ".txt", ".doc", ".docx", ".csv", ".xlsx", ".xls", ".md", ".pptx", ".json"]
    {
        assert!(supported_extension(ext), "{}", ext);
    }
    for ext in [".exe", "txt", ".TXT", "", ".", ".jsonx", ".tx"] {
        assert!(!supported_extension(ext), "{}", ext);
    }
}

#[test]
fn file_type_is_resolved_from_name_then_path() {
    assert_eq!(resolve_file_type(Some("PDF"), Some("txt")), Some(".pdf".to_string()));
    assert_eq!(resolve_file_type(None, Some("Txt")), Some(".txt".to_string()));
    assert_eq!(resolve_file_type(None, None), None);
    assert_eq!(resolve_file_type(Some(""), Some("txt")), Some(".".to_string()));
}

#[test]
fn error_messages() {
    assert_eq!(ProcessError::NotFound("a/b".to_string()).message(), "File not found: a/b");
    assert_eq!(
        ProcessError::UnsupportedFormat {
            file_type: ".exe".to_string(),
            file_name: "tool.exe".to_string(),
            file_path: "dir/tool.exe".to_string(),
        }
        .message(),
        "Unsupported file format: .exe. Supported formats: [\".pdf\", \".txt\", \".doc\", \".docx\", \".csv\", \".xlsx\", \".xls\", \".md\", \".pptx\", \".json\"]"
    );
    assert_eq!(
        ProcessError::UnsupportedFormat {
            file_type: String::new(),
            file_name: "README".to_string(),
            file_path: "dir/README".to_string(),
        }
        .message(),
        "Cannot determine file extension for file: README (path: dir/README)"
    );
    assert_eq!(ProcessError::ExtractionFailed("cause".to_string()).message(), "cause");
    assert_eq!(
        ProcessError::EmptyContent.message(),
        "No text content could be extracted from file"
    );
}

#[test]
fn extension_is_what_stands_after_the_last_dot_of_the_name() {
    assert_eq!(extension_of("report.pdf"), Some("pdf".to_string()));
    assert_eq!(extension_of("archive.tar.gz"), Some("gz".to_string()));
    assert_eq!(extension_of("name."), Some(String::new()));
    assert_eq!(extension_of(".a.b"), Some("b".to_string()));
    assert_eq!(extension_of("..."), Some(String::new()));
    assert_eq!(extension_of("notes"), None);
    assert_eq!(extension_of(".hidden"), None);
    assert_eq!(extension_of("."), None);
    assert_eq!(extension_of(".."), None);
    assert_eq!(extension_of(""), None);
    assert_eq!(extension_of("dir.d/notes"), None);
    assert_eq!(extension_of("dir/notes.txt"), Some("txt".to_string()));
}
