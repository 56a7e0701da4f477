use knora::config::{AppConfig, EmbeddingModels};
use knora::models::get_supported_models;
use knora::upload::{check_filename, get_supported_formats, validate_filename, MAX_FILE_SIZE};

fn config(host: &str, port: u16) -> AppConfig {
    AppConfig {
        app_name: "KnoRa AI Knowledge Assistant".to_string(),
        app_version: "2.0.0".to_string(),
        vector_store_path: "data/vector_store".to_string(),
        upload_dir: "data/uploads".to_string(),
        embedding_model: "all-MiniLM-L6-v2".to_string(),
        default_chunk_size: 1000,
        default_chunk_overlap: 200,
        groq_api_key: String::new(),
        server_host: host.to_string(),
        server_port: port,
        default_llm_model: "openai/gpt-oss-120b".to_string(),
    }
}

#[test]
fn server_address_is_host_and_port() {
    assert_eq!(config("127.0.0.1", 8000).server_addr(), "127.0.0.1:8000");
    assert_eq!(config("localhost", 0).server_addr(), "localhost:0");
    assert_eq!(config("::1", 65535).server_addr(), "::1:65535");
    assert_eq!(config("", 7).server_addr(), ":7");
    assert_eq!(config("h", 10).server_addr(), "h:10");
}

#[test]
fn embedding_model_dimensions() {
    assert_eq!(EmbeddingModels::get_dimension(EmbeddingModels::ALL_MINILM_L6_V2), 384);
    assert_eq!(EmbeddingModels::get_dimension(EmbeddingModels::ALL_MPNET_BASE_V2), 768);
    assert_eq!(EmbeddingModels::get_dimension(EmbeddingModels::ALL_DISTILROBERTA_V1), 768);
    assert_eq!(EmbeddingModels::get_dimension(EmbeddingModels::PARAPHRASE_MINILM_L6_V2), 384);
    assert_eq!(EmbeddingModels::get_dimension(EmbeddingModels::PARAPHRASE_MPNET_BASE_V2), 768);
    assert_eq!(EmbeddingModels::get_dimension("unknown"), 384);
    assert_eq!(EmbeddingModels::get_dimension(""), 384);
    assert_eq!(EmbeddingModels::get_dimension("ALL-MPNET-BASE-V2"), 384);
}

#[test]
fn language_models_on_offer() {
    let models = get_supported_models();
    let got: Vec<(&str, &str, usize)> =
        models.iter().map(|m| (m.id.as_str(), m.name.as_str(), m.max_tokens)).collect();
    assert_eq!(
        got,
        vec![
            ("openai/gpt-oss-120b", "OpenAI GPT-OSS 120B", 8192),
            ("llama-3.1-70b-versatile", "LLaMA 3.1 70B Versatile", 8192),
            ("llama-3.1-8b-instant", "LLaMA 3.1 8B Instant", 8192),
            ("mixtral-8x7b-32768", "Mixtral 8x7B", 32768),
            ("gemma2-9b-it", "Gemma2 9B IT", 8192),
        ]
    );
}

#[test]
fn formats_on_offer() {
    let formats = get_supported_formats().formats;
    let got: Vec<(&str, &str, u64)> =
        formats.iter().map(|f| (f.extension.as_str(), f.name.as_str(), f.max_size_mb)).collect();
    assert_eq!(
        got,
        vec![
            (".txt", "Plain Text", 100),
            (".pdf", "PDF Document", 100),
            (".docx", "Word Document (2007+)", 100),
            (".doc", "Word Document (97-2003)", 100),
            (".csv", "CSV Spreadsheet", 100),
            (".xlsx", "Excel Spreadsheet (2007+)", 100),
            (".xls", "Excel Spreadsheet (97-2003)", 100),
            (".md", "Markdown Document", 100),
            (".pptx", "PowerPoint Presentation", 100),
            (".json", "JSON Data File", 100),
        ]
    );
    assert_eq!(MAX_FILE_SIZE, 100 * 1024 * 1024);
}

#[test]
fn file_names_that_are_taken() {
    assert_eq!(validate_filename("report.pdf"), Ok(()));
    assert_eq!(validate_filename("REPORT.PDF"), Ok(()));
    assert_eq!(validate_filename("notes"), Ok(()));
    assert_eq!(validate_filename(".hidden"), Ok(()));
    assert_eq!(validate_filename("archive.tar.json"), Ok(()));
    assert_eq!(validate_filename(&"a".repeat(255)), Ok(()));
}

#[test]
fn file_names_that_are_refused() {
    assert_eq!(validate_filename(""), Err("Filename cannot be empty".to_string()));
    assert_eq!(
        validate_filename(&"a".repeat(256)),
        Err("Filename is too long (max 255 characters)".to_string())
    );
    // 128 characters of two bytes each
    assert_eq!(
        validate_filename(&"\u{e9}".repeat(128)),
        Err("Filename is too long (max 255 characters)".to_string())
    );
    assert_eq!(
        validate_filename("dir/file.txt"),
        Err("Invalid filename: path separators not allowed".to_string())
    );
    assert_eq!(
        validate_filename("dir\\file.txt"),
        Err("Invalid filename: path separators not allowed".to_string())
    );
    assert_eq!(
        validate_filename("file\0.txt"),
        Err("Invalid filename: contains null bytes".to_string())
    );
    assert_eq!(
        validate_filename("tool.exe"),
        Err("Unsupported file format: .exe. Supported: .pdf, .txt, .doc, .docx, .csv, .xlsx, .xls, .md, .pptx, .json".to_string())
    );
}

#[test]
fn file_name_that_ends_in_a_dot_is_refused() {
    assert_eq!(
        validate_filename("report."),
        Err("Unsupported file format: .. Supported: .pdf, .txt, .doc, .docx, .csv, .xlsx, .xls, .md, .pptx, .json".to_string())
    );
    assert_eq!(
        check_filename("report.", Some("")),
        Err("Unsupported file format: .. Supported: .pdf, .txt, .doc, .docx, .csv, .xlsx, .xls, .md, .pptx, .json".to_string())
    );
}

#[test]
fn a_separator_is_reported_before_a_null_byte() {
    assert_eq!(
        validate_filename("a\0b/c"),
        Err("Invalid filename: path separators not allowed".to_string())
    );
}

#[test]
fn file_name_is_checked_with_a_given_extension() {
    assert_eq!(check_filename("x", Some("TXT")), Ok(()));
    assert_eq!(check_filename("x", None), Ok(()));
    assert_eq!(
        check_filename("x", Some("bin")),
        Err("Unsupported file format: .bin. Supported: .pdf, .txt, .doc, .docx, .csv, .xlsx, .xls, .md, .pptx, .json".to_string())
    );
    assert_eq!(check_filename("", Some("txt")), Err("Filename cannot be empty".to_string()));
}
