//! The document processor: from what was read of a file to a processed
//! document, through the extractor that the file's extension calls for.

use vstd::prelude::*;
use vstd::utf8::{decode_utf8, is_ascii_chars, valid_utf8};
use crate::archive::{docx_text, pptx_text};
use crate::chunker::{chunks_match, chunks_of};
use crate::json::{json_parse, json_text};
use crate::markdown::{markdown_text, markdown_to_text};
use crate::models::ProcessedDocument;
use crate::pdf::pdf_text;
use crate::tabular::{csv_header, csv_records, csv_text, sheet_views, workbook_text, Sheet};
use crate::text::{
    concat, contains_run, from_chars, is_blank, is_blank_range, lemma_run_character, push_str,
    same_str, to_chars,
};

verus! {

/// Splits extracted text into chunks of about `chunk_size` bytes that share
/// about `chunk_overlap` bytes with their predecessor.
pub struct DocumentProcessor {
    pub chunk_size: usize,
    pub chunk_overlap: usize,
}

/// Why a file was not processed.
#[derive(Debug)]
pub enum ProcessError {
    /// There is no file at the path, which is given.
    NotFound(String),
    /// The file's type is none of the supported ones, or the file has no
    /// extension: the type is then empty. With the file's name and path.
    UnsupportedFormat { file_type: String, file_name: String, file_path: String },
    /// The extractor for the file's format failed; with the cause.
    ExtractionFailed(String),
    /// The extracted text is blank.
    EmptyContent,
}

/// What the user is told of an error.
pub open spec fn message_of(error: ProcessError) -> Seq<char> {
    match error {
        ProcessError::NotFound(path) => "File not found: "@ + path@,
        ProcessError::UnsupportedFormat { file_type, file_name, file_path } => if file_type@.len()
            == 0 {
            "Cannot determine file extension for file: "@ + file_name@ + " (path: "@ + file_path@
                + ")"@
        } else {
            "Unsupported file format: "@ + file_type@
                + ". Supported formats: [\".pdf\", \".txt\", \".doc\", \".docx\", \".csv\", \".xlsx\", \".xls\", \".md\", \".pptx\", \".json\"]"@
        },
        ProcessError::ExtractionFailed(cause) => cause@,
        ProcessError::EmptyContent => "No text content could be extracted from file"@,
    }
}

impl ProcessError {
    /// What to tell the user.
    pub fn message(&self) -> (m: String)
        ensures
            m@ == message_of(*self),
    {
        match self {
            ProcessError::NotFound(path) => concat("File not found: ", path.as_str()),
            ProcessError::UnsupportedFormat { file_type, file_name, file_path } => {
                let mut out: Vec<char> = Vec::new();
                if file_type.as_str().unicode_len() == 0 {
                    push_str(&mut out, "Cannot determine file extension for file: ");
                    push_str(&mut out, file_name.as_str());
                    push_str(&mut out, " (path: ");
                    push_str(&mut out, file_path.as_str());
                    push_str(&mut out, ")");
                } else {
                    push_str(&mut out, "Unsupported file format: ");
                    push_str(&mut out, file_type.as_str());
                    push_str(
                        &mut out,
                        ". Supported formats: [\".pdf\", \".txt\", \".doc\", \".docx\", \".csv\", \".xlsx\", \".xls\", \".md\", \".pptx\", \".json\"]",
                    );
                }
                assert(out@ =~= message_of(*self));
                from_chars(&out)
            },
            ProcessError::ExtractionFailed(cause) => cause.clone(),
            ProcessError::EmptyContent => "No text content could be extracted from file".to_owned(),
        }
    }
}

/// What was read of a file before it is processed.
#[derive(Debug, Clone)]
pub struct FileSource {
    /// Whether there is a file at the path.
    pub exists: bool,
    /// The file's size on disk, where it could be had.
    pub size: Option<u64>,
    /// The file's bytes, where they could be read.
    pub content: Option<Vec<u8>>,
    /// Why the bytes could not be read.
    pub read_error: String,
    /// For a PDF file: the text that a full PDF reader found, if it found any.
    pub pdf_text: Option<String>,
    /// For a workbook: its sheets, where the workbook could be opened.
    pub sheets: Option<Vec<Sheet>>,
    /// Why the workbook could not be opened.
    pub sheets_error: String,
}

/// The extensions of the formats that can be processed.
pub open spec fn is_supported(ext: Seq<char>) -> bool {
    ext == ".pdf"@ || ext == ".txt"@ || ext == ".doc"@ || ext == ".docx"@ || ext == ".csv"@
        || ext == ".xlsx"@ || ext == ".xls"@ || ext == ".md"@ || ext == ".pptx"@ || ext
        == ".json"@
}

/// `c` in lower case, if it is an ASCII letter.
pub open spec fn ascii_lower(c: char) -> char {
    if 'A' <= c <= 'Z' {
        ((c as u32) + 32) as char
    } else {
        c
    }
}

/// What `str::to_lowercase` makes of a string.
pub uninterp spec fn lowercase(s: Seq<char>) -> Seq<char>;

/// `str::to_lowercase`. The result is a function of the string alone; of an
/// ASCII string it is the string with its capital letters made small.
#[verifier::external_body]
pub(crate) fn to_lowercase(s: &str) -> (r: String)
    ensures
        r@ == lowercase(s@),
        is_ascii_chars(s@) ==> r@ == s@.map_values(|c: char| ascii_lower(c)),
{
    s.to_lowercase()
}

/// `s` in lower case: an ASCII string with its capital letters made small,
/// any other string as `str::to_lowercase` makes it.
pub open spec fn lowered(s: Seq<char>) -> Seq<char> {
    if is_ascii_chars(s) {
        s.map_values(|c: char| ascii_lower(c))
    } else {
        lowercase(s)
    }
}

/// `s` in lower case.
pub fn lower(s: &str) -> (r: String)
    ensures
        r@ == lowered(s@),
{
    to_lowercase(s)
}

/// A path that is one component on every platform: it holds none of `/`,
/// `\` and `:`.
pub open spec fn is_single_component(path: Seq<char>) -> bool {
    forall|i: int|
        0 <= i < path.len() ==> (#[trigger] path[i]) != '/' && path[i] != '\\' && path[i] != ':'
}

/// Index of the last dot in `name`, or -1 if there is none.
pub open spec fn last_dot(name: Seq<char>) -> int
    decreases name.len(),
{
    if name.len() == 0 {
        -1
    } else if name.last() == '.' {
        name.len() - 1
    } else {
        last_dot(name.drop_last())
    }
}

/// The extension of a file name: what stands after its last dot. A name
/// without a dot has none, nor has one whose only dot is its first
/// character, nor has the name `..`.
pub open spec fn name_extension(name: Seq<char>) -> Option<Seq<char>> {
    let at = last_dot(name);
    if at <= 0 || name == seq!['.', '.'] {
        None
    } else {
        Some(name.subrange(at + 1, name.len() as int))
    }
}

/// `Path::extension` of the path `path`, where it is valid Unicode: the part
/// of the path's last component after its last dot. It holds no dot and
/// stands in the path after one. Of a path that is one component it is the
/// extension of that name.
#[verifier::external_body]
pub(crate) fn path_extension(path: &str) -> (r: Option<String>)
    ensures
        r matches Some(ext) ==> !ext@.contains('.') && contains_run(path@, seq!['.'] + ext@),
        is_single_component(path@) ==> r.deep_view() == name_extension(path@),
{
    std::path::Path::new(path).extension().and_then(|e| e.to_str()).map(|e| e.to_string())
}

/// The extension of `path`, if it has one: that of the path's last component,
/// as the platform reads paths. It holds no dot and stands in the path after
/// one, so that a path without a dot has none. Of a path that is one
/// component on every platform it is `name_extension` of the path.
pub fn extension_of(path: &str) -> (r: Option<String>)
    ensures
        r matches Some(ext) ==> !ext@.contains('.') && contains_run(path@, seq!['.'] + ext@),
        !path@.contains('.') ==> r is None,
        is_single_component(path@) ==> r.deep_view() == name_extension(path@),
{
    let r = path_extension(path);
    proof {
        if r is Some {
            lemma_run_character(path@, seq!['.'] + r->0@, 0);
        }
    }
    r
}

/// A path that is the name of a file on every platform: one component, not
/// empty, and neither `.` nor `..`.
pub open spec fn is_file_name(path: Seq<char>) -> bool {
    is_single_component(path) && path.len() > 0 && path != seq!['.'] && path != seq!['.', '.']
}

/// `Path::file_name` of the path `path`, where it is valid Unicode: the
/// path's last component, if it is the name of a file or directory. It is not
/// empty and stands in the path. A path that is the name of a file is its own
/// last component.
#[verifier::external_body]
pub(crate) fn path_file_name(path: &str) -> (r: Option<String>)
    ensures
        r matches Some(name) ==> name@.len() > 0 && contains_run(path@, name@),
        is_file_name(path@) ==> r.deep_view() == Some(path@),
{
    std::path::Path::new(path).file_name().and_then(|n| n.to_str()).map(|n| n.to_string())
}

/// `str::from_utf8`: the string that the bytes encode, if they are valid UTF-8.
#[verifier::external_body]
pub(crate) fn decode_text(bytes: &[u8]) -> (r: Option<String>)
    ensures
        r matches Some(text) ==> valid_utf8(bytes@) && text@ == decode_utf8(bytes@),
        r is None ==> !valid_utf8(bytes@),
{
    std::str::from_utf8(bytes).ok().map(|s| s.to_string())
}

/// The file type for an extension as a path has it: a dot and the extension
/// in lower case.
pub open spec fn file_type_of(ext: Seq<char>) -> Seq<char> {
    seq!['.'] + lowered(ext)
}

/// The file type of a file: that of the display name where it has an
/// extension, else that of the path; none where neither has one.
pub open spec fn resolved_type(
    name_ext: Option<Seq<char>>,
    path_ext: Option<Seq<char>>,
) -> Option<Seq<char>> {
    match name_ext {
        Some(ext) => Some(file_type_of(ext)),
        None => match path_ext {
            Some(ext) => Some(file_type_of(ext)),
            None => None,
        },
    }
}

/// The file's bytes as text, where there are bytes and they are valid UTF-8.
pub open spec fn text_content(source: FileSource) -> Option<Seq<char>> {
    match source.content {
        Some(bytes) => if valid_utf8(bytes@) {
            Some(decode_utf8(bytes@))
        } else {
            None
        },
        None => None,
    }
}

/// The text of a PDF file: what the full reader found, unless that is blank;
/// else what the byte scanner finds, unless that is empty.
pub open spec fn pdf_choice(source: FileSource) -> Option<Seq<char>> {
    if source.pdf_text is Some && !is_blank(source.pdf_text->0@) {
        Some(source.pdf_text->0@)
    } else {
        match source.content {
            Some(bytes) => if pdf_text(bytes@).len() > 0 {
                Some(pdf_text(bytes@))
            } else {
                None
            },
            None => None,
        }
    }
}

/// The text that the extractor for the file type `file_type` finds in a file
/// called `file_name`, or nothing where the extractor fails. The old Word
/// format `.doc` has no extractor, nor has any type that is not supported.
pub open spec fn extracted_text(
    file_type: Seq<char>,
    file_name: Seq<char>,
    source: FileSource,
) -> Option<Seq<char>> {
    if file_type == ".txt"@ {
        text_content(source)
    } else if file_type == ".md"@ {
        match text_content(source) {
            Some(text) => Some(markdown_text(text)),
            None => None,
        }
    } else if file_type == ".json"@ {
        match text_content(source) {
            Some(text) => match json_parse(text) {
                Some(tree) => Some(json_text(tree)),
                None => None,
            },
            None => None,
        }
    } else if file_type == ".csv"@ {
        match text_content(source) {
            Some(text) => Some(csv_text(file_name, csv_header(text), csv_records(text))),
            None => None,
        }
    } else if file_type == ".xlsx"@ || file_type == ".xls"@ {
        match source.sheets {
            Some(sheets) => Some(workbook_text(sheet_views(sheets@))),
            None => None,
        }
    } else if file_type == ".pdf"@ {
        pdf_choice(source)
    } else if file_type == ".docx"@ {
        match source.content {
            Some(bytes) => docx_text(bytes@),
            None => None,
        }
    } else if file_type == ".pptx"@ {
        match source.content {
            Some(bytes) => pptx_text(bytes@),
            None => None,
        }
    } else {
        None
    }
}

/// How processing a file ends.
pub enum Outcome {
    NotFound,
    /// With the file type that is not supported; empty where there is none.
    UnsupportedFormat(Seq<char>),
    ExtractionFailed,
    EmptyContent,
    /// A document with this file type and text.
    Done(Seq<char>, Seq<char>),
}

/// How processing ends for a file of the resolved type `file_type`, whose
/// path ends in `file_name`: the first of these that applies. There is no
/// file; the type is missing or not supported; the extractor fails; the text
/// is blank; the size of the file cannot be had. Else a document comes out.
pub open spec fn outcome(
    file_type: Option<Seq<char>>,
    file_name: Seq<char>,
    source: FileSource,
) -> Outcome {
    if !source.exists {
        Outcome::NotFound
    } else if file_type is None {
        Outcome::UnsupportedFormat(seq![])
    } else if !is_supported(file_type->0) {
        Outcome::UnsupportedFormat(file_type->0)
    } else {
        match extracted_text(file_type->0, file_name, source) {
            None => Outcome::ExtractionFailed,
            Some(text) => if is_blank(text) {
                Outcome::EmptyContent
            } else if source.size is None {
                Outcome::ExtractionFailed
            } else {
                Outcome::Done(file_type->0, text)
            },
        }
    }
}

/// `result` is as `outcome` says, for the file at `file_path` and a
/// processor with the given chunk size and overlap.
pub open spec fn result_is(
    result: Result<ProcessedDocument, ProcessError>,
    outcome: Outcome,
    file_path: Seq<char>,
    file_name: Option<Seq<char>>,
    source: FileSource,
    chunk_size: nat,
    chunk_overlap: nat,
) -> bool {
    match outcome {
        Outcome::NotFound => result matches Err(ProcessError::NotFound(path)) && path@
            == file_path,
        Outcome::UnsupportedFormat(unsupported) => {
            &&& result matches Err(ProcessError::UnsupportedFormat { file_type, file_name: name, file_path: path })
            &&& file_type@ == unsupported
            &&& name@ == name_or_empty(file_name)
            &&& path@ == file_path
        },
        Outcome::ExtractionFailed => result matches Err(ProcessError::ExtractionFailed(_)),
        Outcome::EmptyContent => result matches Err(ProcessError::EmptyContent),
        Outcome::Done(file_type, text) => {
            &&& result matches Ok(document)
            &&& document.file_path@ == file_path
            &&& document.file_name@ == (match file_name {
                Some(name) => name,
                None => "unknown"@,
            })
            &&& document.file_type@ == file_type
            &&& document.text@ == text
            &&& chunks_match(document.chunks@, chunks_of(text, chunk_size, chunk_overlap))
            &&& document.num_chunks == document.chunks@.len()
            &&& Some(document.file_size) == source.size
        },
    }
}

/// The name, or the empty name where there is none.
pub open spec fn name_or_empty(file_name: Option<Seq<char>>) -> Seq<char> {
    match file_name {
        Some(name) => name,
        None => seq![],
    }
}

/// `result` is what comes of processing the file at `file_path` for some
/// file type and some file name that stands in the path.
pub open spec fn came_of(
    result: Result<ProcessedDocument, ProcessError>,
    file_path: Seq<char>,
    source: FileSource,
    chunk_size: nat,
    chunk_overlap: nat,
) -> bool {
    exists|file_type: Option<Seq<char>>, file_name: Option<Seq<char>>|
        {
            &&& #[trigger] result_is(
                result,
                outcome(file_type, name_or_empty(file_name), source),
                file_path,
                file_name,
                source,
                chunk_size,
                chunk_overlap,
            )
            &&& file_name matches Some(name) ==> contains_run(file_path, name)
        }
}

/// `result` is what comes of processing the file at `file_path` as a file of
/// the type `file_type`, for some file name that stands in the path.
pub open spec fn came_of_type(
    result: Result<ProcessedDocument, ProcessError>,
    file_type: Option<Seq<char>>,
    file_path: Seq<char>,
    source: FileSource,
    chunk_size: nat,
    chunk_overlap: nat,
) -> bool {
    exists|file_name: Option<Seq<char>>|
        {
            &&& #[trigger] result_is(
                result,
                outcome(file_type, name_or_empty(file_name), source),
                file_path,
                file_name,
                source,
                chunk_size,
                chunk_overlap,
            )
            &&& file_name matches Some(name) ==> contains_run(file_path, name)
        }
}

/// The names decide the file type in one way on every platform: the display
/// name is one component and has an extension, or it is one component or
/// missing and the path is one component.
pub open spec fn names_decide(file_path: Seq<char>, original_name: Option<Seq<char>>) -> bool {
    match original_name {
        Some(name) => is_single_component(name) && (name_extension(name) is Some
            || is_single_component(file_path)),
        None => is_single_component(file_path),
    }
}

/// The file type that the names decide: that of the display name's extension
/// where it has one, else that of the path's; none where neither has one.
pub open spec fn decided_type(
    file_path: Seq<char>,
    original_name: Option<Seq<char>>,
) -> Option<Seq<char>> {
    resolved_type(
        match original_name {
            Some(name) => name_extension(name),
            None => None,
        },
        name_extension(file_path),
    )
}

/// Whether `ext` is the extension of a format that can be processed.
pub fn supported_extension(ext: &str) -> (r: bool)
    ensures
        r == is_supported(ext@),
{
    same_str(ext, ".pdf") || same_str(ext, ".txt") || same_str(ext, ".doc") || same_str(
        ext,
        ".docx",
    ) || same_str(ext, ".csv") || same_str(ext, ".xlsx") || same_str(ext, ".xls") || same_str(
        ext,
        ".md",
    ) || same_str(ext, ".pptx") || same_str(ext, ".json")
}

/// The file type for the extensions of a file's display name and of its path.
pub fn resolve_file_type(name_ext: Option<&str>, path_ext: Option<&str>) -> (r: Option<String>)
    ensures
        r.deep_view() == resolved_type(
            match name_ext {
                Some(e) => Some(e@),
                None => None,
            },
            match path_ext {
                Some(e) => Some(e@),
                None => None,
            },
        ),
{
    let ext = match name_ext {
        Some(e) => e,
        None => match path_ext {
            Some(e) => e,
            None => {
                return None;
            },
        },
    };
    let small = lower(ext);
    proof {
        reveal_strlit(".");
        assert("."@ =~= seq!['.']);
    }
    Some(concat(".", small.as_str()))
}

impl DocumentProcessor {
    /// A processor for chunks of about `chunk_size` bytes that overlap by about
    /// `chunk_overlap` bytes.
    pub fn new(chunk_size: usize, chunk_overlap: usize) -> (p: DocumentProcessor)
        ensures
            p.chunk_size == chunk_size,
            p.chunk_overlap == chunk_overlap,
    {
        DocumentProcessor { chunk_size, chunk_overlap }
    }

    /// The file's bytes as text, or why there is none.
    fn read_text(source: &FileSource, what: &str) -> (r: Result<String, String>)
        ensures
            r matches Ok(text) ==> text_content(*source) == Some(text@),
            r is Err ==> text_content(*source) is None,
    {
        match &source.content {
            Some(bytes) => match decode_text(bytes.as_slice()) {
                Some(text) => Ok(text),
                None => Err(concat(what, "stream did not contain valid UTF-8")),
            },
            None => Err(concat(what, source.read_error.as_str())),
        }
    }

    /// The old Word format is not read.
    pub fn extract_doc_text(&self) -> (r: Result<String, String>)
        ensures
            r matches Err(cause) && cause@
                == "DOC files require conversion to DOCX or TXT. Please convert your file using Microsoft Word or LibreOffice."@,
    {
        Err(
            "DOC files require conversion to DOCX or TXT. Please convert your file using Microsoft Word or LibreOffice.".to_owned(),
        )
    }

    /// The text of a PDF file, or why it has none.
    pub fn extract_pdf_text(&self, source: &FileSource) -> (r: Result<String, String>)
        ensures
            r matches Ok(text) ==> pdf_choice(*source) == Some(text@),
            r is Err ==> pdf_choice(*source) is None,
    {
        match &source.pdf_text {
            Some(found) => {
                let v = to_chars(found.as_str());
                let blank = is_blank_range(&v, 0, v.len());
                assert(v@.subrange(0, v@.len() as int) =~= v@);
                if !blank {
                    return Ok(from_chars(&v));
                }
            },
            None => {},
        }
        match &source.content {
            Some(bytes) => {
                let text = self.extract_text_from_pdf_bytes(bytes.as_slice());
                if text.as_str().unicode_len() == 0 {
                    Err(
                        "Could not extract text from PDF - file may be image-based or encrypted".to_owned(),
                    )
                } else {
                    Ok(text)
                }
            },
            None => Err(concat("Failed to open PDF file: ", source.read_error.as_str())),
        }
    }

    /// The text of a file of the type `file_type`, or why the extractor for
    /// that type gives none.
    pub fn extract_text_by_type(
        &self,
        source: &FileSource,
        file_name: &str,
        file_type: &str,
    ) -> (r: Result<String, String>)
        ensures
            r matches Ok(text) ==> extracted_text(file_type@, file_name@, *source) == Some(text@),
            r is Err ==> extracted_text(file_type@, file_name@, *source) is None,
    {
        if same_str(file_type, ".txt") {
            Self::read_text(source, "Error reading text file: ")
        } else if same_str(file_type, ".md") {
            match Self::read_text(source, "Error reading markdown file: ") {
                Ok(text) => {
                    let v = to_chars(text.as_str());
                    let plain = markdown_to_text(&v);
                    Ok(from_chars(&plain))
                },
                Err(cause) => Err(cause),
            }
        } else if same_str(file_type, ".json") {
            match Self::read_text(source, "Error reading JSON file: ") {
                Ok(text) => self.extract_json_text(text.as_str()),
                Err(cause) => Err(cause),
            }
        } else if same_str(file_type, ".csv") {
            match Self::read_text(source, "Error reading CSV file: ") {
                Ok(text) => Ok(self.extract_csv_text(file_name, text.as_str())),
                Err(cause) => Err(cause),
            }
        } else if same_str(file_type, ".xlsx") || same_str(file_type, ".xls") {
            match &source.sheets {
                Some(sheets) => Ok(self.extract_excel_text(sheets)),
                None => Err(concat("Failed to open Excel file: ", source.sheets_error.as_str())),
            }
        } else if same_str(file_type, ".pdf") {
            self.extract_pdf_text(source)
        } else if same_str(file_type, ".docx") {
            match &source.content {
                Some(bytes) => self.extract_docx_text(bytes.as_slice()),
                None => Err(concat("Failed to open DOCX file: ", source.read_error.as_str())),
            }
        } else if same_str(file_type, ".pptx") {
            match &source.content {
                Some(bytes) => self.extract_pptx_text(bytes.as_slice()),
                None => Err(concat("Failed to open PPTX file: ", source.read_error.as_str())),
            }
        } else if same_str(file_type, ".doc") {
            self.extract_doc_text()
        } else {
            Err(concat("No extractor available for ", file_type))
        }
    }

    /// Processes a file whose type was resolved to `file_type` and whose path
    /// ends in `file_name`.
    pub fn process_source(
        &self,
        file_path: &str,
        file_name: Option<&str>,
        file_type: Option<&str>,
        source: &FileSource,
    ) -> (r: Result<ProcessedDocument, ProcessError>)
        ensures
            result_is(
                r,
                outcome(
                    match file_type {
                        Some(t) => Some(t@),
                        None => None,
                    },
                    name_or_empty(
                        match file_name {
                            Some(n) => Some(n@),
                            None => None,
                        },
                    ),
                    *source,
                ),
                file_path@,
                match file_name {
                    Some(n) => Some(n@),
                    None => None,
                },
                *source,
                self.chunk_size as nat,
                self.chunk_overlap as nat,
            ),
    {
        if !source.exists {
            return Err(ProcessError::NotFound(file_path.to_owned()));
        }
        let banner = match file_name {
            Some(n) => n,
            None => "",
        };
        proof {
            reveal_strlit("");
            assert(""@ =~= Seq::<char>::empty());
        }
        let file_type = match file_type {
            Some(t) => t,
            None => {
                return Err(
                    ProcessError::UnsupportedFormat {
                        file_type: String::new(),
                        file_name: banner.to_owned(),
                        file_path: file_path.to_owned(),
                    },
                );
            },
        };
        if !supported_extension(file_type) {
            return Err(
                ProcessError::UnsupportedFormat {
                    file_type: file_type.to_owned(),
                    file_name: banner.to_owned(),
                    file_path: file_path.to_owned(),
                },
            );
        }
        let text = match self.extract_text_by_type(source, banner, file_type) {
            Ok(text) => text,
            Err(cause) => {
                return Err(ProcessError::ExtractionFailed(cause));
            },
        };
        let v = to_chars(text.as_str());
        let blank = is_blank_range(&v, 0, v.len());
        assert(v@.subrange(0, v@.len() as int) =~= v@);
        if blank {
            return Err(ProcessError::EmptyContent);
        }
        let chunks = self.create_chunks(text.as_str());
        let file_size = match source.size {
            Some(size) => size,
            None => {
                return Err(
                    ProcessError::ExtractionFailed("Cannot read the file's size".to_owned()),
                );
            },
        };
        let name = match file_name {
            Some(n) => n.to_owned(),
            None => "unknown".to_owned(),
        };
        let num_chunks = chunks.len();
        Ok(
            ProcessedDocument {
                file_path: file_path.to_owned(),
                file_name: name,
                file_type: file_type.to_owned(),
                text,
                chunks,
                num_chunks,
                file_size,
            },
        )
    }

    /// Processes the file at `file_path`, which the user may know under the
    /// name `original_name`: the type is that of the name where it has an
    /// extension, else that of the path.
    ///
    /// The file's name and the two extensions are taken from the path and the
    /// name as the platform reads paths. Where the names decide the type in
    /// one way on every platform, the result is what `outcome` says for that
    /// type; where the path is the name of a file, for that name too.
    pub fn process_file_with_name(
        &self,
        file_path: &str,
        original_name: Option<&str>,
        source: &FileSource,
    ) -> (r: Result<ProcessedDocument, ProcessError>)
        ensures
            came_of(r, file_path@, *source, self.chunk_size as nat, self.chunk_overlap as nat),
            names_decide(file_path@, name_view(original_name)) ==> came_of_type(
                r,
                decided_type(file_path@, name_view(original_name)),
                file_path@,
                *source,
                self.chunk_size as nat,
                self.chunk_overlap as nat,
            ),
            is_file_name(file_path@) && names_decide(file_path@, name_view(original_name))
                ==> result_is(
                r,
                outcome(decided_type(file_path@, name_view(original_name)), file_path@, *source),
                file_path@,
                Some(file_path@),
                *source,
                self.chunk_size as nat,
                self.chunk_overlap as nat,
            ),
            !source.exists <==> r is Err && r->Err_0 is NotFound,
            source.exists && !file_path@.contains('.') && (original_name matches Some(name)
                ==> !name@.contains('.')) ==> (r matches Err(
                ProcessError::UnsupportedFormat { file_type, .. },
            ) && file_type@.len() == 0),
            r matches Ok(document) ==> {
                &&& is_supported(document.file_type@)
                &&& document.file_path@ == file_path@
                &&& !is_blank(document.text@)
                &&& chunks_match(
                    document.chunks@,
                    chunks_of(document.text@, self.chunk_size as nat, self.chunk_overlap as nat),
                )
                &&& document.num_chunks == document.chunks@.len()
                &&& Some(document.file_size) == source.size
            },
    {
        let name_ext = match original_name {
            Some(name) => extension_of(name),
            None => None,
        };
        let path_ext = extension_of(file_path);
        let file_type = resolve_file_type(
            match &name_ext {
                Some(e) => Some(e.as_str()),
                None => None,
            },
            match &path_ext {
                Some(e) => Some(e.as_str()),
                None => None,
            },
        );
        let file_name = path_file_name(file_path);
        let r = self.process_source(
            file_path,
            match &file_name {
                Some(n) => Some(n.as_str()),
                None => None,
            },
            match &file_type {
                Some(t) => Some(t.as_str()),
                None => None,
            },
            source,
        );
        proof {
            let t = file_type.deep_view();
            let n = file_name.deep_view();
            let cs = self.chunk_size as nat;
            let ov = self.chunk_overlap as nat;
            assert(result_is(r, outcome(t, name_or_empty(n), *source), file_path@, n, *source, cs, ov));
            lemma_result_holds(r, t, n, file_path@, *source, cs, ov);
            if names_decide(file_path@, name_view(original_name)) {
                assert(t == decided_type(file_path@, name_view(original_name)));
            }
            if !file_path@.contains('.') && (original_name matches Some(name) ==> !name@.contains(
                '.',
            )) {
                assert(t is None);
            }
        }
        r
    }

    /// Processes the file at `file_path` under its own name: what
    /// `process_file_with_name` gives without a display name.
    pub fn process_file(&self, file_path: &str, source: &FileSource) -> (r: Result<
        ProcessedDocument,
        ProcessError,
    >)
        ensures
            came_of(r, file_path@, *source, self.chunk_size as nat, self.chunk_overlap as nat),
            is_single_component(file_path@) ==> came_of_type(
                r,
                decided_type(file_path@, None),
                file_path@,
                *source,
                self.chunk_size as nat,
                self.chunk_overlap as nat,
            ),
            is_file_name(file_path@) ==> result_is(
                r,
                outcome(decided_type(file_path@, None), file_path@, *source),
                file_path@,
                Some(file_path@),
                *source,
                self.chunk_size as nat,
                self.chunk_overlap as nat,
            ),
            !source.exists <==> r is Err && r->Err_0 is NotFound,
            source.exists && !file_path@.contains('.') ==> (r matches Err(
                ProcessError::UnsupportedFormat { file_type, .. },
            ) && file_type@.len() == 0),
            r matches Ok(document) ==> {
                &&& is_supported(document.file_type@)
                &&& document.file_path@ == file_path@
                &&& !is_blank(document.text@)
                &&& chunks_match(
                    document.chunks@,
                    chunks_of(document.text@, self.chunk_size as nat, self.chunk_overlap as nat),
                )
                &&& document.num_chunks == document.chunks@.len()
                &&& Some(document.file_size) == source.size
            },
    {
        self.process_file_with_name(file_path, None, source)
    }
}

/// What holds of a result that is as `outcome` says.
proof fn lemma_result_holds(
    r: Result<ProcessedDocument, ProcessError>,
    file_type: Option<Seq<char>>,
    file_name: Option<Seq<char>>,
    file_path: Seq<char>,
    source: FileSource,
    chunk_size: nat,
    chunk_overlap: nat,
)
    requires
        result_is(
            r,
            outcome(file_type, name_or_empty(file_name), source),
            file_path,
            file_name,
            source,
            chunk_size,
            chunk_overlap,
        ),
        file_name matches Some(name) ==> contains_run(file_path, name),
    ensures
        came_of(r, file_path, source, chunk_size, chunk_overlap),
        came_of_type(r, file_type, file_path, source, chunk_size, chunk_overlap),
        !source.exists <==> r is Err && r->Err_0 is NotFound,
        source.exists && file_type is None ==> (r matches Err(
            ProcessError::UnsupportedFormat { file_type: given, .. },
        ) && given@.len() == 0),
        r matches Ok(document) ==> {
            &&& is_supported(document.file_type@)
            &&& document.file_path@ == file_path
            &&& !is_blank(document.text@)
            &&& chunks_match(document.chunks@, chunks_of(document.text@, chunk_size, chunk_overlap))
            &&& document.num_chunks == document.chunks@.len()
            &&& Some(document.file_size) == source.size
        },
{
}

/// The view of a display name, if there is one.
pub open spec fn name_view(name: Option<&str>) -> Option<Seq<char>> {
    match name {
        Some(n) => Some(n@),
        None => None,
    }
}

} // verus!
