//! What an upload has to meet before it is taken in: the rules for its file
//! name, and the formats on offer.

use vstd::prelude::*;
use crate::processor::{
    extension_of, file_type_of, is_single_component, is_supported, name_extension,
    resolve_file_type, supported_extension,
};
use crate::text::{byte_len, byte_length, from_chars, push_str, to_chars};

verus! {

/// The largest upload, in bytes.
pub const MAX_FILE_SIZE: usize = 104857600;

/// The longest file name, in bytes.
pub const MAX_FILENAME_LENGTH: usize = 255;

/// A format that can be uploaded.
#[derive(Debug, Clone)]
pub struct SupportedFormat {
    pub extension: String,
    pub name: String,
    pub max_size_mb: u64,
}

/// The formats that can be uploaded.
#[derive(Debug, Clone)]
pub struct SupportedFormatsResponse {
    pub formats: Vec<SupportedFormat>,
}

/// A name that holds no path separator and no NUL character.
pub open spec fn is_plain_name(name: Seq<char>) -> bool {
    !name.contains('/') && !name.contains('\\') && !name.contains('\0')
}

/// A file name that can be taken, as far as the name itself goes: not empty,
/// at most 255 bytes, and plain.
pub open spec fn is_acceptable_name(name: Seq<char>) -> bool {
    name.len() > 0 && byte_len(name) <= MAX_FILENAME_LENGTH && is_plain_name(name)
}

/// Why a file name with the extension `extension` is refused: the first of
/// these that applies. The name is empty; it is longer than 255 bytes; it
/// holds a path separator; it holds a NUL character; it has an extension, be
/// it empty, whose file type is not supported. Nothing where none applies.
pub open spec fn refusal(name: Seq<char>, extension: Option<Seq<char>>) -> Option<Seq<char>> {
    if name.len() == 0 {
        Some("Filename cannot be empty"@)
    } else if byte_len(name) > MAX_FILENAME_LENGTH {
        Some("Filename is too long (max 255 characters)"@)
    } else if name.contains('/') || name.contains('\\') {
        Some("Invalid filename: path separators not allowed"@)
    } else if name.contains('\0') {
        Some("Invalid filename: contains null bytes"@)
    } else if extension is Some && !is_supported(file_type_of(extension->0)) {
        Some(
            "Unsupported file format: "@ + file_type_of(extension->0)
                + ". Supported: .pdf, .txt, .doc, .docx, .csv, .xlsx, .xls, .md, .pptx, .json"@,
        )
    } else {
        None
    }
}

/// A file name with the extension `extension` can be taken: the name is
/// acceptable, and the extension, if it has one, is that of a supported
/// format.
pub open spec fn is_valid_upload(name: Seq<char>, extension: Option<Seq<char>>) -> bool {
    is_acceptable_name(name) && (extension matches Some(ext) ==> is_supported(file_type_of(ext)))
}

/// `result` takes the name or refuses it as `refusal` says.
pub open spec fn answers(result: Result<(), String>, refusal: Option<Seq<char>>) -> bool {
    match result {
        Ok(_) => refusal is None,
        Err(message) => refusal == Some(message@),
    }
}

impl SupportedFormat {
    /// The format has this extension and this name.
    pub open spec fn is(&self, extension: Seq<char>, name: Seq<char>) -> bool {
        self.extension@ == extension && self.name@ == name
    }
}

fn format(extension: &str, name: &str) -> (f: SupportedFormat)
    ensures
        f.is(extension@, name@),
        f.max_size_mb == 100,
{
    SupportedFormat { extension: extension.to_owned(), name: name.to_owned(), max_size_mb: 100 }
}

/// The formats on offer: each supported extension with a name for it and
/// the largest size, which is 100 MB for all.
pub fn get_supported_formats() -> (r: SupportedFormatsResponse)
    ensures
        r.formats@.len() == 10,
        forall|i: int|
            0 <= i < 10 ==> is_supported((#[trigger] r.formats@[i]).extension@)
                && r.formats@[i].max_size_mb == 100,
        r.formats@[0].is(".txt"@, "Plain Text"@),
        r.formats@[1].is(".pdf"@, "PDF Document"@),
        r.formats@[2].is(".docx"@, "Word Document (2007+)"@),
        r.formats@[3].is(".doc"@, "Word Document (97-2003)"@),
        r.formats@[4].is(".csv"@, "CSV Spreadsheet"@),
        r.formats@[5].is(".xlsx"@, "Excel Spreadsheet (2007+)"@),
        r.formats@[6].is(".xls"@, "Excel Spreadsheet (97-2003)"@),
        r.formats@[7].is(".md"@, "Markdown Document"@),
        r.formats@[8].is(".pptx"@, "PowerPoint Presentation"@),
        r.formats@[9].is(".json"@, "JSON Data File"@),
{
    let mut formats: Vec<SupportedFormat> = Vec::new();
    formats.push(format(".txt", "Plain Text"));
    formats.push(format(".pdf", "PDF Document"));
    formats.push(format(".docx", "Word Document (2007+)"));
    formats.push(format(".doc", "Word Document (97-2003)"));
    formats.push(format(".csv", "CSV Spreadsheet"));
    formats.push(format(".xlsx", "Excel Spreadsheet (2007+)"));
    formats.push(format(".xls", "Excel Spreadsheet (97-2003)"));
    formats.push(format(".md", "Markdown Document"));
    formats.push(format(".pptx", "PowerPoint Presentation"));
    formats.push(format(".json", "JSON Data File"));
    SupportedFormatsResponse { formats }
}

/// Whether `v` holds the character `c`.
fn holds(v: &Vec<char>, c: char) -> (r: bool)
    ensures
        r == v@.contains(c),
{
    let mut i: usize = 0;
    while i < v.len()
        invariant
            i <= v.len(),
            forall|m: int| 0 <= m < i ==> v@[m] != c,
        decreases v.len() - i,
    {
        if v[i] == c {
            return true;
        }
        i += 1;
    }
    false
}

/// Whether the name `filename`, whose extension is `extension`, can be
/// taken; if not, why.
pub fn check_filename(filename: &str, extension: Option<&str>) -> (r: Result<(), String>)
    ensures
        answers(
            r,
            refusal(
                filename@,
                match extension {
                    Some(e) => Some(e@),
                    None => None,
                },
            ),
        ),
        r is Ok <==> is_valid_upload(
            filename@,
            match extension {
                Some(e) => Some(e@),
                None => None,
            },
        ),
{
    let v = to_chars(filename);
    if v.len() == 0 {
        return Err("Filename cannot be empty".to_owned());
    }
    if byte_length(&v) > 255 {
        return Err("Filename is too long (max 255 characters)".to_owned());
    }
    if holds(&v, '/') || holds(&v, '\\') {
        return Err("Invalid filename: path separators not allowed".to_owned());
    }
    if holds(&v, '\0') {
        return Err("Invalid filename: contains null bytes".to_owned());
    }
    match extension {
        Some(ext) => {
            match resolve_file_type(Some(ext), None) {
                Some(file_type) => {
                    if !supported_extension(file_type.as_str()) {
                        let mut out: Vec<char> = Vec::new();
                        push_str(&mut out, "Unsupported file format: ");
                        push_str(&mut out, file_type.as_str());
                        push_str(
                            &mut out,
                            ". Supported: .pdf, .txt, .doc, .docx, .csv, .xlsx, .xls, .md, .pptx, .json",
                        );
                        return Err(from_chars(&out));
                    }
                },
                None => {},
            }
        },
        None => {},
    }
    Ok(())
}

/// Whether an upload called `filename` can be taken; if not, why. The
/// extension is taken from the name as the platform reads paths: of a name
/// that holds no `:` beside no separator it is `name_extension` of the name.
pub fn validate_filename(filename: &str) -> (r: Result<(), String>)
    ensures
        exists|extension: Option<Seq<char>>| answers(r, #[trigger] refusal(filename@, extension)),
        is_single_component(filename@) ==> answers(
            r,
            refusal(filename@, name_extension(filename@)),
        ),
        is_single_component(filename@) ==> (r is Ok <==> is_valid_upload(
            filename@,
            name_extension(filename@),
        )),
        r is Ok ==> is_acceptable_name(filename@),
        !is_acceptable_name(filename@) ==> r is Err,
        is_acceptable_name(filename@) && !filename@.contains('.') ==> r is Ok,
{
    let extension = extension_of(filename);
    let r = check_filename(
        filename,
        match &extension {
            Some(e) => Some(e.as_str()),
            None => None,
        },
    );
    assert(answers(r, refusal(filename@, extension.deep_view())));
    r
}

} // verus!
