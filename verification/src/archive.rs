//! Word and PowerPoint files: ZIP archives whose entries are XML documents.

use vstd::prelude::*;
use crate::processor::DocumentProcessor;
use crate::text::{concat, from_chars, push_all, starts_with, ends_with, to_chars};
use crate::xml::{collapse_tags, xml_text};

verus! {

/// What the crate `zip` gives as the entries of the archive `bytes`: for each
/// entry in the archive's order its name, or nothing where the entry cannot be
/// opened. Nothing at all where `bytes` cannot be opened as an archive.
pub uninterp spec fn zip_entry_names(bytes: Seq<u8>) -> Option<Seq<Option<Seq<char>>>>;

/// What the crate `zip` and `Read::read_to_string` give as the text of entry
/// `index` of the archive `bytes`: what could be read of it as UTF-8, or nothing
/// where the archive or the entry cannot be opened.
pub uninterp spec fn zip_entry_text(bytes: Seq<u8>, index: nat) -> Option<Seq<char>>;

/// What the crate `zip` and `Read::read_to_string` give as the text of the
/// entry called `name` of the archive `bytes`, or nothing where the archive or
/// the entry cannot be opened or the entry cannot be read as UTF-8.
pub uninterp spec fn zip_named_text(bytes: Seq<u8>, name: Seq<char>) -> Option<Seq<char>>;

/// How reading an entry by its name ended.
#[derive(Debug)]
pub enum NamedEntry {
    /// The entry's text.
    Text(String),
    /// The bytes are no archive; with the cause.
    NoArchive(String),
    /// The archive has no such entry, or it cannot be opened; with the cause.
    NoEntry(String),
    /// The entry cannot be read as text; with the cause.
    Unreadable(String),
}

/// `ZipArchive::new` over the bytes, then `ZipArchive::by_index_decrypt` with
/// the empty password and `ZipFile::name` for each index below
/// `ZipArchive::len`. The variant with a password is called because it hands a
/// refused entry back where `by_index` would panic on it. An encrypted entry
/// is thereby tried with the empty password: the one-byte check of the old
/// ZIP encryption lets about one such entry in 256 pass, and that entry is
/// opened where `by_index` would refuse it. The result is a function of the
/// bytes alone.
#[verifier::external_body]
fn archive_entry_names(bytes: &[u8]) -> (r: Result<Vec<Option<String>>, String>)
    ensures
        r matches Ok(names) ==> zip_entry_names(bytes@) == Some(names.deep_view()),
        r is Err ==> zip_entry_names(bytes@) is None,
{
    let mut archive = zip::ZipArchive::new(std::io::Cursor::new(bytes)).map_err(|e| e.to_string())?;
    let names = (0..archive.len()).map(|i| match archive.by_index_decrypt(i, b"") {
        Ok(Ok(entry)) => Some(entry.name().to_string()),
        _ => None,
    });
    Ok(names.collect())
}

/// `ZipArchive::new` over the bytes, `ZipArchive::by_index_decrypt` with the
/// empty password, and `Read::read_to_string` on the entry. Where reading
/// fails, what was read before as valid UTF-8 is the text. An encrypted entry
/// that passes the one-byte check with the empty password, as about one in
/// 256 does, is read as what the wrong key makes of it. The result is a
/// function of the bytes and the index alone.
#[verifier::external_body]
fn archive_entry_text(bytes: &[u8], index: usize) -> (r: Option<String>)
    ensures
        r.deep_view() == zip_entry_text(bytes@, index as nat),
{
    let mut archive = zip::ZipArchive::new(std::io::Cursor::new(bytes)).ok()?;
    let mut entry = archive.by_index_decrypt(index, b"").ok()?.ok()?;
    let mut text = String::new();
    let _ = std::io::Read::read_to_string(&mut entry, &mut text);
    Some(text)
}

/// `ZipArchive::new` over the bytes, `ZipArchive::by_name_decrypt` with the
/// empty password, and `Read::read_to_string` on the entry; each failure with
/// the message of its error. An encrypted entry is tried with the empty
/// password, as in `archive_entry_names`. Whether a text comes back, and
/// which, is a function of the bytes and the name alone.
#[verifier::external_body]
fn archive_named_text(bytes: &[u8], name: &str) -> (r: NamedEntry)
    ensures
        r matches NamedEntry::Text(text) ==> zip_named_text(bytes@, name@) == Some(text@),
        !(r is Text) ==> zip_named_text(bytes@, name@) is None,
{
    let mut archive = match zip::ZipArchive::new(std::io::Cursor::new(bytes)) {
        Ok(archive) => archive,
        Err(e) => return NamedEntry::NoArchive(e.to_string()),
    };
    let mut entry = match archive.by_name_decrypt(name, b"") {
        Ok(Ok(entry)) => entry,
        Ok(Err(e)) => return NamedEntry::NoEntry(e.to_string()),
        Err(e) => return NamedEntry::NoEntry(e.to_string()),
    };
    let mut text = String::new();
    match std::io::Read::read_to_string(&mut entry, &mut text) {
        Ok(_) => NamedEntry::Text(text),
        Err(e) => NamedEntry::Unreadable(e.to_string()),
    }
}

/// The name of a slide of a presentation: `ppt/slides/slide`, anything, `.xml`.
pub open spec fn is_slide_name(name: Seq<char>) -> bool {
    "ppt/slides/slide"@.is_prefix_of(name) && ".xml"@.is_suffix_of(name)
}

/// The text of the first `n` entries of a presentation: for each entry that
/// has a slide's name and a text, the text of that XML document and a line feed.
pub open spec fn slides_text(
    names: Seq<Option<Seq<char>>>,
    texts: Seq<Option<Seq<char>>>,
    n: int,
) -> Seq<char>
    decreases n,
{
    if n <= 0 || n > names.len() || n > texts.len() {
        seq![]
    } else {
        let before = slides_text(names, texts, n - 1);
        match (names[n - 1], texts[n - 1]) {
            (Some(name), Some(text)) => if is_slide_name(name) {
                before + xml_text(text) + seq!['\n']
            } else {
                before
            },
            _ => before,
        }
    }
}

/// The texts of the entries of the archive `bytes` that have a slide's name;
/// nothing for the other entries.
pub open spec fn slide_entries(bytes: Seq<u8>, names: Seq<Option<Seq<char>>>) -> Seq<
    Option<Seq<char>>,
> {
    Seq::new(
        names.len(),
        |i: int|
            match names[i] {
                Some(name) => if is_slide_name(name) {
                    zip_entry_text(bytes, i as nat)
                } else {
                    None
                },
                None => None,
            },
    )
}

/// The text of the presentation `bytes`: that of its slides in the archive's
/// order. Nothing where `bytes` is no archive or the slides have no text at all.
pub open spec fn pptx_text(bytes: Seq<u8>) -> Option<Seq<char>> {
    match zip_entry_names(bytes) {
        Some(names) => {
            let text = slides_text(names, slide_entries(bytes, names), names.len() as int);
            if text.len() > 0 {
                Some(text)
            } else {
                None
            }
        },
        None => None,
    }
}

/// The text of the Word document `bytes`: that of its entry
/// `word/document.xml`. Nothing where that entry cannot be read.
pub open spec fn docx_text(bytes: Seq<u8>) -> Option<Seq<char>> {
    match zip_named_text(bytes, "word/document.xml"@) {
        Some(xml) => Some(xml_text(xml)),
        None => None,
    }
}

/// Whether `name` is the name of a slide.
pub fn is_slide(name: &str) -> (r: bool)
    ensures
        r == is_slide_name(name@),
{
    let v = to_chars(name);
    let prefix = to_chars("ppt/slides/slide");
    let suffix = to_chars(".xml");
    starts_with(&v, &prefix) && ends_with(&v, &suffix)
}

/// The text of the slides among the entries of a presentation: `names` are
/// the entries' names and `texts` their texts, both in the archive's order.
/// Entries past the shorter of the two are not looked at.
pub fn render_slides(names: &Vec<Option<String>>, texts: &Vec<Option<String>>) -> (r: String)
    ensures
        r@ == slides_text(
            names.deep_view(),
            texts.deep_view(),
            if names.len() <= texts.len() {
                names.len() as int
            } else {
                texts.len() as int
            },
        ),
{
    let n = if names.len() <= texts.len() {
        names.len()
    } else {
        texts.len()
    };
    let mut out: Vec<char> = Vec::new();
    let mut i: usize = 0;
    while i < n
        invariant
            i <= n,
            n <= names.len(),
            n <= texts.len(),
            out@ == slides_text(names.deep_view(), texts.deep_view(), i as int),
        decreases n - i,
    {
        proof {
            assert(names.deep_view()[i as int] == names@[i as int].deep_view());
            assert(texts.deep_view()[i as int] == texts@[i as int].deep_view());
        }
        match (&names[i], &texts[i]) {
            (Some(name), Some(text)) => {
                if is_slide(name.as_str()) {
                    let slide = collapse_tags(text.as_str());
                    push_all(&mut out, &slide);
                    out.push('\n');
                }
            },
            _ => {},
        }
        i += 1;
        assert(out@ =~= slides_text(names.deep_view(), texts.deep_view(), i as int));
    }
    from_chars(&out)
}

impl DocumentProcessor {
    /// The text of the Word document `bytes`, or why it has none.
    pub fn extract_docx_text(&self, bytes: &[u8]) -> (r: Result<String, String>)
        ensures
            r matches Ok(text) ==> docx_text(bytes@) == Some(text@),
            r is Err ==> docx_text(bytes@) is None,
    {
        match archive_named_text(bytes, "word/document.xml") {
            NamedEntry::Text(xml) => Ok(self.extract_text_from_xml(xml.as_str())),
            NamedEntry::NoArchive(cause) => Err(
                concat("Failed to read DOCX archive: ", cause.as_str()),
            ),
            NamedEntry::NoEntry(cause) => Err(
                concat("Failed to find document.xml in DOCX: ", cause.as_str()),
            ),
            NamedEntry::Unreadable(cause) => Err(
                concat("Failed to read document.xml: ", cause.as_str()),
            ),
        }
    }

    /// The text of the presentation `bytes`, or why it has none.
    pub fn extract_pptx_text(&self, bytes: &[u8]) -> (r: Result<String, String>)
        ensures
            r matches Ok(text) ==> pptx_text(bytes@) == Some(text@),
            r is Err ==> pptx_text(bytes@) is None,
    {
        let names = match archive_entry_names(bytes) {
            Ok(names) => names,
            Err(cause) => {
                return Err(concat("Failed to read PPTX archive: ", cause.as_str()));
            },
        };
        let ghost wanted = slide_entries(bytes@, names.deep_view());
        let mut texts: Vec<Option<String>> = Vec::new();
        let mut i: usize = 0;
        while i < names.len()
            invariant
                i <= names.len(),
                texts.len() == i,
                wanted == slide_entries(bytes@, names.deep_view()),
                texts.deep_view() == wanted.take(i as int),
            decreases names.len() - i,
        {
            proof {
                assert(names.deep_view()[i as int] == names@[i as int].deep_view());
            }
            let text = match &names[i] {
                Some(name) => {
                    if is_slide(name.as_str()) {
                        archive_entry_text(bytes, i)
                    } else {
                        None
                    }
                },
                None => None,
            };
            assert(text.deep_view() == wanted[i as int]);
            texts.push(text);
            i += 1;
            assert(texts.deep_view() =~= wanted.take(i as int));
        }
        assert(wanted.take(names.len() as int) =~= wanted);
        let text = render_slides(&names, &texts);
        if text.as_str().unicode_len() == 0 {
            Err("No text content found in PPTX file".to_owned())
        } else {
            Ok(text)
        }
    }
}

} // verus!
