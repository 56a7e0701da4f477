//! Tables as text: the records of a CSV file and the sheets of a workbook, one
//! row on each line, the cells of a row kept apart by ` | `.

use vstd::prelude::*;
use crate::processor::DocumentProcessor;
use crate::text::{from_chars, join, lemma_join_push, push_str};

verus! {

/// What stands between two cells of a row.
pub open spec fn cell_gap() -> Seq<char> {
    seq![' ', '|', ' ']
}

/// A row as text: its cells with ` | ` between each two.
pub open spec fn row_text(cells: Seq<Seq<char>>) -> Seq<char> {
    join(cells, cell_gap())
}

/// The rows as text, a line feed after each.
pub open spec fn rows_text(rows: Seq<Seq<Seq<char>>>) -> Seq<char>
    decreases rows.len(),
{
    if rows.len() == 0 {
        seq![]
    } else {
        rows_text(rows.drop_last()) + row_text(rows.last()) + seq!['\n']
    }
}

/// The header line of a CSV file and the rule below it; nothing where the
/// header could not be read.
pub open spec fn header_text(header: Option<Seq<Seq<char>>>) -> Seq<char> {
    match header {
        Some(cells) => row_text(cells) + seq!['\n', '-', '-', '-', '\n'],
        None => seq![],
    }
}

/// The records of a CSV file as text, a line feed after each; a record that
/// could not be read leaves nothing.
pub open spec fn records_text(records: Seq<Option<Seq<Seq<char>>>>) -> Seq<char>
    decreases records.len(),
{
    if records.len() == 0 {
        seq![]
    } else {
        let before = records_text(records.drop_last());
        match records.last() {
            Some(cells) => before + row_text(cells) + seq!['\n'],
            None => before,
        }
    }
}

/// A CSV file as text: a banner with the file's name, an empty line, the
/// header with its rule, and the records.
pub open spec fn csv_text(
    file_name: Seq<char>,
    header: Option<Seq<Seq<char>>>,
    records: Seq<Option<Seq<Seq<char>>>>,
) -> Seq<char> {
    "Document: "@ + file_name + seq!['\n', '\n'] + header_text(header) + records_text(records)
}

/// What a CSV reader of the crate `csv` gives as the header of `content`: the
/// fields of its first record, or nothing where that record cannot be read.
pub uninterp spec fn csv_header(content: Seq<char>) -> Option<Seq<Seq<char>>>;

/// What a CSV reader of the crate `csv` gives as the records of `content`
/// after the header, in order: the fields of each, or nothing for a record
/// that cannot be read.
pub uninterp spec fn csv_records(content: Seq<char>) -> Seq<Option<Seq<Seq<char>>>>;

/// `csv::Reader::headers` on a reader over `content` with the crate's default
/// settings. The result is a function of `content` alone.
#[verifier::external_body]
fn read_csv_header(content: &str) -> (r: Option<Vec<String>>)
    ensures
        r.deep_view() == csv_header(content@),
{
    let mut reader = csv::Reader::from_reader(content.as_bytes());
    reader.headers().ok().map(|h| h.iter().map(|f| f.to_string()).collect())
}

/// `csv::Reader::records` on a reader over `content` with the crate's default
/// settings, each record handed out as its fields. The result is a function of
/// `content` alone.
#[verifier::external_body]
fn read_csv_records(content: &str) -> (r: Vec<Option<Vec<String>>>)
    ensures
        r.deep_view() == csv_records(content@),
{
    let mut reader = csv::Reader::from_reader(content.as_bytes());
    reader.records().map(|r| r.ok().map(|f| f.iter().map(|c| c.to_string()).collect())).collect()
}

/// Appends the row `cells` to `out`.
fn push_row(out: &mut Vec<char>, cells: &Vec<String>)
    ensures
        final(out)@ == old(out)@ + row_text(cells.deep_view()),
{
    let ghost all = cells.deep_view();
    let mut i: usize = 0;
    assert(out@ =~= old(out)@ + join(all.take(0), cell_gap()));
    while i < cells.len()
        invariant
            i <= cells.len(),
            all == cells.deep_view(),
            out@ == old(out)@ + join(all.take(i as int), cell_gap()),
        decreases cells.len() - i,
    {
        if i > 0 {
            out.push(' ');
            out.push('|');
            out.push(' ');
        }
        push_str(out, cells[i].as_str());
        proof {
            assert(all[i as int] == cells@[i as int]@);
            assert(all.take(i + 1) =~= all.take(i as int).push(all[i as int]));
            lemma_join_push(all.take(i as int), cell_gap(), all[i as int]);
            assert(out@ =~= old(out)@ + join(all.take(i + 1), cell_gap()));
        }
        i += 1;
    }
    assert(all.take(cells.len() as int) =~= all);
}

/// The text of a CSV file from what a reader gave of it.
pub fn render_csv(
    file_name: &str,
    header: &Option<Vec<String>>,
    records: &Vec<Option<Vec<String>>>,
) -> (r: String)
    ensures
        r@ == csv_text(file_name@, header.deep_view(), records.deep_view()),
{
    let mut out: Vec<char> = Vec::new();
    push_str(&mut out, "Document: ");
    push_str(&mut out, file_name);
    out.push('\n');
    out.push('\n');
    match header {
        Some(cells) => {
            push_row(&mut out, cells);
            out.push('\n');
            out.push('-');
            out.push('-');
            out.push('-');
            out.push('\n');
        },
        None => {},
    }
    let ghost head = "Document: "@ + file_name@ + seq!['\n', '\n'] + header_text(
        header.deep_view(),
    );
    assert(out@ =~= head);
    let ghost all = records.deep_view();
    let mut i: usize = 0;
    assert(out@ =~= head + records_text(all.take(0)));
    while i < records.len()
        invariant
            i <= records.len(),
            all == records.deep_view(),
            out@ == head + records_text(all.take(i as int)),
        decreases records.len() - i,
    {
        proof {
            assert(all.take(i + 1).drop_last() =~= all.take(i as int));
            assert(all.take(i + 1).last() == all[i as int]);
            assert(all[i as int] == records@[i as int].deep_view());
        }
        match &records[i] {
            Some(cells) => {
                push_row(&mut out, cells);
                out.push('\n');
            },
            None => {},
        }
        i += 1;
        assert(out@ =~= head + records_text(all.take(i as int)));
    }
    assert(all.take(records.len() as int) =~= all);
    from_chars(&out)
}

/// One sheet of a workbook: its name and, where they could be read, its rows,
/// each cell as the text it shows.
#[derive(Debug, Clone)]
pub struct Sheet {
    pub name: String,
    pub rows: Option<Vec<Vec<String>>>,
}

/// A sheet as the rendering sees it.
pub struct SheetView {
    pub name: Seq<char>,
    pub rows: Option<Seq<Seq<Seq<char>>>>,
}

impl Sheet {
    pub open spec fn view(&self) -> SheetView {
        SheetView { name: self.name@, rows: self.rows.deep_view() }
    }
}

/// The views of the sheets, in order.
pub open spec fn sheet_views(sheets: Seq<Sheet>) -> Seq<SheetView> {
    Seq::new(sheets.len(), |i: int| sheets[i]@)
}

/// The rule below a sheet's name: fifty box-drawing dashes.
pub open spec fn sheet_rule() -> Seq<char> {
    Seq::new(50, |i: int| '\u{2500}')
}

/// A sheet as text: its name, the rule, its rows where they could be read,
/// and an empty line.
pub open spec fn sheet_text(sheet: SheetView) -> Seq<char> {
    "Sheet: "@ + sheet.name + seq!['\n'] + sheet_rule() + seq!['\n'] + (match sheet.rows {
        Some(rows) => rows_text(rows),
        None => seq![],
    }) + seq!['\n']
}

/// The sheets as text, in order.
pub open spec fn workbook_text(sheets: Seq<SheetView>) -> Seq<char>
    decreases sheets.len(),
{
    if sheets.len() == 0 {
        seq![]
    } else {
        workbook_text(sheets.drop_last()) + sheet_text(sheets.last())
    }
}

fn push_rule(out: &mut Vec<char>)
    ensures
        final(out)@ == old(out)@ + sheet_rule(),
{
    let mut i: usize = 0;
    while i < 50
        invariant
            i <= 50,
            out@ == old(out)@ + sheet_rule().take(i as int),
        decreases 50 - i,
    {
        out.push('\u{2500}');
        i += 1;
        assert(out@ =~= old(out)@ + sheet_rule().take(i as int));
    }
    assert(sheet_rule().take(50) =~= sheet_rule());
}

fn push_rows(out: &mut Vec<char>, rows: &Vec<Vec<String>>)
    ensures
        final(out)@ == old(out)@ + rows_text(rows.deep_view()),
{
    let ghost all = rows.deep_view();
    let mut i: usize = 0;
    assert(out@ =~= old(out)@ + rows_text(all.take(0)));
    while i < rows.len()
        invariant
            i <= rows.len(),
            all == rows.deep_view(),
            out@ == old(out)@ + rows_text(all.take(i as int)),
        decreases rows.len() - i,
    {
        proof {
            assert(all.take(i + 1).drop_last() =~= all.take(i as int));
            assert(all.take(i + 1).last() == all[i as int]);
            assert(all[i as int] == rows@[i as int].deep_view());
        }
        push_row(out, &rows[i]);
        out.push('\n');
        i += 1;
        assert(out@ =~= old(out)@ + rows_text(all.take(i as int)));
    }
    assert(all.take(rows.len() as int) =~= all);
}

fn push_sheet(out: &mut Vec<char>, sheet: &Sheet)
    ensures
        final(out)@ == old(out)@ + sheet_text(sheet@),
{
    push_str(out, "Sheet: ");
    push_str(out, sheet.name.as_str());
    out.push('\n');
    push_rule(out);
    out.push('\n');
    match &sheet.rows {
        Some(rows) => {
            push_rows(out, rows);
        },
        None => {},
    }
    out.push('\n');
    assert(out@ =~= old(out)@ + sheet_text(sheet@));
}

impl DocumentProcessor {
    /// The text of the CSV file `content`, under a banner with `file_name`.
    pub fn extract_csv_text(&self, file_name: &str, content: &str) -> (r: String)
        ensures
            r@ == csv_text(file_name@, csv_header(content@), csv_records(content@)),
    {
        let header = read_csv_header(content);
        let records = read_csv_records(content);
        render_csv(file_name, &header, &records)
    }

    /// The text of a workbook whose sheets were read as `sheets`.
    pub fn extract_excel_text(&self, sheets: &Vec<Sheet>) -> (r: String)
        ensures
            r@ == workbook_text(sheet_views(sheets@)),
    {
        let mut out: Vec<char> = Vec::new();
        let ghost all = sheet_views(sheets@);
        let mut i: usize = 0;
        assert(out@ =~= workbook_text(all.take(0)));
        while i < sheets.len()
            invariant
                i <= sheets.len(),
                all == sheet_views(sheets@),
                out@ == workbook_text(all.take(i as int)),
            decreases sheets.len() - i,
        {
            proof {
                assert(all.take(i + 1).drop_last() =~= all.take(i as int));
                assert(all.take(i + 1).last() == sheets@[i as int]@);
            }
            push_sheet(&mut out, &sheets[i]);
            i += 1;
        }
        assert(all.take(sheets.len() as int) =~= all);
        from_chars(&out)
    }
}

} // verus!
