//! What is shown of the groups: the lines of a menu, the rows of a report,
//! the name of a report file.
//!
//! Nothing here draws, prints or writes. The functions build the texts, and
//! the caller hands them to whatever renders them.

use vstd::prelude::*;
use vstd::string::*;
use crate::groups::{DuplicateGroup, GroupModel, GroupView};
use crate::ignore::{file_name, file_name_of, EntryKind};
use crate::text::{decimal, to_decimal};

verus! {

/// How many groups a menu offers at most.
pub const MAX_OPTIONS: usize = 10;

/// The size of `bytes` bytes for a reader, in decimal units: what
/// `humansize` makes of it with its `DECIMAL` options.
pub uninterp spec fn human_size(bytes: u64) -> Seq<char>;

/// Calls `humansize::format_size` with the options `humansize::DECIMAL`.
///
/// Trusted: the text is a function of the number alone. The formatter
/// divides by 1000 until the value is below it, which for a `u64` ends at
/// exabytes, within its table of units.
#[verifier::external_body]
fn format_size(bytes: u64) -> (text: String)
    ensures
        text@ == human_size(bytes),
{
    humansize::format_size(bytes, humansize::DECIMAL)
}

/// The text of a size that may be unknown: empty where the size could not
/// be resolved, as for a file that vanished after the scan.
pub open spec fn size_text_of(size: Option<u64>) -> Seq<char> {
    match size {
        Some(bytes) => human_size(bytes),
        None => Seq::empty(),
    }
}

/// The text of a size that may be unknown.
pub fn size_text(size: Option<u64>) -> (text: String)
    ensures
        text@ == size_text_of(size),
{
    match size {
        Some(bytes) => format_size(bytes),
        None => String::new(),
    }
}

/// The menu line of a group: its canonical path, the number of its
/// duplicates and its fingerprint.
pub open spec fn option_text(group: GroupView) -> Seq<char> {
    group.canonical + ", "@ + decimal(group.duplicates.len()) + " mal, HASH: ["@
        + group.fingerprint + "]"@
}

/// The menu line of a group.
pub fn option_line(group: &DuplicateGroup) -> (line: String)
    ensures
        line@ == option_text(group@),
{
    let mut line = group.canonical.clone();
    line.append(", ");
    line.append(to_decimal(group.duplicates.len()).as_str());
    line.append(" mal, HASH: [");
    line.append(group.fingerprint.as_str());
    line.append("]");
    line
}

/// The menu lines of the first groups of the model, at most
/// [`MAX_OPTIONS`] of them, in the order of the groups. A line stands at the
/// position of its group, so that a choice is a position in the model.
pub fn generate_options(model: &GroupModel) -> (options: Vec<String>)
    requires
        model.wf(),
    ensures
        options.len() == if model@.len() < MAX_OPTIONS {
            model@.len()
        } else {
            MAX_OPTIONS as nat
        },
        forall|i: int| 0 <= i < options.len() ==> (#[trigger] options[i])@ == option_text(model@[i]),
{
    let mut options: Vec<String> = Vec::new();
    let mut at: usize = 0;
    while at < MAX_OPTIONS && at < model.group_count()
        invariant
            model.wf(),
            at <= MAX_OPTIONS,
            at <= model@.len(),
            options.len() == at,
            forall|i: int| 0 <= i < at ==> (#[trigger] options[i])@ == option_text(model@[i]),
        decreases MAX_OPTIONS - at,
    {
        match model.group(at) {
            Some(group) => {
                options.push(option_line(group));
            },
            None => {},
        }
        at += 1;
    }
    options
}

/// The characters of a size text that may be left out.
pub open spec fn shown(size: Option<String>) -> Option<Seq<char>> {
    match size {
        Some(text) => Some(text@),
        None => None,
    }
}

/// The column titles of the table report.
pub open spec fn headers_of(with_sizes: bool) -> Seq<Seq<char>> {
    if with_sizes {
        seq!["Filename"@, "Duplicates"@, "Hash"@, "Size"@]
    } else {
        seq!["Filename"@, "Duplicates"@, "Hash"@]
    }
}

/// The column titles of the table report.
pub fn csv_headers(with_sizes: bool) -> (headers: Vec<String>)
    ensures
        headers.deep_view() == headers_of(with_sizes),
{
    let mut headers: Vec<String> = Vec::new();
    headers.push(String::from_str("Filename"));
    headers.push(String::from_str("Duplicates"));
    headers.push(String::from_str("Hash"));
    if with_sizes {
        headers.push(String::from_str("Size"));
    }
    assert(headers.deep_view() =~= headers_of(with_sizes));
    headers
}

/// The row of a group in the table report: canonical path, number of
/// duplicates, fingerprint, and the size text where one is given.
pub open spec fn csv_row_of(group: GroupView, size: Option<Seq<char>>) -> Seq<Seq<char>> {
    let row = seq![group.canonical, decimal(group.duplicates.len()), group.fingerprint];
    match size {
        Some(text) => row.push(text),
        None => row,
    }
}

/// The row of a group in the table report.
pub fn csv_row(group: &DuplicateGroup, size: Option<String>) -> (row: Vec<String>)
    ensures
        row.deep_view() == csv_row_of(group@, shown(size)),
{
    let mut row: Vec<String> = Vec::new();
    row.push(group.canonical.clone());
    row.push(to_decimal(group.duplicates.len()));
    row.push(group.fingerprint.clone());
    let ghost cell = shown(size);
    match size {
        Some(text) => {
            row.push(text);
        },
        None => {},
    }
    assert(row.deep_view() =~= csv_row_of(group@, cell));
    row
}

/// The row of a group in the printed report: the file name of the canonical
/// path, the number of further copies, the fingerprint, and the size text
/// where one is given.
pub open spec fn pdf_row_of(group: GroupView, size: Option<Seq<char>>) -> Seq<Seq<char>> {
    let row = seq![
        file_name_of(group.canonical),
        decimal(group.duplicates.len()) + " weitere"@,
        group.fingerprint,
    ];
    match size {
        Some(text) => row.push(text),
        None => row,
    }
}

/// The row of a group in the printed report.
pub fn pdf_row(group: &DuplicateGroup, size: Option<String>) -> (row: Vec<String>)
    ensures
        row.deep_view() == pdf_row_of(group@, shown(size)),
{
    let mut row: Vec<String> = Vec::new();
    row.push(String::from_str(file_name(group.canonical.as_str())));
    let mut copies = to_decimal(group.duplicates.len());
    copies.append(" weitere");
    row.push(copies);
    row.push(group.fingerprint.clone());
    let ghost cell = shown(size);
    match size {
        Some(text) => {
            row.push(text);
        },
        None => {},
    }
    assert(row.deep_view() =~= pdf_row_of(group@, cell));
    row
}

/// A line of the listing of a group: the path, and behind a blank the size
/// text where one is given.
pub open spec fn listing_line_of(path: Seq<char>, size: Option<Seq<char>>) -> Seq<char> {
    match size {
        Some(text) => path + " "@ + text,
        None => path,
    }
}

/// A line of the listing of a group.
pub fn listing_line(path: &str, size: Option<&str>) -> (line: String)
    ensures
        line@ == listing_line_of(
            path@,
            match size {
                Some(text) => Some(text@),
                None => None,
            },
        ),
{
    let mut line = String::from_str(path);
    match size {
        Some(text) => {
            line.append(" ");
            line.append(text);
        },
        None => {},
    }
    line
}

/// The kinds of report file.
#[derive(Clone, Copy, Debug, PartialEq, Eq, Structural)]
pub enum ReportKind {
    Pdf,
    Csv,
}

/// The name of a report file that was made at the time `stamp`.
pub open spec fn report_name_of(kind: ReportKind, stamp: Seq<char>) -> Seq<char> {
    "file_copy_checker_report_"@ + stamp + match kind {
        ReportKind::Pdf => ".pdf"@,
        ReportKind::Csv => ".csv"@,
    }
}

/// The name of a report file that was made at the time `stamp`.
pub fn report_file_name(kind: ReportKind, stamp: &str) -> (name: String)
    ensures
        name@ == report_name_of(kind, stamp@),
{
    let mut name = String::from_str("file_copy_checker_report_");
    name.append(stamp);
    match kind {
        ReportKind::Pdf => name.append(".pdf"),
        ReportKind::Csv => name.append(".csv"),
    }
    name
}

/// Why a report cannot be written to the place that was named.
#[derive(Clone, Copy, Debug, PartialEq, Eq, Structural)]
pub enum DestinationError {
    /// Nothing exists at the path.
    DoesNotExist,
    /// The path is no directory.
    NotADirectory,
}

/// Whether a report can be written into what was found at the destination:
/// only into a directory. A refusal ends the export and nothing else.
pub fn check_destination(found: EntryKind) -> (verdict: Result<(), DestinationError>)
    ensures
        verdict == match found {
            EntryKind::Directory => Ok::<(), DestinationError>(()),
            EntryKind::Missing => Err(DestinationError::DoesNotExist),
            _ => Err(DestinationError::NotADirectory),
        },
{
    match found {
        EntryKind::Directory => Ok(()),
        EntryKind::Missing => Err(DestinationError::DoesNotExist),
        _ => Err(DestinationError::NotADirectory),
    }
}

} // verus!
