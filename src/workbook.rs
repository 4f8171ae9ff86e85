use vstd::prelude::*;

use calamine::{Reader, Xlsx, XlsxError};
use std::io::Cursor;

use crate::sheets::row_views;

verus! {

#[verifier::external_type_specification]
#[verifier::external_body]
#[verifier::reject_recursive_types(RS)]
pub struct ExXlsx<RS>(Xlsx<RS>);

#[verifier::external_type_specification]
#[verifier::external_body]
pub struct ExXlsxError(XlsxError);

/// Whether `calamine::Xlsx::new` opens a workbook held in the bytes.
pub uninterp spec fn workbook_opens(data: Seq<u8>) -> bool;

/// What `calamine::Reader::sheet_names` lists for the workbook held in the
/// bytes.
pub uninterp spec fn workbook_sheet_names(data: Seq<u8>) -> Seq<Seq<char>>;

/// What `calamine::Reader::worksheet_range` gives for the named worksheet
/// of the workbook held in the bytes: its rows, each cell by its `Display`
/// text, or `None` where the worksheet cannot be read.
pub uninterp spec fn workbook_sheet_rows(data: Seq<u8>, name: Seq<char>) -> Option<
    Seq<Seq<Seq<char>>>,
>;

/// A spreadsheet workbook, opened over the bytes of a document and kept
/// with them.
pub struct Workbook<'a> {
    book: Xlsx<Cursor<&'a [u8]>>,
    data: &'a [u8],
}

impl<'a> Workbook<'a> {
    /// The bytes the workbook was opened over.
    pub closed spec fn source(&self) -> Seq<u8> {
        self.data@
    }
}

/// Relies on `calamine::Xlsx::new` (`Reader::new`): opens the workbook held
/// in the bytes, or reports why they hold none; which of the two depends on
/// the bytes alone.
#[verifier::external_body]
pub(crate) fn open_workbook<'a>(data: &'a [u8]) -> (r: Result<Workbook<'a>, XlsxError>)
    ensures
        r is Ok <==> workbook_opens(data@),
        r matches Ok(w) ==> w.source() == data@,
{
    Xlsx::new(Cursor::new(data)).map(|book| Workbook { book, data })
}

/// Relies on `calamine::Reader::sheet_names`: the names of the worksheets,
/// in workbook order; they depend on the bytes alone.
#[verifier::external_body]
pub(crate) fn sheet_names(workbook: &Workbook) -> (r: Vec<String>)
    ensures
        r@.map_values(|s: String| s@) == workbook_sheet_names(workbook.source()),
{
    workbook.book.sheet_names()
}

/// Relies on `calamine::Reader::worksheet_range`: the rows of the named
/// worksheet, each cell given by its `Display` text, or the error met
/// reading the worksheet; the outcome depends on the bytes and the name
/// alone.
#[verifier::external_body]
pub(crate) fn sheet_rows(workbook: &mut Workbook, name: &str) -> (r: Result<
    Vec<Vec<String>>,
    XlsxError,
>)
    ensures
        final(workbook).source() == old(workbook).source(),
        match r {
            Ok(rows) => workbook_sheet_rows(old(workbook).source(), name@) == Some(
                row_views(rows@),
            ),
            Err(_) => workbook_sheet_rows(old(workbook).source(), name@) is None,
        },
{
    workbook.book.worksheet_range(name).map(
        |range| range.rows().map(|row| row.iter().map(|cell| cell.to_string()).collect()).collect(),
    )
}

} // verus!
