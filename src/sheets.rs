use vstd::prelude::*;

use crate::document::{DocumentView, ParsedDocument};
use crate::text::{clean_text, join_with, lemma_join_push, normalize, starts_with, with_prefix};
use crate::workbook::{
    open_workbook, sheet_names, sheet_rows, workbook_opens, workbook_sheet_names, workbook_sheet_rows,
};

verus! {

/// A worksheet as read: its name and its rows, each row the display text
/// of its cells.
pub type SheetView = (Seq<char>, Seq<Seq<Seq<char>>>);

/// The rows written one per line, cells separated by tabs, each line ended
/// by a line feed.
pub open spec fn rows_text(rows: Seq<Seq<Seq<char>>>) -> Seq<char>
    decreases rows.len(),
{
    if rows.len() == 0 {
        Seq::empty()
    } else {
        rows_text(rows.drop_last()) + join_with(rows.last(), "\t"@) + "\n"@
    }
}

/// One worksheet as it is written out: a `[Sheet: name]` line, then its rows.
pub open spec fn sheet_block(sheet: SheetView) -> Seq<char> {
    "[Sheet: "@ + sheet.0 + "]\n"@ + rows_text(sheet.1)
}

/// The document made of the worksheets that could be read, in workbook order.
pub open spec fn sheets_view(sheets: Seq<SheetView>) -> DocumentView {
    DocumentView {
        text: normalize(join_with(sheets.map_values(|s: SheetView| sheet_block(s)), "\n"@)),
        pages: sheets.len(),
        file_type: "xlsx"@,
    }
}

/// The rows as mathematical values.
pub open spec fn row_views(rows: Seq<Vec<String>>) -> Seq<Seq<Seq<char>>> {
    rows.map_values(|r: Vec<String>| r@.map_values(|c: String| c@))
}

/// The worksheets as mathematical values.
pub open spec fn sheet_views(sheets: Seq<(String, Vec<Vec<String>>)>) -> Seq<SheetView> {
    sheets.map_values(|s: (String, Vec<Vec<String>>)| (s.0@, row_views(s.1@)))
}

/// A worksheet without rows still gives its header block, and still counts
/// as a page.
pub proof fn lemma_header_only_sheet(sheets: Seq<SheetView>, i: int)
    requires
        0 <= i < sheets.len(),
        sheets[i].1.len() == 0,
    ensures
        sheets.map_values(|s: SheetView| sheet_block(s))[i] == "[Sheet: "@ + sheets[i].0 + "]\n"@,
        sheets_view(sheets).pages == sheets.len(),
{
    assert("[Sheet: "@ + sheets[i].0 + "]\n"@ + Seq::<char>::empty() =~= "[Sheet: "@ + sheets[i].0
        + "]\n"@);
}

/// Appends the cells of one row, separated by tabs, then a line feed.
fn append_row(out: &mut String, row: &Vec<String>)
    ensures
        final(out)@ == old(out)@ + join_with(row@.map_values(|c: String| c@), "\t"@) + "\n"@,
{
    let ghost cells = row@.map_values(|c: String| c@);
    let ghost before = out@;
    let mut k: usize = 0;
    while k < row.len()
        invariant
            k <= row@.len(),
            cells == row@.map_values(|c: String| c@),
            out@ == before + join_with(cells.subrange(0, k as int), "\t"@),
        decreases row@.len() - k,
    {
        proof {
            lemma_join_push(cells.subrange(0, k as int), cells[k as int], "\t"@);
            assert(cells.subrange(0, k + 1) =~= cells.subrange(0, k as int).push(cells[k as int]));
        }
        let ghost b0 = out@;
        if k > 0 {
            out.append("\t");
        }
        out.append(row[k].as_str());
        assert(out@ =~= before + join_with(cells.subrange(0, k + 1), "\t"@)) by {
            if k > 0 {
                assert(b0 + "\t"@ + row@[k as int]@ =~= before + (join_with(
                    cells.subrange(0, k as int),
                    "\t"@,
                ) + "\t"@ + cells[k as int]));
            } else {
                assert(b0 + row@[k as int]@ =~= before + cells[k as int]);
            }
        }
        k = k + 1;
    }
    assert(cells.subrange(0, k as int) =~= cells);
    out.append("\n");
}

/// The document made of the given worksheets, in workbook order: each one
/// written as a `[Sheet: name]` line followed by its rows, cells separated
/// by tabs; the blocks joined by line feeds, then normalized. The page count
/// is the number of worksheets, those without rows included, so it is 0
/// for a workbook without worksheets.
pub fn sheets_document(sheets: &Vec<(String, Vec<Vec<String>>)>) -> (r: ParsedDocument)
    ensures
        r@ == sheets_view(sheet_views(sheets@)),
{
    let ghost sv = sheet_views(sheets@);
    let ghost blocks = sv.map_values(|s: SheetView| sheet_block(s));
    let mut joined = String::new();
    let mut i: usize = 0;
    while i < sheets.len()
        invariant
            i <= sheets@.len(),
            sv == sheet_views(sheets@),
            blocks == sv.map_values(|s: SheetView| sheet_block(s)),
            joined@ == join_with(blocks.subrange(0, i as int), "\n"@),
        decreases sheets@.len() - i,
    {
        proof {
            lemma_join_push(blocks.subrange(0, i as int), blocks[i as int], "\n"@);
            assert(blocks.subrange(0, i + 1) =~= blocks.subrange(0, i as int).push(blocks[i as int]));
        }
        if i > 0 {
            joined.append("\n");
        }
        let ghost mid = joined@;
        joined.append("[Sheet: ");
        joined.append(sheets[i].0.as_str());
        joined.append("]\n");
        let rows = &sheets[i].1;
        let ghost rv = row_views(rows@);
        let ghost head = joined@;
        let mut j: usize = 0;
        while j < rows.len()
            invariant
                j <= rows@.len(),
                rv == row_views(rows@),
                joined@ == head + rows_text(rv.subrange(0, j as int)),
            decreases rows@.len() - j,
        {
            assert(rv.subrange(0, j + 1).drop_last() =~= rv.subrange(0, j as int));
            assert(rv[j as int] == rows@[j as int]@.map_values(|c: String| c@));
            append_row(&mut joined, &rows[j]);
            j = j + 1;
        }
        assert(rv.subrange(0, j as int) =~= rv);
        assert(sv[i as int] == (sheets@[i as int].0@, rv));
        assert(joined@ =~= mid + sheet_block(sv[i as int]));
        i = i + 1;
    }
    assert(blocks.subrange(0, i as int) =~= blocks);
    ParsedDocument {
        text: clean_text(joined.as_str()),
        pages: sheets.len(),
        file_type: String::from_str("xlsx"),
    }
}

/// The worksheets of the workbook held in `data` that can be read, from the
/// sheet names `names` in workbook order, each with its rows.
pub open spec fn readable_sheets(data: Seq<u8>, names: Seq<Seq<char>>) -> Seq<SheetView>
    decreases names.len(),
{
    if names.len() == 0 {
        Seq::empty()
    } else {
        let prev = readable_sheets(data, names.drop_last());
        match workbook_sheet_rows(data, names.last()) {
            Some(rows) => prev.push((names.last(), rows)),
            None => prev,
        }
    }
}

/// What `parse_xlsx` returns for `data`: bytes that hold no workbook give
/// an opening error; a workbook gives the document of its readable
/// worksheets.
pub open spec fn sheets_outcome(data: Seq<u8>, r: Result<ParsedDocument, String>) -> bool {
    if !workbook_opens(data) {
        r matches Err(m) && starts_with(m@, "Failed to open XLSX: "@)
    } else {
        r matches Ok(d) && d@ == sheets_view(readable_sheets(data, workbook_sheet_names(data)))
    }
}

/// Extracts the text of a spreadsheet workbook: every worksheet that can be
/// read gives a block (see `sheets_document`); one that cannot is left out.
/// Bytes that hold no workbook give an error.
pub fn parse_xlsx(data: &[u8]) -> (r: Result<ParsedDocument, String>)
    ensures
        sheets_outcome(data@, r),
{
    let mut workbook = match open_workbook(data) {
        Ok(w) => w,
        Err(e) => {
            return Err(with_prefix("Failed to open XLSX: ", e.to_string()));
        },
    };
    let names = sheet_names(&workbook);
    let ghost all = workbook_sheet_names(data@);
    let mut sheets: Vec<(String, Vec<Vec<String>>)> = Vec::new();
    let mut i: usize = 0;
    while i < names.len()
        invariant
            i <= names@.len(),
            workbook.source() == data@,
            names@.map_values(|s: String| s@) == all,
            all == workbook_sheet_names(data@),
            sheet_views(sheets@) == readable_sheets(data@, all.subrange(0, i as int)),
        decreases names@.len() - i,
    {
        let ghost prev = sheets@;
        assert(all.subrange(0, i + 1).drop_last() =~= all.subrange(0, i as int));
        assert(all[i as int] == names@[i as int]@);
        if let Ok(rows) = sheet_rows(&mut workbook, names[i].as_str()) {
            let ghost rv = row_views(rows@);
            sheets.push((names[i].clone(), rows));
            assert(sheet_views(sheets@) =~= sheet_views(prev).push((names@[i as int]@, rv)));
        }
        i = i + 1;
    }
    assert(all.subrange(0, i as int) =~= all);
    let d = sheets_document(&sheets);
    Ok(d)
}

} // verus!
