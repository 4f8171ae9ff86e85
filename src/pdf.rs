use vstd::prelude::*;

use crate::document::{DocumentView, ParsedDocument};
use crate::text::{byte_len, clean_text, count_pages, normalize, page_estimate, with_prefix};

verus! {

/// The document made of the text decoded from a PDF: the text normalized,
/// and its pages estimated from the normalized text's length.
pub open spec fn pdf_view(raw: Seq<char>) -> DocumentView {
    DocumentView {
        text: normalize(raw),
        pages: page_estimate(byte_len(normalize(raw))),
        file_type: "pdf"@,
    }
}

/// A decoder's outcome as mathematical values.
pub open spec fn decoded_view(decoded: Result<String, String>) -> Result<Seq<char>, Seq<char>> {
    match decoded {
        Ok(t) => Ok(t@),
        Err(e) => Err(e@),
    }
}

/// What `parse_pdf` returns once the decoder has given `decoded`: the
/// document of the decoded text, or the decoder's error message behind a
/// `Failed to parse PDF: ` prefix.
pub open spec fn pdf_outcome(decoded: Result<Seq<char>, Seq<char>>, r: Result<ParsedDocument, String>) -> bool {
    match decoded {
        Ok(raw) => r matches Ok(d) && d@ == pdf_view(raw),
        Err(e) => r matches Err(m) && m@ == "Failed to parse PDF: "@ + e,
    }
}

/// The document made of the text decoded from a PDF.
pub fn pdf_document(raw: &str) -> (r: ParsedDocument)
    ensures
        r@ == pdf_view(raw@),
{
    let text = clean_text(raw);
    let pages = count_pages(text.as_str());
    ParsedDocument { text, pages, file_type: String::from_str("pdf") }
}

/// Extracts the text of a PDF document with `decode`, which turns the bytes
/// of a PDF into its text or into an error message, and estimates its
/// pages.
pub fn parse_pdf<F: Fn(&[u8]) -> Result<String, String>>(data: &[u8], decode: F) -> (r: Result<
    ParsedDocument,
    String,
>)
    requires
        decode.requires((data,)),
    ensures
        exists|decoded: Result<String, String>|
            decode.ensures((data,), decoded) && pdf_outcome(decoded_view(decoded), r),
{
    let decoded = decode(data);
    let ghost dv = decoded_view(decoded);
    let r = match decoded {
        Ok(raw) => Ok(pdf_document(raw.as_str())),
        Err(e) => Err(with_prefix("Failed to parse PDF: ", e)),
    };
    assert(pdf_outcome(dv, r));
    r
}

} // verus!
