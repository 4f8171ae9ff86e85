use vstd::prelude::*;

use crate::container::{container_opens, open_container, read_entry, zip_entry_text};
use crate::document::{DocumentView, ParsedDocument};
use crate::text::{clean_text, normalize, starts_with, with_prefix};
use crate::xml::{extract_text_from_xml, tag_text};

verus! {

/// The document made of the body part of a word-processing container: the
/// `w:t` runs of its markup, normalized, or no text where the part is
/// missing; always one page.
pub open spec fn word_view(body: Option<Seq<char>>) -> DocumentView {
    DocumentView {
        text: match body {
            Some(xml) => normalize(tag_text(xml, "w:t"@)),
            None => Seq::empty(),
        },
        pages: 1,
        file_type: "docx"@,
    }
}

/// What `parse_docx` returns for `data`: bytes that are no container give
/// an opening error; a container without a `word/document.xml` entry gives
/// an empty document; one whose entry reads as text gives the document of
/// that text; one whose entry cannot be read gives a reading error.
pub open spec fn word_outcome(data: Seq<u8>, r: Result<ParsedDocument, String>) -> bool {
    if !container_opens(data) {
        r matches Err(m) && starts_with(m@, "Failed to open DOCX as ZIP: "@)
    } else {
        match zip_entry_text(data, "word/document.xml"@) {
            None => r matches Ok(d) && d@ == word_view(None),
            Some(Some(xml)) => r matches Ok(d) && d@ == word_view(Some(xml)),
            Some(None) => r matches Err(m) && starts_with(m@, "Failed to read document.xml: "@),
        }
    }
}

/// The document made of the body part of a word-processing container, if
/// it has one.
pub fn word_document(body: Option<&str>) -> (r: ParsedDocument)
    ensures
        r@ == word_view(
            match body {
                Some(b) => Some(b@),
                None => None,
            },
        ),
{
    let text = match body {
        Some(xml) => clean_text(extract_text_from_xml(xml, "w:t").as_str()),
        None => String::new(),
    };
    ParsedDocument { text, pages: 1, file_type: String::from_str("docx") }
}

/// Extracts the text of a word-processing document: the `w:t` runs of the
/// container's `word/document.xml` part. A container without that part
/// gives an empty text; bytes that are no container, or a part that cannot
/// be read, give an error.
pub fn parse_docx(data: &[u8]) -> (r: Result<ParsedDocument, String>)
    ensures
        word_outcome(data@, r),
{
    let mut archive = match open_container(data) {
        Ok(a) => a,
        Err(e) => {
            return Err(with_prefix("Failed to open DOCX as ZIP: ", e.to_string()));
        },
    };
    match read_entry(&mut archive, "word/document.xml") {
        Some(Ok(xml)) => {
            let d = word_document(Some(xml.as_str()));
            assert(d@ == word_view(Some(xml@)));
            Ok(d)
        },
        Some(Err(e)) => Err(with_prefix("Failed to read document.xml: ", e.to_string())),
        None => {
            let d = word_document(None);
            assert(d@ == word_view(None));
            Ok(d)
        },
    }
}

} // verus!
