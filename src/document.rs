use vstd::prelude::*;

verus! {

/// The text extracted from a document, its page (or unit) count, and the
/// tag of its format.
#[derive(Debug)]
pub struct ParsedDocument {
    pub text: String,
    pub pages: usize,
    pub file_type: String,
}

/// What a parsed document holds, as mathematical values.
pub struct DocumentView {
    pub text: Seq<char>,
    pub pages: nat,
    pub file_type: Seq<char>,
}

impl View for ParsedDocument {
    type V = DocumentView;

    open spec fn view(&self) -> DocumentView {
        DocumentView { text: self.text@, pages: self.pages as nat, file_type: self.file_type@ }
    }
}

} // verus!
