//! Plain-text extraction from uploaded documents: format dispatch by file
//! extension, office containers, spreadsheets, slides and PDF, with a
//! verified text normalizer and tag-scoped markup scanner.

mod chars;
pub mod container;
pub mod dispatch;
pub mod document;
pub mod paths;
pub mod pdf;
pub mod sheets;
pub mod slides;
pub mod text;
pub mod word;
pub mod workbook;
pub mod xml;

pub use dispatch::parse_document;
pub use document::ParsedDocument;
pub use paths::normalize_path;
pub use pdf::parse_pdf;
pub use sheets::parse_xlsx;
pub use slides::parse_pptx;
pub use text::{clean_text, count_pages};
pub use word::parse_docx;
pub use xml::extract_text_from_xml;
