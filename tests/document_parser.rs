use std::io::{Cursor, Write};

use document_parser::dispatch::extension_of;
use document_parser::sheets::sheets_document;
use document_parser::pdf::pdf_document;
use document_parser::slides::{is_slide_entry_name, slide_number_of, slides_document};
use document_parser::word::word_document;
use document_parser::{
    clean_text, count_pages, extract_text_from_xml, normalize_path, parse_document, parse_docx,
    parse_pdf, parse_pptx, parse_xlsx,
};
use zip::write::SimpleFileOptions;
use zip::{CompressionMethod, ZipWriter};

fn decode(data: &[u8]) -> Result<String, String> {
    pdf_extract::extract_text_from_mem(data).map_err(|e| e.to_string())
}

fn container_of_bytes(entries: &[(&str, &[u8])]) -> Vec<u8> {
    let mut writer = ZipWriter::new(Cursor::new(Vec::new()));
    let options = SimpleFileOptions::default().compression_method(CompressionMethod::Stored);
    for (name, body) in entries {
        writer.start_file(*name, options).unwrap();
        writer.write_all(body).unwrap();
    }
    writer.finish().unwrap().into_inner()
}

fn container(entries: &[(&str, &str)]) -> Vec<u8> {
    let bytes: Vec<(&str, &[u8])> = entries.iter().map(|(n, b)| (*n, b.as_bytes())).collect();
    container_of_bytes(&bytes)
}

#[test]
fn test_clean_text() {
    let input = "  Hello   World  \n\n\n  Test  ";
    let result = clean_text(input);
    assert_eq!(result, "Hello   World\nTest");
}

#[test]
fn test_extract_text_from_xml() {
    let xml = "<root><a:t>Hello</a:t> <a:t>World</a:t></root>";
    let result = extract_text_from_xml(xml, "a:t");
    assert_eq!(result, "Hello World");
}

#[test]
fn clean_text_unifies_line_breaks() {
    assert_eq!(clean_text("a\r\nb\rc\n\r\n  d\t"), "a\nb\nc\nd");
    assert!(!clean_text("x\r\r\ny\r").contains('\r'));
}

#[test]
fn clean_text_of_blank_input_is_empty() {
    assert_eq!(clean_text(""), "");
    assert_eq!(clean_text(" \n\t\r\n \u{3000}"), "");
}

#[test]
fn clean_text_trims_unicode_spaces() {
    assert_eq!(clean_text("\u{a0}word\u{2003}\n\u{85}"), "word");
}

#[test]
fn clean_text_is_idempotent() {
    for s in ["  a \r\n\r\n b  \n", "\n\nx", "one\ttwo  \r three", ""] {
        let once = clean_text(s);
        assert_eq!(clean_text(&once), once);
    }
}

#[test]
fn clean_text_has_no_blank_lines() {
    let out = clean_text("\n\n first \n \n\n second\r\n\r\n");
    assert_eq!(out, "first\nsecond");
    assert!(out.lines().all(|l| !l.trim().is_empty()));
    assert!(!out.starts_with('\n') && !out.ends_with('\n'));
}

#[test]
fn count_pages_from_byte_length() {
    assert_eq!(count_pages(""), 1);
    assert_eq!(count_pages(&"a".repeat(2999)), 1);
    assert_eq!(count_pages(&"a".repeat(3000)), 1);
    assert_eq!(count_pages(&"a".repeat(5999)), 1);
    assert_eq!(count_pages(&"a".repeat(6000)), 2);
    assert_eq!(count_pages(&"a".repeat(8999)), 2);
    assert_eq!(count_pages(&"a".repeat(9000)), 3);
    // bytes, not characters: 1500 two-byte characters fill one page
    assert_eq!(count_pages(&"é".repeat(3000)), 2);
}

#[test]
fn extract_skips_nested_markup() {
    assert_eq!(extract_text_from_xml("<a:t>Hello<br/>World</a:t>", "a:t"), "");
    assert_eq!(
        extract_text_from_xml("<a:t>A</a:t><a:t>x<b/>y</a:t><a:t>B</a:t>", "a:t"),
        "A B"
    );
}

#[test]
fn extract_stops_at_unclosed_tag() {
    assert_eq!(extract_text_from_xml("<w:t>A</w:t><w:t>B<w:t>C", "w:t"), "A");
}

#[test]
fn extract_ignores_tags_with_attributes() {
    let xml = "<w:t xml:space=\"preserve\">skipped</w:t><w:t>kept</w:t>";
    assert_eq!(extract_text_from_xml(xml, "w:t"), "kept");
}

#[test]
fn extract_keeps_empty_runs() {
    assert_eq!(extract_text_from_xml("<a:t></a:t><a:t>x</a:t>", "a:t"), " x");
}

#[test]
fn extension_is_after_last_dot() {
    assert_eq!(extension_of("archive.tar.GZ"), "GZ");
    assert_eq!(extension_of("README"), "");
    assert_eq!(extension_of("trailing."), "");
    assert_eq!(extension_of(".env"), "env");
}

#[test]
fn plain_text_is_normalized() {
    let doc = parse_document(b"  line one \r\n\r\nline two\n", "notes.txt", decode).unwrap();
    assert_eq!(doc.text, "line one\nline two");
    assert_eq!(doc.pages, 1);
    assert_eq!(doc.file_type, "txt");
}

#[test]
fn plain_text_replaces_invalid_utf8() {
    let doc = parse_document(b"caf\xff", "menu.md", decode).unwrap();
    assert_eq!(doc.text, "caf\u{fffd}");
}

#[test]
fn extension_case_does_not_matter() {
    let upper = parse_document(b"fn main() {}", "MAIN.RS", decode).unwrap();
    let lower = parse_document(b"fn main() {}", "main.rs", decode).unwrap();
    assert_eq!(upper.text, lower.text);
    assert_eq!(upper.file_type, "rs");
    assert_eq!(lower.file_type, "rs");
    let a = parse_document(b"not a pdf", "report.PDF", decode).unwrap_err();
    let b = parse_document(b"not a pdf", "report.pdf", decode).unwrap_err();
    assert_eq!(a, b);
    assert!(a.starts_with("Failed to parse PDF: "));
}

#[test]
fn unknown_extension_is_refused() {
    assert_eq!(
        parse_document(b"data", "file.xyz", decode).unwrap_err(),
        "Unsupported file type: xyz"
    );
    assert_eq!(
        parse_document(b"data", "file.XYZ", decode).unwrap_err(),
        "Unsupported file type: xyz"
    );
    assert_eq!(parse_document(b"data", "README", decode).unwrap_err(), "Unsupported file type: ");
}

#[test]
fn pdf_document_estimates_pages() {
    let raw = format!("  {}  \r\n\r\n{}", "x".repeat(4000), "y".repeat(2500));
    let doc = pdf_document(&raw);
    assert_eq!(doc.text.len(), 6501);
    assert_eq!(doc.pages, 2);
    assert_eq!(doc.file_type, "pdf");
}

#[test]
fn pdf_garbage_is_an_error() {
    let err = parse_pdf(b"%PDF-garbage", decode).unwrap_err();
    assert!(err.starts_with("Failed to parse PDF: "));
}

#[test]
fn word_document_from_body() {
    let doc = word_document(Some("<w:body><w:t>Hello</w:t><w:t> there </w:t></w:body>"));
    assert_eq!(doc.text, "Hello  there");
    assert_eq!(doc.pages, 1);
    assert_eq!(doc.file_type, "docx");
    let empty = word_document(None);
    assert_eq!(empty.text, "");
    assert_eq!(empty.pages, 1);
}

#[test]
fn docx_container_is_read() {
    let data = container(&[(
        "word/document.xml",
        "<w:document><w:p><w:t>First</w:t></w:p><w:p><w:t>Second</w:t></w:p></w:document>",
    )]);
    let doc = parse_document(&data, "letter.DOCX", decode).unwrap();
    assert_eq!(doc.text, "First Second");
    assert_eq!(doc.pages, 1);
    assert_eq!(doc.file_type, "docx");
}

#[test]
fn docx_without_body_is_empty() {
    let data = container(&[("word/styles.xml", "<w:t>style</w:t>")]);
    let doc = parse_docx(&data).unwrap();
    assert_eq!(doc.text, "");
    assert_eq!(doc.pages, 1);
    let old = parse_document(&data, "old.doc", decode).unwrap();
    assert_eq!(old.file_type, "docx");
}

#[test]
fn docx_of_non_container_is_an_error() {
    let err = parse_docx(b"plain bytes").unwrap_err();
    assert!(err.starts_with("Failed to open DOCX as ZIP: "));
}

#[test]
fn slide_names() {
    assert!(is_slide_entry_name("ppt/slides/slide12.xml"));
    assert!(is_slide_entry_name("ppt/slides/slide0.xml"));
    assert!(!is_slide_entry_name("ppt/slides/slideX.xml"));
    assert!(!is_slide_entry_name("ppt/slides/slide.xml"));
    assert!(!is_slide_entry_name("ppt/slides/slide+7.xml"));
    assert!(!is_slide_entry_name("ppt/slides/_rels/slide1.xml.rels"));
    assert!(!is_slide_entry_name("ppt/slideLayouts/slideLayout1.xml"));
    assert_eq!(slide_number_of("ppt/slides/slide12.xml"), 12);
    assert_eq!(slide_number_of("ppt/slides/slide+7.xml"), 7);
    assert_eq!(slide_number_of("ppt/slides/slide3.xml.xml"), 3);
    assert_eq!(slide_number_of("ppt/slides/slideX.xml"), 0);
    assert_eq!(slide_number_of("ppt/slides/slide.xml"), 0);
    assert_eq!(slide_number_of("ppt/slides/slide99999999999999999999999.xml"), 0);
}

#[test]
fn slides_are_ordered_by_number() {
    let parts = vec![
        ("ppt/slides/slide2.xml".to_string(), "<a:t>Two</a:t>".to_string()),
        ("ppt/slides/slide1.xml".to_string(), "<a:t>One</a:t>".to_string()),
        ("ppt/slides/slide10.xml".to_string(), "<a:t>Ten</a:t>".to_string()),
    ];
    let doc = slides_document(&parts);
    assert_eq!(doc.text, "[Slide 1]\nOne\n[Slide 2]\nTwo\n[Slide 10]\nTen");
    assert_eq!(doc.pages, 3);
    assert_eq!(doc.file_type, "pptx");
}

#[test]
fn blank_slides_are_dropped_and_ties_keep_order() {
    let parts = vec![
        ("ppt/slides/slideA.xml".to_string(), "<a:t>first</a:t>".to_string()),
        ("ppt/slides/slide3.xml".to_string(), "<a:t>  </a:t>".to_string()),
        ("ppt/slides/slideB.xml".to_string(), "<a:t>second</a:t>".to_string()),
    ];
    let doc = slides_document(&parts);
    assert_eq!(doc.text, "[Slide 0]\nfirst\n[Slide 0]\nsecond");
    assert_eq!(doc.pages, 2);
}

#[test]
fn pptx_container_is_read() {
    let data = container(&[
        ("ppt/slides/slide2.xml", "<p:sld><a:t>Two</a:t></p:sld>"),
        ("ppt/presentation.xml", "<a:t>not a slide</a:t>"),
        ("ppt/slides/slide1.xml", "<p:sld><a:t>One</a:t><a:t>more</a:t></p:sld>"),
        ("ppt/slides/slide10.xml", "<p:sld><a:t>Ten</a:t></p:sld>"),
        ("ppt/slides/slide4.xml", "<p:sld></p:sld>"),
    ]);
    let doc = parse_pptx(&data).unwrap();
    assert_eq!(doc.text, "[Slide 1]\nOne more\n[Slide 2]\nTwo\n[Slide 10]\nTen");
    assert_eq!(doc.pages, 3);
    let via_name = parse_document(&data, "deck.ppt", decode).unwrap();
    assert_eq!(via_name.text, doc.text);
}

#[test]
fn pptx_of_non_container_is_an_error() {
    let err = parse_pptx(b"").unwrap_err();
    assert!(err.starts_with("Failed to open PPTX as ZIP: "));
}

#[test]
fn sheets_with_no_rows_still_count() {
    let sheets = vec![
        (
            "Data".to_string(),
            vec![
                vec!["Name".to_string(), "Qty".to_string()],
                vec!["bolt".to_string(), "42".to_string()],
            ],
        ),
        ("Empty".to_string(), vec![]),
    ];
    let doc = sheets_document(&sheets);
    assert_eq!(doc.text, "[Sheet: Data]\nName\tQty\nbolt\t42\n[Sheet: Empty]");
    assert_eq!(doc.pages, 2);
    assert_eq!(doc.file_type, "xlsx");
}

#[test]
fn xlsx_of_non_workbook_is_an_error() {
    let err = parse_xlsx(b"nothing").unwrap_err();
    assert!(err.starts_with("Failed to open XLSX: "));
}

fn workbook(sheets: &[(&str, &str)]) -> Vec<u8> {
    let ns = "http://schemas.openxmlformats.org/spreadsheetml/2006/main";
    let rel = "http://schemas.openxmlformats.org/officeDocument/2006/relationships";
    let pkg = "http://schemas.openxmlformats.org/package/2006/relationships";
    let types = "<?xml version=\"1.0\"?><Types xmlns=\"http://schemas.openxmlformats.org/package/2006/content-types\"><Default Extension=\"xml\" ContentType=\"application/xml\"/><Override PartName=\"/xl/workbook.xml\" ContentType=\"application/vnd.openxmlformats-officedocument.spreadsheetml.sheet.main+xml\"/></Types>".to_string();
    let root_rels = format!("<?xml version=\"1.0\"?><Relationships xmlns=\"{pkg}\"><Relationship Id=\"rId1\" Type=\"{rel}/officeDocument\" Target=\"xl/workbook.xml\"/></Relationships>");
    let mut listed = String::new();
    let mut links = String::new();
    let mut parts: Vec<(String, String)> = Vec::new();
    for (k, (name, rows)) in sheets.iter().enumerate() {
        let n = k + 1;
        listed.push_str(&format!("<sheet name=\"{name}\" sheetId=\"{n}\" r:id=\"rId{n}\"/>"));
        links.push_str(&format!("<Relationship Id=\"rId{n}\" Type=\"{rel}/worksheet\" Target=\"worksheets/sheet{n}.xml\"/>"));
        parts.push((
            format!("xl/worksheets/sheet{n}.xml"),
            format!("<?xml version=\"1.0\"?><worksheet xmlns=\"{ns}\"><sheetData>{rows}</sheetData></worksheet>"),
        ));
    }
    let book = format!("<?xml version=\"1.0\"?><workbook xmlns=\"{ns}\" xmlns:r=\"{rel}\"><sheets>{listed}</sheets></workbook>");
    let book_rels = format!("<?xml version=\"1.0\"?><Relationships xmlns=\"{pkg}\">{links}</Relationships>");
    let mut entries: Vec<(String, String)> = vec![
        ("[Content_Types].xml".to_string(), types),
        ("_rels/.rels".to_string(), root_rels),
        ("xl/workbook.xml".to_string(), book),
        ("xl/_rels/workbook.xml.rels".to_string(), book_rels),
    ];
    entries.extend(parts);
    let refs: Vec<(&str, &str)> = entries.iter().map(|(n, b)| (n.as_str(), b.as_str())).collect();
    container(&refs)
}

#[test]
fn xlsx_workbook_is_read() {
    let data = workbook(&[
        ("Data", "<row r=\"1\"><c r=\"A1\" t=\"inlineStr\"><is><t>Name</t></is></c><c r=\"B1\"><v>42</v></c></row>"),
        ("Empty", ""),
    ]);
    let doc = parse_document(&data, "book.xlsx", decode).unwrap();
    assert_eq!(doc.text, "[Sheet: Data]\nName\t42\n[Sheet: Empty]");
    assert_eq!(doc.pages, 2);
    assert_eq!(doc.file_type, "xlsx");
}

#[test]
fn xlsx_single_empty_sheet_counts() {
    let data = workbook(&[("Empty", "")]);
    let doc = parse_xlsx(&data).unwrap();
    assert_eq!(doc.text, "[Sheet: Empty]");
    assert_eq!(doc.pages, 1);
}

#[test]
fn windows_paths_move_under_mnt() {
    assert_eq!(normalize_path("D:\\data\\db"), "/mnt/d/data/db");
    assert_eq!(normalize_path("c:/Users/me"), "/mnt/c/Users/me");
    assert_eq!(normalize_path("D:/a\\b"), "/mnt/d/a\\b");
    assert_eq!(normalize_path("E:\\"), "/mnt/e/");
}

#[test]
fn other_paths_are_kept() {
    assert_eq!(normalize_path("/home/me/db"), "/home/me/db");
    assert_eq!(normalize_path("1:\\x"), "1:\\x");
    assert_eq!(normalize_path("D:"), "D:");
    assert_eq!(normalize_path("relative\\dir"), "relative\\dir");
    assert_eq!(normalize_path(""), "");
}

#[test]
fn pdf_pages_come_from_normalized_text() {
    let doc = parse_pdf(b"any", |_: &[u8]| Ok(" \n".repeat(6000))).unwrap();
    assert_eq!(doc.text, "");
    assert_eq!(doc.pages, 1);
    assert_eq!(doc.file_type, "pdf");
}

#[test]
fn pdf_decoder_error_is_wrapped() {
    let err = parse_pdf(b"any", |_: &[u8]| Err("bad xref".to_string())).unwrap_err();
    assert_eq!(err, "Failed to parse PDF: bad xref");
    let routed = parse_document(b"any", "scan.Pdf", |_: &[u8]| Err("bad xref".to_string()));
    assert_eq!(routed.unwrap_err(), "Failed to parse PDF: bad xref");
}

#[test]
fn pdf_decoder_text_is_used() {
    let doc = parse_document(b"any", "scan.pdf", |_: &[u8]| Ok(" Page one \r\n\r\n two ".to_string()))
        .unwrap();
    assert_eq!(doc.text, "Page one\ntwo");
    assert_eq!(doc.pages, 1);
}

#[test]
fn docx_with_unreadable_body_is_an_error() {
    let data = container_of_bytes(&[("word/document.xml", b"<w:t>\xff\xfe</w:t>")]);
    let err = parse_docx(&data).unwrap_err();
    assert!(err.starts_with("Failed to read document.xml: "));
}

#[test]
fn pptx_ignores_entries_that_are_not_slides() {
    let plain = container(&[("ppt/slides/slide1.xml", "<a:t>A</a:t>")]);
    let extra = container(&[
        ("ppt/slides/slide1.xml", "<a:t>A</a:t>"),
        ("ppt/slides/_rels/slide1.xml.rels", "<a:t>rel</a:t>"),
        ("ppt/slideLayouts/slideLayout1.xml", "<a:t>layout</a:t>"),
        ("ppt/slides/slideX.xml", "<a:t>X</a:t>"),
    ]);
    let a = parse_pptx(&plain).unwrap();
    let b = parse_pptx(&extra).unwrap();
    assert_eq!(a.text, "[Slide 1]\nA");
    assert_eq!(b.text, a.text);
    assert_eq!(b.pages, 1);
}

#[test]
fn pptx_equal_numbers_keep_container_order() {
    let data = container(&[
        ("ppt/slides/slide00.xml", "<a:t>B</a:t>"),
        ("ppt/slides/slide0.xml", "<a:t>A</a:t>"),
    ]);
    let doc = parse_pptx(&data).unwrap();
    assert_eq!(doc.text, "[Slide 0]\nB\n[Slide 0]\nA");
    assert_eq!(doc.pages, 2);
}

#[test]
fn pptx_blank_slide_adds_nothing() {
    let data = container(&[
        ("ppt/slides/slide1.xml", "<a:t>  </a:t>"),
        ("ppt/slides/slide2.xml", "<a:t>Hi</a:t>"),
    ]);
    let doc = parse_pptx(&data).unwrap();
    assert_eq!(doc.text, "[Slide 2]\nHi");
    assert_eq!(doc.pages, 1);
}
