use vstd::prelude::*;
use vstd::utf8::{decode_utf8, is_ascii_chars, valid_utf8};

use crate::chars::{chars_of, string_of};
use crate::document::{DocumentView, ParsedDocument};
use crate::pdf::{decoded_view, parse_pdf, pdf_outcome};
use crate::sheets::{parse_xlsx, sheets_outcome};
use crate::slides::{parse_pptx, slides_outcome};
use crate::text::{clean_text, normalize, with_prefix};
use crate::word::{parse_docx, word_outcome};

verus! {

/// The formats a document can be read as.
pub enum Format {
    Pdf,
    Word,
    Spreadsheet,
    Presentation,
    PlainText,
    Unsupported,
}

/// The extension of a file name: what follows its last `.`, or nothing
/// where it has no `.`.
pub open spec fn extension(f: Seq<char>) -> Seq<char>
    decreases f.len(),
{
    if f.len() == 0 || !f.contains('.') || f.last() == '.' {
        Seq::empty()
    } else {
        extension(f.drop_last()).push(f.last())
    }
}

/// What `str::to_lowercase` returns for `s`.
pub uninterp spec fn lower_of(s: Seq<char>) -> Seq<char>;

/// What `String::from_utf8_lossy` returns for `b`.
pub uninterp spec fn lossy_of(b: Seq<u8>) -> Seq<char>;

/// `c` made small if it is an ASCII capital.
pub open spec fn lower_char(c: char) -> char {
    if 'A' <= c <= 'Z' {
        ((c as u32) + 32) as char
    } else {
        c
    }
}

/// `s` with its ASCII capitals made small.
pub open spec fn ascii_lower(s: Seq<char>) -> Seq<char> {
    s.map_values(|c: char| lower_char(c))
}

/// The lowercase form of a file name's extension, which selects its format.
pub open spec fn extension_key(f: Seq<char>) -> Seq<char> {
    let e = extension(f);
    if is_ascii_chars(e) {
        ascii_lower(e)
    } else {
        lower_of(e)
    }
}

/// The extensions of the files read as plain text.
pub open spec fn is_text_extension(k: Seq<char>) -> bool {
    ||| k == "txt"@
    ||| k == "md"@
    ||| k == "markdown"@
    ||| k == "json"@
    ||| k == "csv"@
    ||| k == "xml"@
    ||| k == "yaml"@
    ||| k == "yml"@
    ||| k == "html"@
    ||| k == "htm"@
    ||| k == "css"@
    ||| k == "js"@
    ||| k == "ts"@
    ||| k == "jsx"@
    ||| k == "tsx"@
    ||| k == "py"@
    ||| k == "rs"@
    ||| k == "go"@
    ||| k == "java"@
    ||| k == "c"@
    ||| k == "cpp"@
    ||| k == "h"@
    ||| k == "hpp"@
    ||| k == "cs"@
    ||| k == "rb"@
    ||| k == "php"@
    ||| k == "swift"@
    ||| k == "kt"@
    ||| k == "scala"@
    ||| k == "r"@
    ||| k == "sql"@
    ||| k == "sh"@
    ||| k == "bash"@
    ||| k == "ps1"@
    ||| k == "vue"@
    ||| k == "svelte"@
    ||| k == "toml"@
    ||| k == "ini"@
    ||| k == "env"@
    ||| k == "log"@
}

/// The format that a (lowercase) extension selects.
pub open spec fn format_of(k: Seq<char>) -> Format {
    if k == "pdf"@ {
        Format::Pdf
    } else if k == "docx"@ || k == "doc"@ {
        Format::Word
    } else if k == "xlsx"@ || k == "xls"@ {
        Format::Spreadsheet
    } else if k == "pptx"@ || k == "ppt"@ {
        Format::Presentation
    } else if is_text_extension(k) {
        Format::PlainText
    } else {
        Format::Unsupported
    }
}

/// The document made of a plain-text file: its text normalized, one page,
/// tagged with its extension.
pub open spec fn plain_view(text: Seq<char>, key: Seq<char>) -> DocumentView {
    DocumentView { text: normalize(text), pages: 1, file_type: key }
}

/// Relies on `str::to_lowercase`: the result depends on the characters
/// alone, and on ASCII text it makes each capital small and keeps the rest.
#[verifier::external_body]
fn lowercase(s: &str) -> (r: String)
    ensures
        r@ == lower_of(s@),
        is_ascii_chars(s@) ==> r@ == ascii_lower(s@),
{
    s.to_lowercase()
}

/// Relies on `String::from_utf8_lossy`: the result depends on the bytes
/// alone, and valid UTF-8 is decoded as it stands.
#[verifier::external_body]
fn lossy_text(b: &[u8]) -> (r: String)
    ensures
        r@ == lossy_of(b@),
        valid_utf8(b@) ==> r@ == decode_utf8(b@),
{
    String::from_utf8_lossy(b).into_owned()
}

proof fn lemma_extension_after_dot(f: Seq<char>, j: int)
    requires
        0 < j <= f.len(),
        f[j - 1] == '.',
        forall|k: int| j <= k < f.len() ==> f[k] != '.',
    ensures
        extension(f) == f.subrange(j, f.len() as int),
    decreases f.len(),
{
    assert(f.contains('.')) by {
        assert(f[j - 1] == '.');
    }
    if j == f.len() {
        assert(f.subrange(j, f.len() as int) =~= Seq::<char>::empty());
    } else {
        let g = f.drop_last();
        assert(g[j - 1] == '.');
        lemma_extension_after_dot(g, j);
        assert(g.subrange(j, g.len() as int).push(f.last()) =~= f.subrange(j, f.len() as int));
    }
}

/// The extension of a file name.
pub fn extension_of(filename: &str) -> (r: String)
    ensures
        r@ == extension(filename@),
{
    let cs = chars_of(filename);
    let n = cs.len();
    let mut j = n;
    while j > 0 && cs[j - 1] != '.'
        invariant
            j <= n == cs@.len(),
            forall|k: int| j <= k < n ==> cs@[k] != '.',
        decreases j,
    {
        j = j - 1;
    }
    if j == 0 {
        assert(!cs@.contains('.'));
        return String::new();
    }
    proof {
        lemma_extension_after_dot(cs@, j as int);
    }
    string_of(&cs, j, n)
}

fn same_chars(kc: &Vec<char>, lit: &str) -> (r: bool)
    ensures
        r == (kc@ == lit@),
{
    let lc = chars_of(lit);
    if kc.len() != lc.len() {
        return false;
    }
    let mut i: usize = 0;
    while i < kc.len()
        invariant
            i <= kc@.len() == lc@.len(),
            lc@ == lit@,
            forall|k: int| 0 <= k < i ==> kc@[k] == lc@[k],
        decreases kc@.len() - i,
    {
        if kc[i] != lc[i] {
            assert(kc@[i as int] != lit@[i as int]);
            return false;
        }
        i = i + 1;
    }
    assert(kc@ =~= lc@);
    true
}

/// The format that a lowercase extension selects.
pub fn format_for(key: &str) -> (r: Format)
    ensures
        r == format_of(key@),
{
    let kc = chars_of(key);
    if same_chars(&kc, "pdf") {
        Format::Pdf
    } else if same_chars(&kc, "docx") || same_chars(&kc, "doc") {
        Format::Word
    } else if same_chars(&kc, "xlsx") || same_chars(&kc, "xls") {
        Format::Spreadsheet
    } else if same_chars(&kc, "pptx") || same_chars(&kc, "ppt") {
        Format::Presentation
    } else if same_chars(&kc, "txt") || same_chars(&kc, "md") || same_chars(&kc, "markdown") || same_chars(&kc, "json") || same_chars(&kc, "csv") || same_chars(&kc, "xml") || same_chars(&kc, "yaml") || same_chars(&kc, "yml") || same_chars(&kc, "html") || same_chars(&kc, "htm") || same_chars(&kc, "css") || same_chars(&kc, "js") || same_chars(&kc, "ts") || same_chars(&kc, "jsx") || same_chars(&kc, "tsx") || same_chars(&kc, "py") || same_chars(&kc, "rs") || same_chars(&kc, "go") || same_chars(&kc, "java") || same_chars(&kc, "c") || same_chars(&kc, "cpp") || same_chars(&kc, "h") || same_chars(&kc, "hpp") || same_chars(&kc, "cs") || same_chars(&kc, "rb") || same_chars(&kc, "php") || same_chars(&kc, "swift") || same_chars(&kc, "kt") || same_chars(&kc, "scala") || same_chars(&kc, "r") || same_chars(&kc, "sql") || same_chars(&kc, "sh") || same_chars(&kc, "bash") || same_chars(&kc, "ps1") || same_chars(&kc, "vue") || same_chars(&kc, "svelte") || same_chars(&kc, "toml") || same_chars(&kc, "ini") || same_chars(&kc, "env") || same_chars(&kc, "log") {
        Format::PlainText
    } else {
        Format::Unsupported
    }
}

/// Extracts the text of a document, choosing the format by the file name's
/// extension, whatever its case: PDF (through `decode_pdf`, which turns the
/// bytes of a PDF into its text or into an error message, and is called for
/// PDF files only), word-processing, spreadsheet and presentation
/// containers, and a fixed list of plain-text formats (decoded with invalid
/// UTF-8 replaced). Any other extension is refused with an error that names
/// it.
pub fn parse_document<F: Fn(&[u8]) -> Result<String, String>>(
    data: &[u8],
    filename: &str,
    decode_pdf: F,
) -> (r: Result<ParsedDocument, String>)
    requires
        decode_pdf.requires((data,)),
    ensures
        ({
            let key = extension_key(filename@);
            match format_of(key) {
                Format::Pdf => exists|decoded: Result<String, String>|
                    decode_pdf.ensures((data,), decoded) && pdf_outcome(decoded_view(decoded), r),
                Format::Word => word_outcome(data@, r),
                Format::Spreadsheet => sheets_outcome(data@, r),
                Format::Presentation => slides_outcome(data@, r),
                Format::PlainText => r matches Ok(d) && d@ == plain_view(lossy_of(data@), key),
                Format::Unsupported => r matches Err(m) && m@ == "Unsupported file type: "@ + key,
            }
        }),
{
    let ext = extension_of(filename);
    let key = lowercase(ext.as_str());
    assert(key@ == extension_key(filename@));
    match format_for(key.as_str()) {
        Format::Pdf => parse_pdf(data, decode_pdf),
        Format::Word => parse_docx(data),
        Format::Spreadsheet => parse_xlsx(data),
        Format::Presentation => parse_pptx(data),
        Format::PlainText => {
            let text = lossy_text(data);
            Ok(ParsedDocument { text: clean_text(text.as_str()), pages: 1, file_type: key })
        },
        Format::Unsupported => Err(with_prefix("Unsupported file type: ", key)),
    }
}

/// Extensions that differ only in the case of ASCII letters select the same
/// format, and the same format tag.
pub proof fn lemma_extension_case_insensitive(f1: Seq<char>, f2: Seq<char>)
    requires
        is_ascii_chars(extension(f1)),
        is_ascii_chars(extension(f2)),
        ascii_lower(extension(f1)) == ascii_lower(extension(f2)),
    ensures
        extension_key(f1) == extension_key(f2),
        format_of(extension_key(f1)) == format_of(extension_key(f2)),
{
}

} // verus!
