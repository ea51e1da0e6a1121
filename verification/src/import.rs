//! Import of target lists: which files are read as text and which as
//! tables, how raw bytes become text, and how table rows are cleaned.
use vstd::prelude::*;

use crate::text::{chars_eq, lowercase_of, to_chars, to_lowercase};

verus! {

/// What an import file was read as.
#[derive(Debug, Clone, PartialEq)]
pub enum ImportPayload {
    /// Plain text.
    Text {
        /// The decoded text.
        text: String,
    },
    /// A table (the first sheet of a workbook), every cell as text.
    Table {
        /// The rows, each without trailing empty cells.
        rows: Vec<Vec<String>>,
    },
}

/* ----------------------------- routing ----------------------------- */

/// How a file is read, decided by its extension.
#[derive(Debug, Clone, Copy, PartialEq, Eq, Structural)]
pub enum ImportRoute {
    /// Read as text (`txt`, `csv`, `log`, `dat`, `list`).
    Text,
    /// Read as a workbook (`xlsx`, `xlsm`, `xls`, `ods`).
    Table,
    /// Unknown extension: a ZIP signature means a workbook, else text.
    Sniff,
}

/// The route of a lower-cased extension.
pub open spec fn route_of(ext: Seq<char>) -> ImportRoute {
    if ext == "txt"@ || ext == "csv"@ || ext == "log"@ || ext == "dat"@ || ext == "list"@ {
        ImportRoute::Text
    } else if ext == "xlsx"@ || ext == "xlsm"@ || ext == "xls"@ || ext == "ods"@ {
        ImportRoute::Table
    } else {
        ImportRoute::Sniff
    }
}

fn is_word(v: &Vec<char>, w: &str) -> (r: bool)
    ensures
        r == (v@ == w@),
{
    let x = to_chars(w);
    chars_eq(v.as_slice(), x.as_slice())
}

/// How a file with a lower-case extension is read.
pub fn route_of_lowercase(lower: &str) -> (r: ImportRoute)
    ensures
        r == route_of(lower@),
{
    let v = to_chars(lower);
    if is_word(&v, "txt") || is_word(&v, "csv") || is_word(&v, "log") || is_word(&v, "dat")
        || is_word(&v, "list") {
        ImportRoute::Text
    } else if is_word(&v, "xlsx") || is_word(&v, "xlsm") || is_word(&v, "xls") || is_word(
        &v,
        "ods",
    ) {
        ImportRoute::Table
    } else {
        ImportRoute::Sniff
    }
}

/// How a file with extension `ext` (without the dot, any case) is read.
pub fn import_route(ext: &str) -> (r: ImportRoute)
    ensures
        r == route_of(lowercase_of(ext@)),
{
    let lower = to_lowercase(ext);
    route_of_lowercase(lower.as_str())
}

/// Whether `b` starts with the ZIP signature `PK\x03\x04` (workbooks in the
/// xlsx and ods formats are ZIP files).
pub open spec fn has_zip_magic(b: Seq<u8>) -> bool {
    b.len() >= 4 && b[0] == 0x50 && b[1] == 0x4B && b[2] == 0x03 && b[3] == 0x04
}

/// Executable `has_zip_magic`.
pub fn is_zip(bytes: &[u8]) -> (r: bool)
    ensures
        r == has_zip_magic(bytes@),
{
    bytes.len() >= 4 && bytes[0] == 0x50 && bytes[1] == 0x4B && bytes[2] == 0x03 && bytes[3]
        == 0x04
}

/* ----------------------------- decoding ----------------------------- */

/// What `std::str::from_utf8` gives for `b`: the text when `b` is valid
/// UTF-8.
pub uninterp spec fn utf8_decoded(b: Seq<u8>) -> Option<Seq<char>>;

/// What `String::from_utf8_lossy` gives for `b`.
pub uninterp spec fn utf8_lossy_of(b: Seq<u8>) -> Seq<char>;

/// What `encoding_rs::GBK.decode` gives for `b`: the text and whether
/// malformed sequences were replaced.
pub uninterp spec fn gbk_decoded(b: Seq<u8>) -> (Seq<char>, bool);

/// Calls `std::str::from_utf8`: the text of `bytes` when they are valid
/// UTF-8, `None` otherwise; the result is named `utf8_decoded`.
#[verifier::external_body]
fn utf8_strict(bytes: &[u8]) -> (r: Option<String>)
    ensures
        match r {
            Some(s) => utf8_decoded(bytes@) == Some(s@),
            None => utf8_decoded(bytes@) is None,
        },
{
    std::str::from_utf8(bytes).ok().map(|s| s.to_string())
}

/// Calls `String::from_utf8_lossy` (invalid sequences become U+FFFD); the
/// result is named `utf8_lossy_of`.
#[verifier::external_body]
pub(crate) fn utf8_lossy(bytes: &[u8]) -> (r: String)
    ensures
        r@ == utf8_lossy_of(bytes@),
{
    String::from_utf8_lossy(bytes).to_string()
}

/// Calls `encoding_rs::GBK.decode`, which first sniffs a byte order mark
/// (UTF-8 or UTF-16) and otherwise decodes GBK; returns the text and the
/// malformed-input flag, named `gbk_decoded`. The crate panics when its
/// output size computation overflows `usize` (inputs of about a third of
/// `usize::MAX` bytes); smaller inputs are required.
#[verifier::external_body]
fn gbk_decode(bytes: &[u8]) -> (r: (String, bool))
    requires
        bytes@.len() <= usize::MAX / 4,
    ensures
        (r.0@, r.1) == gbk_decoded(bytes@),
{
    let (text, _, had_errors) = encoding_rs::GBK.decode(bytes);
    (text.into_owned(), had_errors)
}

/// Whether `b` starts with the UTF-8 byte order mark.
pub open spec fn has_utf8_bom(b: Seq<u8>) -> bool {
    b.len() >= 3 && b[0] == 0xEF && b[1] == 0xBB && b[2] == 0xBF
}

/// The text chosen from the decodings of one input that has no UTF-8 byte
/// order mark: strict UTF-8 when valid, else GBK when it decoded without
/// errors, else lossy UTF-8.
pub open spec fn chosen_text(strict: Option<Seq<char>>, gbk: (Seq<char>, bool), lossy: Seq<char>) -> Seq<char> {
    match strict {
        Some(s) => s,
        None => if !gbk.1 {
            gbk.0
        } else {
            lossy
        },
    }
}

/// The text of a file's bytes: after a UTF-8 byte order mark, lossy UTF-8
/// of the rest; otherwise the choice of `chosen_text`.
pub open spec fn decoded_text(b: Seq<u8>) -> Seq<char> {
    if has_utf8_bom(b) {
        utf8_lossy_of(b.skip(3))
    } else {
        chosen_text(utf8_decoded(b), gbk_decoded(b), utf8_lossy_of(b))
    }
}

/// Picks the text among the decodings of one input (see `chosen_text`).
pub fn choose_decoding(strict: Option<String>, gbk: (String, bool), lossy: String) -> (r: String)
    ensures
        r@ == chosen_text(
            match strict {
                Some(s) => Some(s@),
                None => None,
            },
            (gbk.0@, gbk.1),
            lossy@,
        ),
{
    match strict {
        Some(s) => s,
        None => if !gbk.1 {
            gbk.0
        } else {
            lossy
        },
    }
}

/// Decodes the bytes of an imported text file (see `decoded_text`): never
/// fails, and keeps line breaks as they are.
pub fn decode_bytes(bytes: &[u8]) -> (r: String)
    requires
        bytes@.len() <= usize::MAX / 4,
    ensures
        r@ == decoded_text(bytes@),
{
    if bytes.len() >= 3 && bytes[0] == 0xEF && bytes[1] == 0xBB && bytes[2] == 0xBF {
        let rest = vstd::slice::slice_subrange(bytes, 3, bytes.len());
        assert(rest@ =~= bytes@.skip(3));
        return utf8_lossy(rest);
    }
    let strict = utf8_strict(bytes);
    let gbk = gbk_decode(bytes);
    let lossy = utf8_lossy(bytes);
    choose_decoding(strict, gbk, lossy)
}

/* ----------------------------- table rows ----------------------------- */

/// `cells` without its trailing empty cells.
pub open spec fn without_trailing_empty(cells: Seq<String>) -> Seq<String>
    decreases cells.len(),
{
    if cells.len() > 0 && cells.last()@.len() == 0 {
        without_trailing_empty(cells.drop_last())
    } else {
        cells
    }
}

/// A table row without its trailing empty cells; `None` when nothing is
/// left.
pub fn normalize_row(cells: Vec<String>) -> (r: Option<Vec<String>>)
    ensures
        match r {
            Some(v) => v@ == without_trailing_empty(cells@) && v@.len() > 0,
            None => without_trailing_empty(cells@).len() == 0,
        },
{
    let mut cells = cells;
    let ghost orig = cells@;
    while cells.len() > 0 && cells[cells.len() - 1].as_str().is_empty()
        invariant
            without_trailing_empty(cells@) == without_trailing_empty(orig),
        decreases cells.len(),
    {
        proof {
            let c = cells@;
            assert(c.last()@.len() == 0);
        }
        cells.pop();
    }
    if cells.len() == 0 {
        None
    } else {
        Some(cells)
    }
}

/// Valid UTF-8 without a byte order mark is taken as it is, never decoded
/// as GBK.
pub proof fn lemma_valid_utf8_kept(b: Seq<u8>, s: Seq<char>)
    requires
        !has_utf8_bom(b),
        utf8_decoded(b) == Some(s),
    ensures
        decoded_text(b) == s,
{
}

/// The file types: `txt`, `csv`, `log`, `dat` and `list` files are read as
/// text; `xlsx`, `xlsm`, `xls` and `ods` files as workbooks; a file with any
/// other lower-case extension is sniffed.
pub proof fn lemma_extension_routes(ext: Seq<char>)
    ensures
        route_of("txt"@) == ImportRoute::Text,
        route_of("csv"@) == ImportRoute::Text,
        route_of("log"@) == ImportRoute::Text,
        route_of("dat"@) == ImportRoute::Text,
        route_of("list"@) == ImportRoute::Text,
        route_of("xlsx"@) == ImportRoute::Table,
        route_of("xlsm"@) == ImportRoute::Table,
        route_of("xls"@) == ImportRoute::Table,
        route_of("ods"@) == ImportRoute::Table,
        ext != "txt"@ && ext != "csv"@ && ext != "log"@ && ext != "dat"@ && ext != "list"@ && ext
            != "xlsx"@ && ext != "xlsm"@ && ext != "xls"@ && ext != "ods"@ ==> route_of(ext)
            == ImportRoute::Sniff,
{
    reveal_strlit("txt");
    reveal_strlit("csv");
    reveal_strlit("log");
    reveal_strlit("dat");
    reveal_strlit("list");
    reveal_strlit("xlsx");
    reveal_strlit("xlsm");
    reveal_strlit("xls");
    reveal_strlit("ods");
    assert("xlsx"@[0] != "txt"@[0]);
    assert("xlsx"@[0] != "csv"@[0]);
    assert("xlsx"@[0] != "log"@[0]);
    assert("xlsx"@[0] != "dat"@[0]);
    assert("xlsx"@[0] != "list"@[0]);
    assert("xlsm"@[0] != "txt"@[0]);
    assert("xlsm"@[0] != "csv"@[0]);
    assert("xlsm"@[0] != "log"@[0]);
    assert("xlsm"@[0] != "dat"@[0]);
    assert("xlsm"@[0] != "list"@[0]);
    assert("xls"@[0] != "txt"@[0]);
    assert("xls"@[0] != "csv"@[0]);
    assert("xls"@[0] != "log"@[0]);
    assert("xls"@[0] != "dat"@[0]);
    assert("xls"@[0] != "list"@[0]);
    assert("ods"@[0] != "txt"@[0]);
    assert("ods"@[0] != "csv"@[0]);
    assert("ods"@[0] != "log"@[0]);
    assert("ods"@[0] != "dat"@[0]);
    assert("ods"@[0] != "list"@[0]);
}

} // verus!
