pub mod archive;
pub mod csv_tsv;
pub mod docx;
pub mod email;
pub mod html;
pub mod image;
pub mod msg;
pub mod pdf;
pub mod pdf_lines;
pub mod pptx;
pub mod rtf;
pub mod text;
pub mod xlsx;

use vstd::prelude::*;
use vstd::utf8::{decode_utf8, valid_utf8};
use crate::format::image::{bytes_start_with, has_prefix};
use crate::format::pdf::{to_lowercase, unicode_lowercase};
use crate::format::archive::{opt_string, zip_entry_names, zip_names};
use crate::strings::{
    chars_of, chars_start_with, is_whitespace, lemma_trim_start, starts_with, trim_start_index,
    trim_start_spec,
};

verus! {

/// A character with ASCII upper-case letters made lower-case.
pub open spec fn ascii_lower(c: char) -> char {
    if 'A' <= c && c <= 'Z' { ((c as u8) + 32) as char } else { c }
}

/// A text with ASCII upper-case letters made lower-case.
pub open spec fn ascii_lowercase(s: Seq<char>) -> Seq<char> {
    s.map_values(|c: char| ascii_lower(c))
}

/// The format key of a file extension, compared without regard to ASCII case.
pub open spec fn format_of_ext(ext: Seq<char>) -> Option<Seq<char>> {
    let e = ascii_lowercase(ext);
    if e == "txt"@ || e == "text"@ || e == "log"@ || e == "cfg"@ || e == "ini"@ || e == "conf"@ {
        Some("text"@)
    } else if e == "csv"@ {
        Some("csv_tsv"@)
    } else if e == "html"@ || e == "htm"@ || e == "xhtml"@ || e == "mhtml"@ || e == "mht"@ {
        Some("html"@)
    } else if e == "md"@ || e == "markdown"@ || e == "rst"@ {
        Some("text"@)
    } else if e == "pdf"@ {
        Some("pdf"@)
    } else if e == "docx"@ || e == "doc"@ {
        Some("docx"@)
    } else if e == "xlsx"@ || e == "xlsb"@ || e == "xls"@ || e == "ods"@ {
        Some("xlsx"@)
    } else if e == "pptx"@ || e == "ppt"@ {
        Some("pptx"@)
    } else if e == "eml"@ {
        Some("email"@)
    } else if e == "msg"@ {
        Some("msg"@)
    } else if e == "tsv"@ || e == "tab"@ {
        Some("csv_tsv"@)
    } else if e == "rtf"@ {
        Some("rtf"@)
    } else if e == "xml"@ || e == "xsd"@ || e == "xsl"@ || e == "svg"@ || e == "rss"@ || e == "atom"@ {
        Some("xml"@)
    } else if e == "json"@ || e == "jsonl"@ || e == "ndjson"@ {
        Some("json"@)
    } else if e == "yaml"@ || e == "yml"@ {
        Some("yaml"@)
    } else if e == "epub"@ {
        Some("epub"@)
    } else if e == "png"@ || e == "jpg"@ || e == "jpeg"@ || e == "tiff"@ || e == "tif"@ || e == "bmp"@
        || e == "gif"@ || e == "webp"@ || e == "heic"@ {
        Some("image"@)
    } else {
        None
    }
}

/// The view of an optional static text.
pub open spec fn opt_str(o: Option<&'static str>) -> Option<Seq<char>> {
    match o {
        Some(s) => Some(s@),
        None => None,
    }
}

/// Whether the characters of `e` are those of `lit`.
pub(crate) fn is_text(e: &Vec<char>, lit: &str) -> (r: bool)
    ensures
        r == (e@ == lit@),
{
    let l = chars_of(lit);
    if l.len() != e.len() {
        return false;
    }
    assert(e@.take(e@.len() as int) =~= e@);
    chars_start_with(e.as_slice(), l.as_slice())
}

/// The characters of a text with ASCII letters made lower-case.
pub(crate) fn ascii_lowercase_chars(s: &str) -> (r: Vec<char>)
    ensures
        r@ == ascii_lowercase(s@),
{
    let cs = chars_of(s);
    let mut r: Vec<char> = Vec::new();
    let mut i: usize = 0;
    while i < cs.len()
        invariant
            i <= cs@.len(),
            cs@ == s@,
            r@ == ascii_lowercase(s@).take(i as int),
        decreases cs@.len() - i,
    {
        let c = cs[i];
        let l = if 'A' <= c && c <= 'Z' { ((c as u8) + 32) as char } else { c };
        r.push(l);
        i += 1;
        assert(r@ =~= ascii_lowercase(s@).take(i as int));
    }
    assert(ascii_lowercase(s@).take(i as int) =~= ascii_lowercase(s@));
    r
}

/// Lower-casing ASCII twice is lower-casing it once.
proof fn lemma_ascii_lowercase_idempotent(s: Seq<char>)
    ensures
        ascii_lowercase(ascii_lowercase(s)) == ascii_lowercase(s),
{
    assert forall|i: int| 0 <= i < s.len() implies #[trigger] ascii_lower(ascii_lower(s[i])) == ascii_lower(s[i]) by {
        let c = s[i];
        if 'A' <= c && c <= 'Z' {
            assert(((c as u8) + 32) as char >= 'a');
        }
    }
    assert(ascii_lowercase(ascii_lowercase(s)) =~= ascii_lowercase(s));
}

/// A character with ASCII lower-case letters made upper-case.
pub open spec fn ascii_upper(c: char) -> char {
    if 'a' <= c && c <= 'z' { ((c as u8) - 32) as char } else { c }
}

/// A text with ASCII lower-case letters made upper-case.
pub open spec fn ascii_uppercase(s: Seq<char>) -> Seq<char> {
    s.map_values(|c: char| ascii_upper(c))
}

/// The format keys that extension lookup can give.
pub open spec fn known_format_key(k: Seq<char>) -> bool {
    k == "text"@ || k == "csv_tsv"@ || k == "html"@ || k == "pdf"@ || k == "docx"@ || k == "xlsx"@
        || k == "pptx"@ || k == "email"@ || k == "msg"@ || k == "rtf"@ || k == "xml"@ || k == "json"@
        || k == "yaml"@ || k == "epub"@ || k == "image"@
}

/// Extension lookup ignores ASCII case: extensions that differ only in the case
/// of ASCII letters name the same format, an extension names the format of its
/// lower-case and of its upper-case form, and what it names is a known key.
pub proof fn law_ext_case_insensitive(a: Seq<char>, b: Seq<char>)
    ensures
        ascii_lowercase(a) == ascii_lowercase(b) ==> format_of_ext(a) == format_of_ext(b),
        format_of_ext(ascii_lowercase(a)) == format_of_ext(a),
        format_of_ext(ascii_uppercase(a)) == format_of_ext(a),
        format_of_ext(a) matches Some(k) ==> known_format_key(k),
{
    lemma_ascii_lowercase_idempotent(a);
    assert forall|i: int| 0 <= i < a.len() implies #[trigger] ascii_lower(ascii_upper(a[i])) == ascii_lower(a[i]) by {
        let c = a[i];
        if 'a' <= c && c <= 'z' {
            assert(((c as u8) - 32) as char <= 'Z');
        }
    }
    assert(ascii_lowercase(ascii_uppercase(a)) =~= ascii_lowercase(a));
}

/// Maps a file extension, without regard to ASCII case, to its format key.
pub fn detect_format_from_ext(ext: &str) -> (r: Option<&'static str>)
    ensures
        opt_str(r) == format_of_ext(ext@),
{
    let e = ascii_lowercase_chars(ext);
    if is_text(&e, "txt") || is_text(&e, "text") || is_text(&e, "log") || is_text(&e, "cfg")
        || is_text(&e, "ini") || is_text(&e, "conf") {
        return Some("text");
    }
    if is_text(&e, "csv") {
        return Some("csv_tsv");
    }
    if is_text(&e, "html") || is_text(&e, "htm") || is_text(&e, "xhtml") || is_text(&e, "mhtml")
        || is_text(&e, "mht") {
        return Some("html");
    }
    if is_text(&e, "md") || is_text(&e, "markdown") || is_text(&e, "rst") {
        return Some("text");
    }
    if is_text(&e, "pdf") {
        return Some("pdf");
    }
    if is_text(&e, "docx") || is_text(&e, "doc") {
        return Some("docx");
    }
    if is_text(&e, "xlsx") || is_text(&e, "xlsb") || is_text(&e, "xls") || is_text(&e, "ods") {
        return Some("xlsx");
    }
    if is_text(&e, "pptx") || is_text(&e, "ppt") {
        return Some("pptx");
    }
    if is_text(&e, "eml") {
        return Some("email");
    }
    if is_text(&e, "msg") {
        return Some("msg");
    }
    if is_text(&e, "tsv") || is_text(&e, "tab") {
        return Some("csv_tsv");
    }
    if is_text(&e, "rtf") {
        return Some("rtf");
    }
    if is_text(&e, "xml") || is_text(&e, "xsd") || is_text(&e, "xsl") || is_text(&e, "svg")
        || is_text(&e, "rss") || is_text(&e, "atom") {
        return Some("xml");
    }
    if is_text(&e, "json") || is_text(&e, "jsonl") || is_text(&e, "ndjson") {
        return Some("json");
    }
    if is_text(&e, "yaml") || is_text(&e, "yml") {
        return Some("yaml");
    }
    if is_text(&e, "epub") {
        return Some("epub");
    }
    if is_text(&e, "png") || is_text(&e, "jpg") || is_text(&e, "jpeg") || is_text(&e, "tiff")
        || is_text(&e, "tif") || is_text(&e, "bmp") || is_text(&e, "gif") || is_text(&e, "webp")
        || is_text(&e, "heic") {
        return Some("image");
    }
    None
}

/// The extension of a path as `std::path::Path::extension` finds it: the text
/// after the last `.` of the file name, when the name has one not at its start.
pub uninterp spec fn path_extension(path: Seq<char>) -> Option<Seq<char>>;

/// `Path::new(path).extension()`, as text. Which extension a path has is left to std.
#[verifier::external_body]
pub(crate) fn extension_of(path: &str) -> (r: Option<&str>)
    ensures
        match r {
            Some(e) => path_extension(path@) == Some(e@),
            None => path_extension(path@) is None,
        },
{
    std::path::Path::new(path).extension().and_then(|e| e.to_str())
}

/// The format key of a path, from its extension.
pub open spec fn format_of_path(path: Seq<char>) -> Option<Seq<char>> {
    match path_extension(path) {
        Some(e) => format_of_ext(e),
        None => None,
    }
}

/// Detects a file's format from its extension (the fast path).
pub fn detect_format(path: &str) -> (r: Option<&'static str>)
    ensures
        opt_str(r) == format_of_path(path@),
{
    match extension_of(path) {
        Some(e) => detect_format_from_ext(e),
        None => None,
    }
}


/// Whether `p` occurs in `s`.
pub open spec fn occurs_in(s: Seq<char>, p: Seq<char>) -> bool {
    exists|i: int| 0 <= i <= s.len() - p.len() && #[trigger] s.subrange(i, i + p.len()) == p
}

/// Whether the characters of `p` occur in `s` at position `i`.
pub(crate) fn matches_at(s: &Vec<char>, p: &Vec<char>, i: usize) -> (b: bool)
    requires
        i + p@.len() <= s@.len(),
    ensures
        b == (s@.subrange(i as int, i + p@.len()) == p@),
{
    let n = s.len();
    let mut j: usize = 0;
    while j < p.len()
        invariant
            n == s@.len(),
            i + p@.len() <= s@.len(),
            j <= p@.len(),
            forall|k: int| 0 <= k < j ==> s@[i + k] == p@[k],
        decreases p@.len() - j,
    {
        if s[i + j] != p[j] {
            assert(s@.subrange(i as int, i + p@.len())[j as int] != p@[j as int]);
            return false;
        }
        j += 1;
    }
    assert(s@.subrange(i as int, i + p@.len()) =~= p@);
    true
}

/// Whether the characters of `p` occur in those of `s`.
pub fn contains_chars(s: &Vec<char>, p: &Vec<char>) -> (b: bool)
    ensures
        b == occurs_in(s@, p@),
{
    if p.len() == 0 {
        assert(s@.subrange(0, 0int + p@.len()) =~= p@);
        return true;
    }
    if p.len() > s.len() {
        return false;
    }
    let n = s.len();
    let last = n - p.len();
    let mut i: usize = 0;
    while i <= last
        invariant
            n == s@.len(),
            1 <= p@.len() <= s@.len(),
            last == s@.len() - p@.len(),
            i <= last + 1,
            forall|k: int| 0 <= k < i ==> #[trigger] s@.subrange(k, k + p@.len()) != p@,
        decreases last + 1 - i,
    {
        if matches_at(s, p, i) {
            return true;
        }
        i += 1;
    }
    false
}

/// The first bytes of a file that the magic-byte check reads: at most 8192.
pub open spec fn magic_header(data: Seq<u8>) -> Seq<u8> {
    if data.len() > 8192 { data.take(8192) } else { data }
}

/// Whether bytes start like a ZIP archive.
pub open spec fn is_zip_magic(h: Seq<u8>) -> bool {
    has_prefix(h, seq![0x50u8, 0x4Bu8, 0x03u8, 0x04u8]) || has_prefix(h, seq![0x50u8, 0x4Bu8, 0x05u8, 0x06u8])
}

/// The format key that the first bytes of a file show; a ZIP archive is the
/// format its entries show, else a Word document. Text is looked at last:
/// HTML, then XML, then JSON.
pub open spec fn format_of_magic(data: Seq<u8>, zip_format: Option<Seq<char>>) -> Option<Seq<char>> {
    let h = magic_header(data);
    if has_prefix(h, seq![0x25u8, 0x50u8, 0x44u8, 0x46u8]) {
        Some("pdf"@)
    } else if is_zip_magic(h) {
        match zip_format {
            Some(z) => Some(z),
            None => Some("docx"@),
        }
    } else if has_prefix(h, seq![0xD0u8, 0xCFu8, 0x11u8, 0xE0u8, 0xA1u8, 0xB1u8, 0x1Au8, 0xE1u8]) {
        Some("msg"@)
    } else if has_prefix(h, seq![0x7Bu8, 0x5Cu8, 0x72u8, 0x74u8, 0x66u8]) {
        Some("rtf"@)
    } else if has_prefix(h, seq![0x89u8, 0x50u8, 0x4Eu8, 0x47u8]) || has_prefix(h, seq![0xFFu8, 0xD8u8, 0xFFu8])
        || has_prefix(h, seq![0x47u8, 0x49u8, 0x46u8, 0x38u8]) {
        Some("image"@)
    } else if has_prefix(h, seq![0x42u8, 0x4Du8]) && h.len() > 14 {
        Some("image"@)
    } else if has_prefix(h, seq![0x49u8, 0x49u8, 0x2Au8, 0x00u8]) || has_prefix(h, seq![0x4Du8, 0x4Du8, 0x00u8, 0x2Au8]) {
        Some("image"@)
    } else if valid_utf8(h) {
        let text = decode_utf8(h);
        let lower = unicode_lowercase(text);
        if occurs_in(lower, "<!doctype html"@) || occurs_in(lower, "<html"@) {
            Some("html"@)
        } else if starts_with(lower, "<?xml"@) {
            Some("xml"@)
        } else if starts_with(trim_start_spec(text), seq!['{']) || starts_with(trim_start_spec(text), seq!['[']) {
            Some("json"@)
        } else {
            None
        }
    } else {
        None
    }
}

/// `std::str::from_utf8`: the text that valid UTF-8 bytes encode, or `None`.
#[verifier::external_body]
fn utf8_text(bytes: &[u8]) -> (r: Option<&str>)
    ensures
        r is Some <==> valid_utf8(bytes@),
        r matches Some(t) ==> t@ == decode_utf8(bytes@),
{
    std::str::from_utf8(bytes).ok()
}

/// The first `n` bytes of `data`.
fn bytes_prefix(data: &[u8], n: usize) -> (r: Vec<u8>)
    requires
        n <= data@.len(),
    ensures
        r@ == data@.take(n as int),
{
    let mut r: Vec<u8> = Vec::new();
    let mut i: usize = 0;
    while i < n
        invariant
            i <= n <= data@.len(),
            r@ == data@.take(i as int),
        decreases n - i,
    {
        r.push(data[i]);
        i += 1;
        assert(r@ =~= data@.take(i as int));
    }
    r
}

/// Detects a file's format from its first bytes (the fallback for files without
/// an extension). For a ZIP archive, `zip_format` is the format that its entries
/// show (see `zip_entries_format`).
pub fn detect_format_by_magic(data: &[u8], zip_format: Option<&'static str>) -> (r: Option<&'static str>)
    ensures
        opt_str(r) == format_of_magic(data@, opt_str(zip_format)),
{
    let n = if data.len() > 8192 { 8192 } else { data.len() };
    let header = bytes_prefix(data, n);
    assert(header@ == magic_header(data@)) by {
        if data@.len() <= 8192 {
            assert(data@.take(data@.len() as int) =~= data@);
        }
    };
    let h = header.as_slice();
    assert(h@ == magic_header(data@));
    let pdf: [u8; 4] = [0x25, 0x50, 0x44, 0x46];
    let zip1: [u8; 4] = [0x50, 0x4B, 0x03, 0x04];
    let zip2: [u8; 4] = [0x50, 0x4B, 0x05, 0x06];
    let ole: [u8; 8] = [0xD0, 0xCF, 0x11, 0xE0, 0xA1, 0xB1, 0x1A, 0xE1];
    let rtf: [u8; 5] = [0x7B, 0x5C, 0x72, 0x74, 0x66];
    let png: [u8; 4] = [0x89, 0x50, 0x4E, 0x47];
    let jpg: [u8; 3] = [0xFF, 0xD8, 0xFF];
    let gif: [u8; 4] = [0x47, 0x49, 0x46, 0x38];
    let bmp: [u8; 2] = [0x42, 0x4D];
    let tif1: [u8; 4] = [0x49, 0x49, 0x2A, 0x00];
    let tif2: [u8; 4] = [0x4D, 0x4D, 0x00, 0x2A];
    assert(pdf@ =~= seq![0x25u8, 0x50u8, 0x44u8, 0x46u8]);
    assert(zip1@ =~= seq![0x50u8, 0x4Bu8, 0x03u8, 0x04u8]);
    assert(zip2@ =~= seq![0x50u8, 0x4Bu8, 0x05u8, 0x06u8]);
    assert(ole@ =~= seq![0xD0u8, 0xCFu8, 0x11u8, 0xE0u8, 0xA1u8, 0xB1u8, 0x1Au8, 0xE1u8]);
    assert(rtf@ =~= seq![0x7Bu8, 0x5Cu8, 0x72u8, 0x74u8, 0x66u8]);
    assert(png@ =~= seq![0x89u8, 0x50u8, 0x4Eu8, 0x47u8]);
    assert(jpg@ =~= seq![0xFFu8, 0xD8u8, 0xFFu8]);
    assert(gif@ =~= seq![0x47u8, 0x49u8, 0x46u8, 0x38u8]);
    assert(bmp@ =~= seq![0x42u8, 0x4Du8]);
    assert(tif1@ =~= seq![0x49u8, 0x49u8, 0x2Au8, 0x00u8]);
    assert(tif2@ =~= seq![0x4Du8, 0x4Du8, 0x00u8, 0x2Au8]);
    if bytes_start_with(h, &pdf) {
        return Some("pdf");
    }
    if bytes_start_with(h, &zip1) || bytes_start_with(h, &zip2) {
        return match zip_format {
            Some(z) => Some(z),
            None => Some("docx"),
        };
    }
    if bytes_start_with(h, &ole) {
        return Some("msg");
    }
    if bytes_start_with(h, &rtf) {
        return Some("rtf");
    }
    if bytes_start_with(h, &png) || bytes_start_with(h, &jpg) || bytes_start_with(h, &gif) {
        return Some("image");
    }
    if bytes_start_with(h, &bmp) && h.len() > 14 {
        return Some("image");
    }
    if bytes_start_with(h, &tif1) || bytes_start_with(h, &tif2) {
        return Some("image");
    }
    match utf8_text(h) {
        Some(text) => {
            let lower = chars_of(to_lowercase(text).as_str());
            if contains_chars(&lower, &chars_of("<!doctype html")) || contains_chars(&lower, &chars_of("<html")) {
                return Some("html");
            }
            if chars_start_with(lower.as_slice(), chars_of("<?xml").as_slice()) {
                return Some("xml");
            }
            let cs = chars_of(text);
            let mut i: usize = 0;
            while i < cs.len() && is_whitespace(cs[i])
                invariant
                    i <= cs@.len(),
                    cs@ == text@,
                    trim_start_index(cs@, 0) == trim_start_index(cs@, i as int),
                decreases cs@.len() - i,
            {
                i += 1;
            }
            proof {
                lemma_trim_start(cs@, 0);
                assert(cs@.skip(0) =~= cs@);
            }
            assert(trim_start_spec(text@) == cs@.skip(i as int));
            if i < cs.len() && (cs[i] == '{' || cs[i] == '[') {
                assert(trim_start_spec(text@) == cs@.skip(i as int));
                assert(cs@.skip(i as int).take(1) =~= seq![cs@[i as int]]);
                return Some("json");
            }
            proof {
                if i < cs@.len() {
                    assert(cs@.skip(i as int).take(1) =~= seq![cs@[i as int]]);
                    assert(seq![cs@[i as int]][0] == cs@[i as int]);
                    assert(seq!['{'][0] == '{' && seq!['['][0] == '[');
                }
            }
            assert(!starts_with(trim_start_spec(text@), seq!['{']));
            assert(!starts_with(trim_start_spec(text@), seq!['[']));
            None
        },
        None => None,
    }
}

/// The format that the entries of a ZIP archive show: the first of its first
/// twenty entry names that, lower-cased, starts with `word/`, `xl/` or `ppt/`.
pub open spec fn zip_format_of(names: Seq<Seq<char>>, k: int) -> Option<Seq<char>>
    decreases names.len() - k,
{
    if k >= names.len() || k >= 20 {
        None
    } else {
        let l = unicode_lowercase(names[k]);
        if starts_with(l, "word/"@) {
            Some("docx"@)
        } else if starts_with(l, "xl/"@) {
            Some("xlsx"@)
        } else if starts_with(l, "ppt/"@) {
            Some("pptx"@)
        } else {
            zip_format_of(names, k + 1)
        }
    }
}

/// The format that the names of a ZIP archive's entries show, in archive order.
pub fn zip_entries_format(names: &Vec<String>) -> (r: Option<&'static str>)
    ensures
        opt_str(r) == zip_format_of(names.deep_view(), 0),
{
    let mut k: usize = 0;
    while k < names.len() && k < 20
        invariant
            k <= names@.len(),
            zip_format_of(names.deep_view(), 0) == zip_format_of(names.deep_view(), k as int),
        decreases names@.len() - k,
    {
        let l = chars_of(to_lowercase(names[k].as_str()).as_str());
        if chars_start_with(l.as_slice(), chars_of("word/").as_slice()) {
            return Some("docx");
        }
        if chars_start_with(l.as_slice(), chars_of("xl/").as_slice()) {
            return Some("xlsx");
        }
        if chars_start_with(l.as_slice(), chars_of("ppt/").as_slice()) {
            return Some("pptx");
        }
        k += 1;
    }
    None
}

/// The entry names of an archive as text, an unreadable name as empty text.
pub open spec fn names_or_empty(ns: Seq<Option<Seq<char>>>) -> Seq<Seq<char>> {
    ns.map_values(|o: Option<Seq<char>>| match o {
        Some(n) => n,
        None => seq![],
    })
}

/// The format that the entries of the ZIP archive in `data` show, or `None`
/// when it cannot be opened as one.
pub open spec fn zip_contents_format_of(data: Seq<u8>) -> Option<Seq<char>> {
    match zip_entry_names(data) {
        Ok(ns) => zip_format_of(names_or_empty(ns), 0),
        Err(_) => None,
    }
}

/// Opens the ZIP archive in `data` and finds the format its entries show.
pub fn zip_contents_format(data: &[u8]) -> (r: Option<&'static str>)
    ensures
        opt_str(r) == zip_contents_format_of(data@),
{
    match zip_names(data) {
        Err(_) => None,
        Ok(ns) => {
            let ghost nv = ns@.map_values(|o: Option<String>| opt_string(o));
            let mut names: Vec<String> = Vec::new();
            let mut i: usize = 0;
            while i < ns.len()
                invariant
                    i <= ns@.len(),
                    nv == ns@.map_values(|o: Option<String>| opt_string(o)),
                    names.deep_view() == names_or_empty(nv).take(i as int),
                decreases ns@.len() - i,
            {
                let ghost before = names.deep_view();
                let n = match &ns[i] {
                    Some(n) => n.clone(),
                    None => String::new(),
                };
                assert(nv[i as int] == opt_string(ns@[i as int]));
                assert(n@ == names_or_empty(nv)[i as int]);
                let ghost nn = n@;
                names.push(n);
                assert(names.deep_view() =~= before.push(nn));
                assert(names.deep_view() =~= names_or_empty(nv).take(i + 1));
                i += 1;
            }
            assert(names_or_empty(nv).take(i as int) =~= names_or_empty(nv));
            zip_entries_format(&names)
        },
    }
}

} // verus!
