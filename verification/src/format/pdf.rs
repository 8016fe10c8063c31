//! Classification of PDF text into element kinds.
use vstd::prelude::*;

use crate::chunking::byte_len;
use crate::format::{ascii_lowercase, contains_chars, occurs_in};
use crate::model::{block_views, plain_block, Block, BlockView, ElementType};
use crate::strings::{string_of, trim_chars, trim_spec, views_of};
use crate::Error;
use crate::strings::{chars_of, chars_start_with, is_u32_text, lines_spec, parses_u32, split_lines, starts_with, is_ascii_digit, is_digit_spec, all_digits};

verus! {

/// PDF documents.
pub struct PdfParser;

/// What `char::is_alphabetic` gives: the Unicode `Alphabetic` property.
pub uninterp spec fn unicode_alphabetic(c: char) -> bool;

/// What `char::is_uppercase` gives: the Unicode `Uppercase` property.
pub uninterp spec fn unicode_uppercase(c: char) -> bool;

/// What `str::to_lowercase` gives: the Unicode lowercase mapping of the text.
pub uninterp spec fn unicode_lowercase(s: Seq<char>) -> Seq<char>;

/// `char::is_alphabetic`. Among ASCII characters exactly the letters are alphabetic.
#[verifier::external_body]
fn char_is_alphabetic(c: char) -> (b: bool)
    ensures
        b == unicode_alphabetic(c),
        (c as u32) < 128 ==> (b <==> (('a' <= c && c <= 'z') || ('A' <= c && c <= 'Z'))),
{
    c.is_alphabetic()
}

/// `char::is_uppercase`. Among ASCII characters exactly `A`..`Z` are uppercase.
#[verifier::external_body]
fn char_is_uppercase(c: char) -> (b: bool)
    ensures
        b == unicode_uppercase(c),
        (c as u32) < 128 ==> (b <==> ('A' <= c && c <= 'Z')),
{
    c.is_uppercase()
}

/// `str::to_lowercase`. On ASCII text the Unicode mapping is the ASCII one:
/// `A`..`Z` become `a`..`z` and every other ASCII character stays as it is.
#[verifier::external_body]
pub(crate) fn to_lowercase(s: &str) -> (r: String)
    ensures
        r@ == unicode_lowercase(s@),
        (forall|i: int| 0 <= i < s@.len() ==> (s@[i] as u32) < 128) ==> r@ == ascii_lowercase(s@),
{
    s.to_lowercase()
}

/// How many characters of `s` are alphabetic.
pub open spec fn alphabetic_count(s: Seq<char>) -> nat
    decreases s.len(),
{
    if s.len() == 0 {
        0
    } else {
        alphabetic_count(s.drop_last()) + if unicode_alphabetic(s.last()) { 1nat } else { 0nat }
    }
}

/// How many characters of `s` are alphabetic and uppercase.
pub open spec fn uppercase_count(s: Seq<char>) -> nat
    decreases s.len(),
{
    if s.len() == 0 {
        0
    } else {
        uppercase_count(s.drop_last()) + if unicode_alphabetic(s.last()) && unicode_uppercase(
            s.last(),
        ) {
            1nat
        } else {
            0nat
        }
    }
}

proof fn lemma_upper_le_alpha(s: Seq<char>)
    ensures
        uppercase_count(s) <= alphabetic_count(s),
        alphabetic_count(s) <= s.len(),
    decreases s.len(),
{
    if s.len() > 0 {
        lemma_upper_le_alpha(s.drop_last());
    }
}

fn letter_counts(s: &Vec<char>) -> (r: (usize, usize))
    ensures
        r.0 == alphabetic_count(s@),
        r.1 == uppercase_count(s@),
{
    let mut alpha: usize = 0;
    let mut upper: usize = 0;
    let mut k: usize = 0;
    while k < s.len()
        invariant
            k <= s@.len(),
            alpha == alphabetic_count(s@.take(k as int)),
            upper == uppercase_count(s@.take(k as int)),
        decreases s@.len() - k,
    {
        proof {
            assert(s@.take(k + 1).drop_last() =~= s@.take(k as int));
            lemma_upper_le_alpha(s@.take(k as int));
        }
        let c = s[k];
        if char_is_alphabetic(c) {
            alpha += 1;
            if char_is_uppercase(c) {
                upper += 1;
            }
        }
        k += 1;
    }
    assert(s@.take(s@.len() as int) =~= s@);
    (alpha, upper)
}

/// The first position of `.` or `)` in `s`, if any.
pub open spec fn first_stop(s: Seq<char>, from: int) -> Option<int>
    decreases s.len() - from,
{
    if from < 0 || from >= s.len() {
        None
    } else if s[from] == '.' || s[from] == ')' {
        Some(from)
    } else {
        first_stop(s, from + 1)
    }
}

/// Whether a line reads as a list item: a bullet marker and a space, or one to
/// three digits followed by `.` or `)` (the first such stop in the text).
pub open spec fn is_list_item_text(s: Seq<char>) -> bool {
    ||| starts_with(s, seq!['-', ' '])
    ||| starts_with(s, seq!['*', ' '])
    ||| starts_with(s, seq!['\u{2022}', ' '])
    ||| starts_with(s, seq!['\u{00B7}', ' '])
    ||| starts_with(s, seq!['\u{25E6}', ' '])
    ||| starts_with(s, seq!['\u{2023}', ' '])
    ||| match first_stop(s, 0) {
        Some(k) => 0 < k <= 3 && all_digits(s.take(k)),
        None => false,
    }
}

/// The prefix every footer that is not a page number starts with, lowercased.
pub open spec fn page_prefix() -> Seq<char> {
    seq!['p', 'a', 'g', 'e', ' ']
}

/// Whether a text reads as a footer: one line that is a page number or, lowercased,
/// starts with `page `.
pub open spec fn is_footer_text(s: Seq<char>) -> bool {
    lines_spec(s).len() == 1 && (parses_u32(s) || starts_with(unicode_lowercase(s), page_prefix()))
}

fn two_chars(a: char, b: char) -> (v: [char; 2])
    ensures
        v@ == seq![a, b],
{
    let v = [a, b];
    assert(v@ =~= seq![a, b]);
    v
}

/// Whether the text is a list item (bulleted or numbered).
pub fn classify_as_list_item(text: &str) -> (b: bool)
    ensures
        b == is_list_item_text(text@),
{
    let s = chars_of(text);
    let cs = s.as_slice();
    if chars_start_with(cs, &two_chars('-', ' ')) || chars_start_with(cs, &two_chars('*', ' '))
        || chars_start_with(cs, &two_chars('\u{2022}', ' ')) || chars_start_with(cs, &two_chars('\u{00B7}', ' '))
        || chars_start_with(cs, &two_chars('\u{25E6}', ' ')) || chars_start_with(cs, &two_chars('\u{2023}', ' ')) {
        return true;
    }
    let mut k: usize = 0;
    while k < s.len() && s[k] != '.' && s[k] != ')'
        invariant
            k <= s@.len(),
            first_stop(s@, 0) == first_stop(s@, k as int),
        decreases s@.len() - k,
    {
        k += 1;
    }
    if k == s.len() {
        return false;
    }
    assert(first_stop(s@, k as int) == Some(k as int));
    if k == 0 || k > 3 {
        return false;
    }
    digits_prefix(&s, k)
}

fn digits_prefix(s: &Vec<char>, k: usize) -> (b: bool)
    requires
        k <= s@.len(),
    ensures
        b == all_digits(s@.take(k as int)),
{
    let mut j: usize = 0;
    while j < k
        invariant
            k <= s@.len(),
            j <= k,
            all_digits(s@.take(j as int)),
        decreases k - j,
    {
        if !is_ascii_digit(s[j]) {
            assert(s@.take(k as int)[j as int] == s@[j as int]);
            return false;
        }
        j += 1;
        assert(s@.take(j as int) =~= s@.take(j - 1).push(s@[j - 1]));
    }
    true
}

/// Whether the text is a page footer (a page number, or `Page ...`).
pub fn classify_as_footer(text: &str) -> (b: bool)
    ensures
        b == is_footer_text(text@),
{
    let s = chars_of(text);
    let lines = split_lines(s.as_slice());
    if lines.len() != 1 {
        return false;
    }
    if is_u32_text(s.as_slice()) {
        return true;
    }
    let lower = to_lowercase(text);
    let l = chars_of(lower.as_str());
    let p: [char; 5] = ['p', 'a', 'g', 'e', ' '];
    assert(p@ =~= page_prefix());
    chars_start_with(l.as_slice(), &p)
}

} // verus!

verus! {

/// Whether `s` ends with a period.
pub open spec fn ends_with_period(s: Seq<char>) -> bool {
    s.len() > 0 && s.last() == '.'
}

/// The element kind the text-only PDF path gives a paragraph, where `bytes` is
/// its UTF-8 length: a footer, a list item, a title (one short line without a
/// final period, with letters mostly uppercase or under 60 bytes), or narrative.
pub open spec fn fallback_kind(s: Seq<char>, bytes: nat) -> ElementType {
    let alpha = alphabetic_count(s);
    let upper = uppercase_count(s);
    if is_footer_text(s) {
        ElementType::Footer
    } else if is_list_item_text(s) {
        ElementType::ListItem
    } else if lines_spec(s).len() == 1 && bytes < 120 && !ends_with_period(s) && alpha > 0 && (10
        * upper > 6 * alpha || bytes < 60) {
        ElementType::Title
    } else {
        ElementType::NarrativeText
    }
}

/// Whether a line reads as a heading, where `bytes` is its UTF-8 length:
/// at most two lines and 200 bytes, and either set in a large font, bold and
/// short without a final period, or one short line mostly in uppercase letters.
pub open spec fn is_heading_text(s: Seq<char>, bytes: nat, large_font: bool, is_bold: bool) -> bool {
    let lc = lines_spec(s).len();
    let alpha = alphabetic_count(s);
    let upper = uppercase_count(s);
    if lc > 2 || bytes > 200 {
        false
    } else if large_font {
        true
    } else if is_bold && bytes < 120 && !ends_with_period(s) {
        true
    } else {
        lc == 1 && bytes < 80 && !ends_with_period(s) && alpha > 0 && 10 * upper > 7 * alpha
    }
}

fn ends_with_dot(s: &Vec<char>) -> (b: bool)
    ensures
        b == ends_with_period(s@),
{
    s.len() > 0 && s[s.len() - 1] == '.'
}

/// Whether a PDF text line is a heading. `large_font` says whether the line's
/// font is at least 1.2 times the body font size; `is_bold` whether most of its
/// characters are bold.
pub fn classify_as_heading(text: &str, large_font: bool, is_bold: bool) -> (b: bool)
    ensures
        b == is_heading_text(text@, text.len() as nat, large_font, is_bold),
{
    let s = chars_of(text);
    let lines = split_lines(s.as_slice());
    let line_count = lines.len();
    let bytes = text.len();
    if line_count > 2 {
        return false;
    }
    if bytes > 200 {
        return false;
    }
    // Significantly larger font = heading
    if large_font {
        return true;
    }
    // Bold + short + no trailing period = heading
    if is_bold && bytes < 120 && !ends_with_dot(&s) {
        return true;
    }
    // ALL CAPS short text
    if line_count == 1 && bytes < 80 && !ends_with_dot(&s) {
        let (alpha, upper) = letter_counts(&s);
        proof {
            lemma_upper_le_alpha(s@);
        }
        if alpha > 0 && upper < 80 && alpha < 80 {
            return 10 * upper > 7 * alpha;
        }
        return alpha > 0 && 10 * (upper as u128) > 7 * (alpha as u128);
    }
    false
}

/// Simple heuristic classification for the text-only PDF path.
pub fn classify_paragraph_fallback(text: &str) -> (k: ElementType)
    ensures
        k == fallback_kind(text@, text.len() as nat),
{
    if classify_as_footer(text) {
        return ElementType::Footer;
    }
    if classify_as_list_item(text) {
        return ElementType::ListItem;
    }
    let s = chars_of(text);
    let lines = split_lines(s.as_slice());
    let char_count = text.len();
    if lines.len() == 1 && char_count < 120 && !ends_with_dot(&s) {
        let (alpha, upper) = letter_counts(&s);
        proof {
            lemma_upper_le_alpha(s@);
        }
        if alpha > 0 {
            if 10 * (upper as u128) > 6 * (alpha as u128) || char_count < 60 {
                return ElementType::Title;
            }
        }
    }
    ElementType::NarrativeText
}

/// Whether a paragraph break (two newlines) starts at `i`.
pub open spec fn break_at(s: Seq<char>, i: int) -> bool {
    0 <= i && i + 1 < s.len() && s[i] == '\n' && s[i + 1] == '\n'
}

/// Where the first paragraph break at or after `i` starts, or -1.
pub open spec fn first_break_from(s: Seq<char>, i: int) -> int
    decreases s.len() - i,
{
    if i < 0 || i + 1 >= s.len() {
        -1
    } else if break_at(s, i) {
        i
    } else {
        first_break_from(s, i + 1)
    }
}

/// A text split at its paragraph breaks from the left, as `str::split("\n\n")`
/// splits it.
pub open spec fn split_breaks(s: Seq<char>) -> Seq<Seq<char>>
    decreases s.len(),
{
    let b = first_break_from(s, 0);
    if b < 0 {
        seq![s]
    } else {
        proof {
            lemma_first_break_bounds(s, 0);
        }
        seq![s.take(b)] + split_breaks(s.skip(b + 2))
    }
}

/// The first paragraph break found from `i`, when there is one, is at or after `i`.
pub proof fn lemma_first_break_bounds(s: Seq<char>, i: int)
    requires
        0 <= i,
    ensures
        first_break_from(s, i) == -1 || (i <= first_break_from(s, i) && break_at(s, first_break_from(s, i))),
    decreases s.len() - i,
{
    if i + 1 < s.len() && !break_at(s, i) {
        lemma_first_break_bounds(s, i + 1);
    }
}

proof fn lemma_first_break_is(s: Seq<char>, i: int, k: int)
    requires
        0 <= i <= k,
        forall|j: int| i <= j < k ==> !break_at(s, j),
        break_at(s, k) || k + 1 >= s.len(),
    ensures
        first_break_from(s, i) == if break_at(s, k) { k } else { -1 },
    decreases k - i,
{
    if i < k {
        lemma_first_break_is(s, i + 1, k);
    }
}

/// The blocks of one page's paragraphs, each trimmed and classified; empty
/// ones are left out.
pub open spec fn paragraph_blocks(paras: Seq<Seq<char>>, page: u32) -> Seq<BlockView>
    decreases paras.len(),
{
    if paras.len() == 0 {
        seq![]
    } else {
        let before = paragraph_blocks(paras.drop_last(), page);
        let p = trim_spec(paras.last());
        if p.len() == 0 {
            before
        } else {
            before.push(plain_block(fallback_kind(p, byte_len(p)), p, page))
        }
    }
}

/// The blocks of the text of the first `k` pages, as the text-only reader
/// gives them: each page's trimmed text split at its paragraph breaks.
pub open spec fn fallback_blocks(pages: Seq<Seq<char>>, k: int) -> Seq<BlockView>
    decreases k,
{
    if k <= 0 {
        seq![]
    } else {
        let t = trim_spec(pages[k - 1]);
        fallback_blocks(pages, k - 1) + if t.len() == 0 {
            seq![]
        } else {
            paragraph_blocks(split_breaks(t), k as u32)
        }
    }
}

/// The parts of `s` between its paragraph breaks.
fn split_at_breaks(s: &Vec<char>) -> (parts: Vec<Vec<char>>)
    ensures
        views_of(parts@) == split_breaks(s@),
{
    let mut parts: Vec<Vec<char>> = Vec::new();
    let mut cur: Vec<char> = Vec::new();
    let mut start: usize = 0;
    let mut i: usize = 0;
    let n = s.len();
    assert(views_of(parts@) =~= seq![]);
    assert(s@.skip(0) =~= s@);
    assert(cur@ =~= s@.subrange(0, 0));
    while i < n
        invariant
            n == s@.len(),
            start <= i <= n,
            cur@ == s@.subrange(start as int, i as int),
            forall|j: int| start <= j < i ==> !break_at(s@, j),
            views_of(parts@) + split_breaks(s@.skip(start as int)) == split_breaks(s@),
        decreases n - i,
    {
        if i + 1 < n && s[i] == '\n' && s[i + 1] == '\n' {
            let ghost t = s@.skip(start as int);
            proof {
                assert forall|j: int| 0 <= j < i - start implies !break_at(t, j) by {
                    assert(!break_at(s@, start + j));
                }
                assert(break_at(t, i - start));
                lemma_first_break_is(t, 0, i - start);
                assert(t.take(i - start) =~= cur@);
                assert(t.skip(i - start + 2) =~= s@.skip(i + 2));
            }
            let ghost before = views_of(parts@);
            parts.push(cur);
            assert(views_of(parts@) =~= before.push(s@.subrange(start as int, i as int)));
            cur = Vec::new();
            start = i + 2;
            i = i + 2;
            assert(cur@ =~= s@.subrange(start as int, i as int));
        } else {
            cur.push(s[i]);
            i += 1;
            assert(cur@ =~= s@.subrange(start as int, i as int));
        }
    }
    let ghost t = s@.skip(start as int);
    proof {
        assert forall|j: int| 0 <= j < n - start implies !break_at(t, j) by {
            assert(!break_at(s@, start + j));
        }
        lemma_first_break_is(t, 0, n - start);
        assert(t =~= cur@);
    }
    let ghost before = views_of(parts@);
    parts.push(cur);
    assert(views_of(parts@) =~= before.push(s@.subrange(start as int, n as int)));
    parts
}

/// The blocks of PDF pages whose text a text-only reader extracted, on pages
/// numbered from one.
pub fn blocks_of_page_texts(pages: &Vec<String>) -> (blocks: Vec<Block>)
    requires
        pages@.len() <= u32::MAX,
    ensures
        block_views(blocks@) == fallback_blocks(pages.deep_view(), pages@.len() as int),
{
    let ghost pv = pages.deep_view();
    let mut blocks: Vec<Block> = Vec::new();
    let mut k: usize = 0;
    assert(block_views(blocks@) =~= seq![]);
    while k < pages.len()
        invariant
            k <= pages@.len() <= u32::MAX,
            pv == pages.deep_view(),
            block_views(blocks@) == fallback_blocks(pv, k as int),
        decreases pages@.len() - k,
    {
        let page: u32 = (k + 1) as u32;
        let t = trim_chars(chars_of(pages[k].as_str()).as_slice());
        assert(pv[k as int] == pages@[k as int]@);
        if t.len() > 0 {
            let paras = split_at_breaks(&t);
            let ghost ps = views_of(paras@);
            let ghost base = block_views(blocks@);
            let mut j: usize = 0;
            assert(ps.take(0) =~= seq![]);
            assert(base + paragraph_blocks(ps.take(0), page) =~= base);
            while j < paras.len()
                invariant
                    j <= paras@.len(),
                    ps == views_of(paras@),
                    block_views(blocks@) == base + paragraph_blocks(ps.take(j as int), page),
                decreases paras@.len() - j,
            {
                assert(ps.take(j + 1).drop_last() =~= ps.take(j as int));
                assert(ps[j as int] == paras@[j as int]@);
                let p = trim_chars(paras[j].as_slice());
                if p.len() > 0 {
                    let text = string_of(p.as_slice());
                    let kind = classify_paragraph_fallback(text.as_str());
                    let ghost before = block_views(blocks@);
                    blocks.push(Block::on_page(kind, text, page));
                    assert(block_views(blocks@) =~= before.push(plain_block(kind, p@, page)));
                }
                j += 1;
            }
            assert(ps.take(paras@.len() as int) =~= ps);
        }
        k += 1;
    }
    blocks
}

/// The error of a failed text extraction: one that speaks of decryption,
/// encryption or a password means an encrypted document.
pub open spec fn extraction_message(msg: Seq<char>) -> Seq<char> {
    if occurs_in(msg, "decrypt"@) || occurs_in(msg, "encrypt"@) || occurs_in(msg, "password"@) {
        "PDF is encrypted or password-protected: "@ + msg
    } else {
        "PDF extraction failed: "@ + msg
    }
}

/// The parse error for a failed text extraction with the given message.
pub fn extraction_error(msg: &str) -> (e: Error)
    ensures
        e matches Error::Parse(m) && m@ == extraction_message(msg@),
{
    let m = chars_of(msg);
    let encrypted = contains_chars(&m, &chars_of("decrypt")) || contains_chars(&m, &chars_of("encrypt"))
        || contains_chars(&m, &chars_of("password"));
    if encrypted {
        Error::Parse(String::from_str("PDF is encrypted or password-protected: ").concat(msg))
    } else {
        Error::Parse(String::from_str("PDF extraction failed: ").concat(msg))
    }
}

} // verus!
