//! RTF text extraction.
use vstd::prelude::*;

use crate::format::csv_tsv::{lossy_utf8, utf8_lossy};
use crate::format::text::{paragraphs, split_paragraphs};
use crate::model::{Block, BlockView, ElementType, block_views, plain_block};
use crate::strings::{views_of, chars_start_with, is_alpha_spec, is_ascii_alphabetic, is_ascii_digit, is_digit_spec, starts_with, trim_spec, trim_start_spec, lemma_trim_shape, is_white_space, chars_of, string_of, trim_chars, lines_spec, split_lines, push_char};
use crate::Error;

verus! {

/// Characters that `u8::from_str_radix(_, 16)` reads as a digit.
pub open spec fn hex_value(c: char) -> Option<nat> {
    if '0' <= c && c <= '9' {
        Some((c as u32 - '0' as u32) as nat)
    } else if 'a' <= c && c <= 'f' {
        Some((c as u32 - 'a' as u32 + 10) as nat)
    } else if 'A' <= c && c <= 'F' {
        Some((c as u32 - 'A' as u32 + 10) as nat)
    } else {
        None
    }
}

/// What `u8::from_str_radix` gives for the two characters `a b` in base 16:
/// two hex digits, or a `+` sign and one hex digit.
pub open spec fn hex_byte(a: char, b: char) -> Option<u8> {
    if a == '+' {
        match hex_value(b) {
            Some(v) => Some(v as u8),
            None => None,
        }
    } else {
        match (hex_value(a), hex_value(b)) {
            (Some(x), Some(y)) => Some((16 * x + y) as u8),
            _ => None,
        }
    }
}

/// The length of the run of ASCII letters of `cs` from `i`.
pub open spec fn alpha_run(cs: Seq<char>, i: int) -> nat
    decreases cs.len() - i,
{
    if 0 <= i < cs.len() && is_alpha_spec(cs[i]) {
        1 + alpha_run(cs, i + 1)
    } else {
        0
    }
}

/// A run of letters from `i` ends within the text.
pub proof fn lemma_alpha_run_bound(cs: Seq<char>, i: int)
    requires
        0 <= i <= cs.len(),
    ensures
        alpha_run(cs, i) <= cs.len() - i,
    decreases cs.len() - i,
{
    if i < cs.len() && is_alpha_spec(cs[i]) {
        lemma_alpha_run_bound(cs, i + 1);
    }
}

/// A run of digits from `i` ends within the text.
pub proof fn lemma_digit_run_bound(cs: Seq<char>, i: int)
    ensures
        0 <= i <= cs.len() ==> digit_run(cs, i) <= cs.len() - i,
    decreases cs.len() - i,
{
    if 0 <= i < cs.len() && is_digit_spec(cs[i]) {
        lemma_digit_run_bound(cs, i + 1);
    }
}

/// The length of the run of ASCII digits of `cs` from `i`.
pub open spec fn digit_run(cs: Seq<char>, i: int) -> nat
    decreases cs.len() - i,
{
    if 0 <= i < cs.len() && is_digit_spec(cs[i]) {
        1 + digit_run(cs, i + 1)
    } else {
        0
    }
}

/// The length of the control word of `cs` at `i`: a backslash, its letters, and an
/// optional numeric parameter (a `-` or a digit, then digits).
pub open spec fn control_word_len(cs: Seq<char>, i: int) -> nat {
    if i < 0 || i >= cs.len() || cs[i] != '\\' {
        0
    } else {
        let j = i + 1 + alpha_run(cs, i + 1);
        if j < cs.len() && (cs[j] == '-' || is_digit_spec(cs[j])) {
            (j + 1 + digit_run(cs, j + 1) - i) as nat
        } else {
            (j - i) as nat
        }
    }
}

/// The control word of `cs` at `i`.
pub open spec fn control_word(cs: Seq<char>, i: int) -> Seq<char> {
    cs.subrange(i, i + control_word_len(cs, i))
}

/// A group destination word whose whole content is skipped.
pub open spec fn skipped_destination(w: Seq<char>) -> bool {
    ||| starts_with(w, seq!['\\', 'f', 'o', 'n', 't', 't', 'b', 'l'])
    ||| starts_with(w, seq!['\\', 'c', 'o', 'l', 'o', 'r', 't', 'b', 'l'])
    ||| starts_with(w, seq!['\\', 's', 't', 'y', 'l', 'e', 's', 'h', 'e', 'e', 't'])
    ||| starts_with(w, seq!['\\', 'i', 'n', 'f', 'o'])
    ||| starts_with(w, seq!['\\', 'h', 'e', 'a', 'd', 'e', 'r'])
    ||| starts_with(w, seq!['\\', 'f', 'o', 'o', 't', 'e', 'r'])
    ||| starts_with(w, seq!['\\', 'p', 'i', 'c', 't'])
    ||| starts_with(w, seq!['\\', 'o', 'b', 'j', 'e', 'c', 't'])
}

/// `w` without its trailing digits and `-` signs.
pub open spec fn strip_parameter(w: Seq<char>) -> Seq<char>
    decreases w.len(),
{
    if w.len() > 0 && (is_digit_spec(w.last()) || w.last() == '-' || w.last() == ' ') {
        strip_parameter(w.drop_last())
    } else {
        w
    }
}

/// The text a control word stands for: a newline for `\par`, `\pard` and `\line`,
/// a tab for `\tab`, nothing for the others.
pub open spec fn control_word_text(w: Seq<char>) -> Seq<char> {
    let base = strip_parameter(w);
    if base == seq!['\\', 'p', 'a', 'r'] || base == seq!['\\', 'p', 'a', 'r', 'd'] || base == seq![
        '\\',
        'l',
        'i',
        'n',
        'e',
    ] {
        seq!['\n']
    } else if base == seq!['\\', 't', 'a', 'b'] {
        seq!['\t']
    } else {
        seq![]
    }
}

/// Whether a group opened just before position `j` is a destination to skip:
/// one of the listed destination words, or an ignorable destination `\*`.
pub open spec fn opens_skipped_group(cs: Seq<char>, j: int) -> bool {
    &&& j < cs.len()
    &&& cs[j] == '\\'
    &&& (skipped_destination(control_word(cs, j)) || (j + 1 < cs.len() && cs[j + 1] == '*'))
}

/// The text that the RTF scanner gives from position `i` on, at brace depth
/// `depth`, when it skips until the depth drops below `skip` (if any), having
/// produced `out` so far.
pub open spec fn rtf_scan(cs: Seq<char>, i: int, depth: int, skip: Option<int>, out: Seq<char>) -> Seq<char>
    decreases cs.len() - i,
{
    if i < 0 || i >= cs.len() {
        out
    } else {
        let ch = cs[i];
        match skip {
            Some(sd) => {
                if ch == '{' {
                    rtf_scan(cs, i + 1, depth + 1, skip, out)
                } else if ch == '}' {
                    rtf_scan(cs, i + 1, depth - 1, if depth - 1 < sd { None } else { skip }, out)
                } else {
                    rtf_scan(cs, i + 1, depth, skip, out)
                }
            },
            None => {
                if ch == '{' {
                    rtf_scan(
                        cs,
                        i + 1,
                        depth + 1,
                        if opens_skipped_group(cs, i + 1) { Some(depth + 1) } else { None },
                        out,
                    )
                } else if ch == '}' {
                    rtf_scan(cs, i + 1, depth - 1, None, out)
                } else if ch == '\\' {
                    if i + 1 < cs.len() {
                        let next = cs[i + 1];
                        if next == '\\' || next == '{' || next == '}' {
                            rtf_scan(cs, i + 2, depth, None, out.push(next))
                        } else if next == '~' {
                            rtf_scan(cs, i + 2, depth, None, out.push('\u{00A0}'))
                        } else if next == '-' {
                            rtf_scan(cs, i + 2, depth, None, out)
                        } else if next == '\'' {
                            if i + 3 < cs.len() {
                                rtf_scan(
                                    cs,
                                    i + 4,
                                    depth,
                                    None,
                                    match hex_byte(cs[i + 2], cs[i + 3]) {
                                        Some(b) => out.push(b as char),
                                        None => out,
                                    },
                                )
                            } else {
                                rtf_scan(cs, i + 2, depth, None, out)
                            }
                        } else if next == '\n' || next == '\r' {
                            rtf_scan(cs, i + 2, depth, None, out)
                        } else if is_alpha_spec(next) {
                            let j = i + control_word_len(cs, i);
                            proof {
                                lemma_alpha_run_bound(cs, i + 1);
                                lemma_digit_run_bound(cs, i + 2 + alpha_run(cs, i + 1));
                                assert(control_word_len(cs, i) >= 1);
                                assert(i + control_word_len(cs, i) <= cs.len());
                            }
                            rtf_scan(
                                cs,
                                if j < cs.len() && cs[j] == ' ' { j + 1 } else { j },
                                depth,
                                None,
                                out + control_word_text(control_word(cs, i)),
                            )
                        } else {
                            rtf_scan(cs, i + 1, depth, None, out)
                        }
                    } else {
                        rtf_scan(cs, i + 1, depth, None, out)
                    }
                } else if ch == '\n' || ch == '\r' {
                    rtf_scan(cs, i + 1, depth, None, out)
                } else {
                    rtf_scan(cs, i + 1, depth, None, out.push(ch))
                }
            },
        }
    }
}

/// Drops every newline that follows two newlines in a row; `run` counts the
/// newlines just before `s` (any count from two on is the same).
pub open spec fn collapse_newlines(s: Seq<char>, run: nat) -> Seq<char>
    decreases s.len(),
{
    if s.len() == 0 {
        seq![]
    } else if s[0] == '\n' {
        if run < 2 {
            seq!['\n'] + collapse_newlines(s.drop_first(), run + 1)
        } else {
            collapse_newlines(s.drop_first(), 2)
        }
    } else {
        seq![s[0]] + collapse_newlines(s.drop_first(), 0)
    }
}

/// The plain text of an RTF document: the scanned text with runs of newlines
/// cut to two, trimmed.
pub open spec fn rtf_text(cs: Seq<char>) -> Seq<char> {
    trim_spec(collapse_newlines(rtf_scan(cs, 0, 0, None, seq![]), 0))
}

/// Whether no three newlines follow one another in `s`.
pub open spec fn no_newline_triple(s: Seq<char>) -> bool {
    forall|i: int| 0 <= i && i + 2 < s.len() ==> !(#[trigger] s[i] == '\n' && s[i + 1] == '\n' && s[i + 2] == '\n')
}

/// Cutting runs of newlines leaves no three in a row, and, after `run` newlines
/// already given, at most `2 - run` more at the start.
proof fn lemma_collapse_no_triple(s: Seq<char>, run: nat)
    requires
        run <= 2,
    ensures
        no_newline_triple(collapse_newlines(s, run)),
        run == 2 ==> collapse_newlines(s, run).len() == 0 || collapse_newlines(s, run)[0] != '\n',
        run == 1 ==> !(collapse_newlines(s, run).len() >= 2 && collapse_newlines(s, run)[0] == '\n'
            && collapse_newlines(s, run)[1] == '\n'),
    decreases s.len(),
{
    let r = collapse_newlines(s, run);
    if s.len() == 0 {
    } else if s[0] == '\n' {
        if run < 2 {
            let rest = collapse_newlines(s.drop_first(), run + 1);
            lemma_collapse_no_triple(s.drop_first(), run + 1);
            assert(r == seq!['\n'] + rest);
            assert forall|i: int| 0 <= i && i + 2 < r.len() implies !(#[trigger] r[i] == '\n' && r[i + 1] == '\n'
                && r[i + 2] == '\n') by {
                if i > 0 {
                    assert(r[i] == rest[i - 1] && r[i + 1] == rest[i] && r[i + 2] == rest[i + 1]);
                } else {
                    assert(r[1] == rest[0] && r[2] == rest[1]);
                }
            }
            if run == 1 && r.len() >= 2 {
                assert(r[1] == rest[0]);
            }
        } else {
            lemma_collapse_no_triple(s.drop_first(), 2);
        }
    } else {
        let rest = collapse_newlines(s.drop_first(), 0);
        lemma_collapse_no_triple(s.drop_first(), 0);
        assert(r == seq![s[0]] + rest);
        assert forall|i: int| 0 <= i && i + 2 < r.len() implies !(#[trigger] r[i] == '\n' && r[i + 1] == '\n'
            && r[i + 2] == '\n') by {
            if i > 0 {
                assert(r[i] == rest[i - 1] && r[i + 1] == rest[i] && r[i + 2] == rest[i + 1]);
            }
        }
    }
}

/// The plain text of every RTF document is trimmed (it neither starts nor ends
/// with white space) and holds no run of three newlines.
pub proof fn law_rtf_text_shape(cs: Seq<char>)
    ensures
        rtf_text(cs).len() > 0 ==> !is_white_space(rtf_text(cs)[0]) && !is_white_space(rtf_text(cs).last()),
        no_newline_triple(rtf_text(cs)),
{
    let x = collapse_newlines(rtf_scan(cs, 0, 0, None, seq![]), 0);
    lemma_collapse_no_triple(rtf_scan(cs, 0, 0, None, seq![]), 0);
    lemma_trim_shape(x);
    let t = rtf_text(cs);
    let a = x.len() - trim_start_spec(x).len();
    assert forall|i: int| 0 <= i && i + 2 < t.len() implies !(#[trigger] t[i] == '\n' && t[i + 1] == '\n'
        && t[i + 2] == '\n') by {
        assert(t[i] == x[a + i] && t[i + 1] == x[a + i + 1] && t[i + 2] == x[a + i + 2]);
    }
}

} // verus!

verus! {

fn hex_digit(c: char) -> (v: Option<u8>)
    ensures
        match hex_value(c) {
            Some(x) => v == Some(x as u8),
            None => v is None,
        },
{
    if '0' <= c && c <= '9' {
        Some((c as u32 - '0' as u32) as u8)
    } else if 'a' <= c && c <= 'f' {
        Some((c as u32 - 'a' as u32 + 10) as u8)
    } else if 'A' <= c && c <= 'F' {
        Some((c as u32 - 'A' as u32 + 10) as u8)
    } else {
        None
    }
}

/// Parses two characters as a base-16 byte, as `u8::from_str_radix` does.
fn parse_hex_byte(a: char, b: char) -> (r: Option<u8>)
    ensures
        r == hex_byte(a, b),
{
    if a == '+' {
        hex_digit(b)
    } else {
        match (hex_digit(a), hex_digit(b)) {
            (Some(x), Some(y)) => Some(16 * x + y),
            _ => None,
        }
    }
}

/// The length of the control word of `chars` at `start` (see `control_word_len`).
fn control_word_length(chars: &[char], start: usize) -> (n: usize)
    ensures
        n == control_word_len(chars@, start as int),
        n == 0 || start + n <= chars@.len(),
{
    let len = chars.len();
    if start >= len || chars[start] != '\\' {
        return 0;
    }
    let mut i = start + 1;
    while i < len && is_ascii_alphabetic(chars[i])
        invariant
            len == chars@.len(),
            start < i <= len,
            alpha_run(chars@, start + 1) == (i - start - 1) + alpha_run(chars@, i as int),
        decreases len - i,
    {
        i += 1;
    }
    if i < len && (chars[i] == '-' || is_ascii_digit(chars[i])) {
        let j0 = i;
        i += 1;
        while i < len && is_ascii_digit(chars[i])
            invariant
                len == chars@.len(),
                j0 < i <= len,
                digit_run(chars@, j0 + 1) == (i - j0 - 1) + digit_run(chars@, i as int),
            decreases len - i,
        {
            i += 1;
        }
    }
    i - start
}

/// Read a control word starting at position start (which should point to the backslash).
/// Returns the control word including the backslash, any alphabetic chars, and optional
/// numeric parameter.
fn read_control_word(chars: &[char], start: usize) -> (w: Vec<char>)
    ensures
        w@ == if start < chars@.len() && chars@[start as int] == '\\' {
            control_word(chars@, start as int)
        } else {
            seq![]
        },
{
    let n = control_word_length(chars, start);
    let mut w: Vec<char> = Vec::new();
    if n == 0 {
        return w;
    }
    assert(start < chars@.len() && chars@[start as int] == '\\');
    assert(start + n <= chars@.len());
    let mut k: usize = 0;
    while k < n
        invariant
            start + n <= chars@.len(),
            chars@.len() == chars.len(),
            k <= n,
            w@ == chars@.subrange(start as int, start + k),
        decreases n - k,
    {
        w.push(chars[start + k]);
        k += 1;
    }
    w
}

fn is_skipped_destination(w: &Vec<char>) -> (b: bool)
    ensures
        b == skipped_destination(w@),
{
    let d1: [char; 8] = ['\\', 'f', 'o', 'n', 't', 't', 'b', 'l'];
    let d2: [char; 9] = ['\\', 'c', 'o', 'l', 'o', 'r', 't', 'b', 'l'];
    let d3: [char; 11] = ['\\', 's', 't', 'y', 'l', 'e', 's', 'h', 'e', 'e', 't'];
    let d4: [char; 5] = ['\\', 'i', 'n', 'f', 'o'];
    let d5: [char; 7] = ['\\', 'h', 'e', 'a', 'd', 'e', 'r'];
    let d6: [char; 7] = ['\\', 'f', 'o', 'o', 't', 'e', 'r'];
    let d7: [char; 5] = ['\\', 'p', 'i', 'c', 't'];
    let d8: [char; 7] = ['\\', 'o', 'b', 'j', 'e', 'c', 't'];
    assert(d1@ =~= seq!['\\', 'f', 'o', 'n', 't', 't', 'b', 'l']);
    assert(d2@ =~= seq!['\\', 'c', 'o', 'l', 'o', 'r', 't', 'b', 'l']);
    assert(d3@ =~= seq!['\\', 's', 't', 'y', 'l', 'e', 's', 'h', 'e', 'e', 't']);
    assert(d4@ =~= seq!['\\', 'i', 'n', 'f', 'o']);
    assert(d5@ =~= seq!['\\', 'h', 'e', 'a', 'd', 'e', 'r']);
    assert(d6@ =~= seq!['\\', 'f', 'o', 'o', 't', 'e', 'r']);
    assert(d7@ =~= seq!['\\', 'p', 'i', 'c', 't']);
    assert(d8@ =~= seq!['\\', 'o', 'b', 'j', 'e', 'c', 't']);
    let ws = w.as_slice();
    chars_start_with(ws, &d1) || chars_start_with(ws, &d2) || chars_start_with(ws, &d3)
        || chars_start_with(ws, &d4) || chars_start_with(ws, &d5) || chars_start_with(ws, &d6)
        || chars_start_with(ws, &d7) || chars_start_with(ws, &d8)
}

fn same_chars(v: &Vec<char>, p: &[char]) -> (b: bool)
    ensures
        b == (v@ == p@),
{
    if v.len() != p.len() {
        return false;
    }
    let b = chars_start_with(v.as_slice(), p);
    assert(v@.take(v@.len() as int) =~= v@);
    b
}

/// The text a control word stands for (see `control_word_text`).
fn control_word_output(w: &Vec<char>) -> (out: Vec<char>)
    ensures
        out@ == control_word_text(w@),
{
    let mut base: Vec<char> = w.clone();
    assert(base@ =~= w@);
    while base.len() > 0 && (is_ascii_digit(base[base.len() - 1]) || base[base.len() - 1] == '-'
        || base[base.len() - 1] == ' ')
        invariant
            strip_parameter(w@) == strip_parameter(base@),
        decreases base@.len(),
    {
        base.pop();
    }
    let par: [char; 4] = ['\\', 'p', 'a', 'r'];
    let pard: [char; 5] = ['\\', 'p', 'a', 'r', 'd'];
    let line: [char; 5] = ['\\', 'l', 'i', 'n', 'e'];
    let tab: [char; 4] = ['\\', 't', 'a', 'b'];
    assert(par@ =~= seq!['\\', 'p', 'a', 'r']);
    assert(pard@ =~= seq!['\\', 'p', 'a', 'r', 'd']);
    assert(line@ =~= seq!['\\', 'l', 'i', 'n', 'e']);
    assert(tab@ =~= seq!['\\', 't', 'a', 'b']);
    let mut out: Vec<char> = Vec::new();
    if same_chars(&base, &par) || same_chars(&base, &pard) || same_chars(&base, &line) {
        out.push('\n');
        assert(out@ =~= seq!['\n']);
    } else if same_chars(&base, &tab) {
        out.push('\t');
        assert(out@ =~= seq!['\t']);
    } else {
        assert(out@ =~= seq![]);
    }
    out
}

fn push_all(out: &mut Vec<char>, more: &Vec<char>)
    ensures
        final(out)@ == old(out)@ + more@,
{
    let mut k: usize = 0;
    let ghost start = out@;
    while k < more.len()
        invariant
            k <= more@.len(),
            out@ == start + more@.take(k as int),
        decreases more@.len() - k,
    {
        out.push(more[k]);
        k += 1;
        assert(out@ =~= start + more@.take(k as int));
    }
    assert(more@.take(more@.len() as int) =~= more@);
}

} // verus!

verus! {

spec fn opt_int(o: Option<i128>) -> Option<int> {
    match o {
        Some(x) => Some(x as int),
        None => None,
    }
}

fn collapse_newline_runs(s: &Vec<char>) -> (r: Vec<char>)
    ensures
        r@ == collapse_newlines(s@, 0),
{
    let mut r: Vec<char> = Vec::new();
    let mut run: usize = 0;
    let mut k: usize = 0;
    assert(s@.skip(0) =~= s@);
    assert(r@ + collapse_newlines(s@, 0) =~= collapse_newlines(s@, 0));
    while k < s.len()
        invariant
            k <= s@.len(),
            run <= 2,
            collapse_newlines(s@, 0) == r@ + collapse_newlines(s@.skip(k as int), run as nat),
        decreases s@.len() - k,
    {
        let c = s[k];
        let ghost rest = s@.skip(k as int);
        assert(rest.drop_first() =~= s@.skip(k + 1));
        assert(rest[0] == c);
        let ghost old_r = r@;
        if c == '\n' {
            if run < 2 {
                r.push(c);
                run += 1;
                assert(old_r + collapse_newlines(rest, (run - 1) as nat) =~= r@ + collapse_newlines(s@.skip(k + 1), run as nat));
            } else {
                assert(old_r + collapse_newlines(rest, 2) =~= r@ + collapse_newlines(s@.skip(k + 1), 2));
            }
        } else {
            r.push(c);
            assert(old_r + collapse_newlines(rest, run as nat) =~= r@ + collapse_newlines(s@.skip(k + 1), 0));
            run = 0;
        }
        k += 1;
    }
    assert(s@.skip(k as int) =~= seq![]);
    assert(r@ + Seq::<char>::empty() =~= r@);
    r
}

/// Extract plain text from RTF content using a simple state-machine approach.
///
/// Strategy:
/// - Track brace nesting depth
/// - Skip content inside `{\fonttbl ...}`, `{\colortbl ...}`, `{\stylesheet ...}`,
///   `{\info ...}`, `{\header ...}`, `{\footer ...}`, `{\pict ...}`, `{\object ...}`
///   and `{\*\...}` destination groups
/// - Convert `\par` and `\line` to newlines
/// - Strip all other control words (`\word` optionally followed by a number and space)
/// - Decode common escape sequences: `\\`, `\{`, `\}`, `\tab`, `\~`, `\-`, `\'xx`
pub fn extract_rtf_text(rtf: &str) -> (text: String)
    ensures
        text@ == rtf_text(rtf@),
{
    let chars = chars_of(rtf);
    let ghost cs = rtf@;
    let len = chars.len();
    let mut result: Vec<char> = Vec::new();
    let mut i: usize = 0;
    let mut depth: i128 = 0;
    // When inside a destination group to skip, the depth at which it was entered.
    let mut skip_until_depth: Option<i128> = None;
    while i < len
        invariant
            chars@ == cs,
            len == cs.len(),
            i <= len,
            -(i as int) <= depth <= i,
            skip_until_depth matches Some(sd) ==> -(i as int) <= sd <= i,
            rtf_scan(cs, 0, 0, None, seq![]) == rtf_scan(cs, i as int, depth as int, opt_int(skip_until_depth), result@),
        decreases len - i,
    {
        let ch = chars[i];
        // Check if we are currently skipping a destination group
        if let Some(skip_depth) = skip_until_depth {
            if ch == '{' {
                depth += 1;
                i += 1;
                continue;
            }
            if ch == '}' {
                depth -= 1;
                if depth < skip_depth {
                    skip_until_depth = None;
                }
                i += 1;
                continue;
            }
            i += 1;
            continue;
        }
        if ch == '{' {
            depth += 1;
            i += 1;
            // Check if this is a destination group to skip
            if i < len && chars[i] == '\\' {
                let word = read_control_word(chars.as_slice(), i);
                if is_skipped_destination(&word) || (i + 1 < len && chars[i + 1] == '*') {
                    skip_until_depth = Some(depth);
                }
            }
            continue;
        }
        if ch == '}' {
            depth -= 1;
            i += 1;
            continue;
        }
        if ch == '\\' {
            if i + 1 < len {
                let next = chars[i + 1];
                if next == '\\' || next == '{' || next == '}' {
                    result.push(next);
                    i += 2;
                    continue;
                }
                if next == '~' {
                    // non-breaking space
                    result.push('\u{00A0}');
                    i += 2;
                    continue;
                }
                if next == '-' {
                    // optional hyphen, skip
                    i += 2;
                    continue;
                }
                if next == '\'' {
                    // Hex-encoded character: \'xx
                    if len - i > 3 {
                        if let Some(byte) = parse_hex_byte(chars[i + 2], chars[i + 3]) {
                            result.push(byte as char);
                        }
                        i += 4;
                    } else {
                        i += 2;
                    }
                    continue;
                }
                if next == '\n' || next == '\r' {
                    // Line break in RTF source after backslash = paragraph continuation
                    i += 2;
                    continue;
                }
                if is_ascii_alphabetic(next) {
                    let word_len = control_word_length(chars.as_slice(), i);
                    let word = read_control_word(chars.as_slice(), i);
                    proof {
                        lemma_alpha_run_bound(cs, i + 1);
                        lemma_digit_run_bound(cs, i + 2 + alpha_run(cs, i + 1));
                    }
                    let out = control_word_output(&word);
                    push_all(&mut result, &out);
                    i += word_len;
                    // Skip optional space delimiter after control word
                    if i < len && chars[i] == ' ' {
                        i += 1;
                    }
                    continue;
                }
            }
            i += 1;
            continue;
        }
        // RTF source line breaks are not meaningful
        if ch == '\n' || ch == '\r' {
            i += 1;
            continue;
        }
        result.push(ch);
        i += 1;
    }
    // Clean up: collapse multiple newlines into max 2
    let cleaned = collapse_newline_runs(&result);
    let trimmed = trim_chars(cleaned.as_slice());
    string_of(trimmed.as_slice())
}

} // verus!

verus! {

/// RTF documents.
pub struct RtfParser;

/// The header every RTF document starts with.
pub open spec fn rtf_header() -> Seq<char> {
    seq!['{', '\\', 'r', 't', 'f']
}

/// The texts of the blocks of an RTF document: its paragraphs, or one empty
/// text when it has none.
pub open spec fn rtf_block_texts(s: Seq<char>) -> Seq<Seq<char>> {
    let e = rtf_text(s);
    if trim_spec(e).len() == 0 || paragraphs(e).len() == 0 {
        seq![seq![]]
    } else {
        paragraphs(e)
    }
}

/// Narrative blocks on page 1 with the given texts.
pub open spec fn narrative_blocks(texts: Seq<Seq<char>>) -> Seq<BlockView> {
    texts.map_values(|t: Seq<char>| plain_block(ElementType::NarrativeText, t, 1))
}

/// The message of the error for a document without the RTF header.
pub open spec fn not_rtf_message(name: Seq<char>) -> Seq<char> {
    "Not a valid RTF file (missing {\\rtf header): "@ + name
}

/// Narrative blocks on page 1, one per text.
pub fn narrative_blocks_of(texts: &Vec<Vec<char>>) -> (blocks: Vec<Block>)
    ensures
        block_views(blocks@) == narrative_blocks(views_of(texts@)),
{
    let mut blocks: Vec<Block> = Vec::new();
    let mut k: usize = 0;
    while k < texts.len()
        invariant
            k <= texts@.len(),
            block_views(blocks@) == narrative_blocks(views_of(texts@).take(k as int)),
        decreases texts@.len() - k,
    {
        let ghost prev = block_views(blocks@);
        let b = Block::on_page(ElementType::NarrativeText, string_of(texts[k].as_slice()), 1);
        let ghost bv = b@;
        blocks.push(b);
        assert(block_views(blocks@) =~= prev.push(bv));
        assert(views_of(texts@).take(k + 1) =~= views_of(texts@).take(k as int).push(texts@[k as int]@));
        assert(narrative_blocks(views_of(texts@).take(k as int).push(texts@[k as int]@)) =~= narrative_blocks(views_of(texts@).take(k as int)).push(bv));
        k += 1;
    }
    assert(views_of(texts@).take(texts@.len() as int) =~= views_of(texts@));
    blocks
}

impl RtfParser {
    /// Blocks of an RTF document whose bytes decode to `text`; `name` names the
    /// document in the error for text that lacks the RTF header.
    pub fn parse_text(&self, text: &str, name: &str) -> (res: Result<Vec<Block>, Error>)
        ensures
            starts_with(text@, rtf_header()) ==> (res matches Ok(blocks) && block_views(blocks@)
                == narrative_blocks(rtf_block_texts(text@))),
            !starts_with(text@, rtf_header()) ==> (res matches Err(Error::Parse(m)) && m@
                == not_rtf_message(name@)),
    {
        let chars = chars_of(text);
        let header: [char; 5] = ['{', '\\', 'r', 't', 'f'];
        assert(header@ =~= rtf_header());
        if !chars_start_with(chars.as_slice(), &header) {
            let mut m = String::from_str("Not a valid RTF file (missing {\\rtf header): ");
            m.append(name);
            return Err(Error::Parse(m));
        }
        let extracted = extract_rtf_text(text);
        let ex = chars_of(extracted.as_str());
        let trimmed = trim_chars(ex.as_slice());
        let mut texts: Vec<Vec<char>> = Vec::new();
        if trimmed.len() == 0 {
            texts.push(Vec::new());
        } else {
            texts = split_paragraphs(ex.as_slice());
            if texts.len() == 0 {
                texts.push(Vec::new());
            }
        }
        assert(views_of(texts@) =~= rtf_block_texts(text@));
        Ok(narrative_blocks_of(&texts))
    }

    /// Blocks of an RTF file given its bytes, read as UTF-8 with invalid
    /// sequences replaced; `name` names the file in the error for text that
    /// lacks the RTF header.
    pub fn parse_bytes(&self, bytes: &[u8], name: &str) -> (res: Result<Vec<Block>, Error>)
        ensures
            starts_with(lossy_utf8(bytes@), rtf_header()) ==> (res matches Ok(blocks) && block_views(blocks@)
                == narrative_blocks(rtf_block_texts(lossy_utf8(bytes@)))),
            !starts_with(lossy_utf8(bytes@), rtf_header()) ==> (res matches Err(Error::Parse(m)) && m@
                == not_rtf_message(name@)),
    {
        let text = utf8_lossy(bytes);
        self.parse_text(text.as_str(), name)
    }
}

} // verus!
