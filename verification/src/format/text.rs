//! Plain text and Markdown.
use vstd::prelude::*;

use crate::format::csv_tsv::{lossy_utf8, utf8_lossy};
use crate::format::rtf::{narrative_blocks, narrative_blocks_of};
use crate::format::{ascii_lowercase, ascii_lowercase_chars, extension_of, path_extension};
use crate::Error;
use quick_xml::events::Event::{CData, Empty, End, Eof, Start, Text};
use quick_xml::Reader;
use crate::format::text::XmlEvent::{CData as Raw, End as Close, Open, Text as Chars};
use crate::model::{Block, ElementType, plain_block, BlockView, block_views};
use crate::strings::{
    chars_of, chars_start_with, decimal, is_ascii_digit, is_digit_spec, starts_with, string_of,
    usize_to_decimal, views_of, lines_spec, split_lines, trim_chars, trim_spec,
};

verus! {

/// Joins the trimmed non-blank lines into paragraphs separated by blank lines.
/// `done` holds the finished paragraphs and `cur` the one being read.
pub open spec fn paragraphs_from(lines: Seq<Seq<char>>, done: Seq<Seq<char>>, cur: Seq<char>) -> Seq<Seq<char>>
    decreases lines.len(),
{
    if lines.len() == 0 {
        if cur.len() > 0 { done.push(cur) } else { done }
    } else {
        let t = trim_spec(lines[0]);
        if t.len() == 0 {
            paragraphs_from(lines.drop_first(), if cur.len() > 0 { done.push(cur) } else { done }, seq![])
        } else {
            paragraphs_from(lines.drop_first(), done, if cur.len() > 0 { cur.push(' ') + t } else { t })
        }
    }
}

/// The paragraphs of `s`: its trimmed non-blank lines, joined by one space,
/// split at blank lines.
pub open spec fn paragraphs(s: Seq<char>) -> Seq<Seq<char>> {
    paragraphs_from(lines_spec(s), seq![], seq![])
}

/// The paragraphs of `text`, in order.
pub fn split_paragraphs(text: &[char]) -> (ps: Vec<Vec<char>>)
    ensures
        views_of(ps@) == paragraphs(text@),
{
    let lines = split_lines(text);
    let ghost ls = views_of(lines@);
    let mut ps: Vec<Vec<char>> = Vec::new();
    let mut cur: Vec<char> = Vec::new();
    let mut i: usize = 0;
    assert(ls.skip(0) =~= ls);
    assert(views_of(ps@) =~= seq![]);
    assert(cur@ =~= seq![]);
    while i < lines.len()
        invariant
            ls == views_of(lines@),
            i <= ls.len(),
            paragraphs(text@) == paragraphs_from(ls.skip(i as int), views_of(ps@), cur@),
        decreases ls.len() - i,
    {
        let t = trim_chars(lines[i].as_slice());
        let ghost old_ps = views_of(ps@);
        let ghost old_cur = cur@;
        assert(ls.skip(i as int).drop_first() =~= ls.skip(i + 1));
        assert(ls.skip(i as int)[0] == lines@[i as int]@);
        if t.len() == 0 {
            if cur.len() > 0 {
                ps.push(cur);
                assert(views_of(ps@) =~= old_ps.push(old_cur));
                cur = Vec::new();
            } else {
                assert(old_cur =~= seq![]);
            }
            assert(cur@ =~= seq![]);
        } else {
            if cur.len() > 0 {
                cur.push(' ');
            }
            let mut k: usize = 0;
            let ghost base = cur@;
            while k < t.len()
                invariant
                    k <= t@.len(),
                    cur@ == base + t@.take(k as int),
                decreases t@.len() - k,
            {
                cur.push(t[k]);
                k += 1;
                assert(cur@ =~= base + t@.take(k as int));
            }
            assert(t@.take(t@.len() as int) =~= t@);
            proof {
                if old_cur.len() == 0 {
                    assert(cur@ =~= t@);
                }
            }
        }
        i += 1;
    }
    assert(ls.skip(i as int) =~= seq![]);
    if cur.len() > 0 {
        let ghost old_ps = views_of(ps@);
        let ghost old_cur = cur@;
        ps.push(cur);
        assert(views_of(ps@) =~= old_ps.push(old_cur));
    }
    ps
}


/// Plain text, Markdown and XML files.
pub struct TextParser;

/// The blocks of plain text: one narrative block per paragraph on page 1, or
/// one empty block when there is no paragraph.
pub open spec fn plain_text_blocks(s: Seq<char>) -> Seq<BlockView> {
    let ps = paragraphs(s);
    if ps.len() == 0 { narrative_blocks(seq![seq![]]) } else { narrative_blocks(ps) }
}

/// The blocks of plain text: its paragraphs, blank lines separating them.
pub fn parse_plain_text(text: &str) -> (blocks: Vec<Block>)
    ensures
        block_views(blocks@) == plain_text_blocks(text@),
{
    let chars = chars_of(text);
    let mut ps = split_paragraphs(chars.as_slice());
    if ps.len() == 0 {
        ps.push(Vec::new());
        assert(views_of(ps@) =~= seq![seq![]]);
    }
    narrative_blocks_of(&ps)
}

/// The state of the Markdown reader: the blocks so far, the paragraph being
/// read, whether a fenced code block is open, and its text so far.
#[verifier::ext_equal]
pub struct MdStateView {
    pub blocks: Seq<BlockView>,
    pub cur: Seq<char>,
    pub in_code: bool,
    pub code: Seq<char>,
}

/// The state after the paragraph being read, if any, is closed.
pub open spec fn md_flush(st: MdStateView) -> MdStateView {
    if st.cur.len() > 0 {
        MdStateView { blocks: st.blocks.push(plain_block(ElementType::NarrativeText, st.cur, 1)), cur: seq![], ..st }
    } else {
        st
    }
}

/// How many characters `c` open `s`.
pub open spec fn leading_run(s: Seq<char>, c: char) -> nat
    decreases s.len(),
{
    if s.len() > 0 && s[0] == c { 1 + leading_run(s.drop_first(), c) } else { 0 }
}

/// How many ASCII digits open `s`.
pub open spec fn leading_digits(s: Seq<char>) -> nat
    decreases s.len(),
{
    if s.len() > 0 && is_digit_spec(s[0]) { 1 + leading_digits(s.drop_first()) } else { 0 }
}

/// The item text of a numbered list line (`1. item`, `10) item`), if it is one.
pub open spec fn numbered_item(line: Seq<char>) -> Option<Seq<char>> {
    let n = leading_digits(line) as int;
    if n > 0 && n < line.len() && (starts_with(line.skip(n), ". "@) || starts_with(line.skip(n), ") "@)) {
        Some(trim_spec(line.skip(n + 2)))
    } else {
        None
    }
}

/// A heading block of the given level.
pub open spec fn heading_block(text: Seq<char>, level: nat) -> BlockView {
    BlockView { hierarchy: seq!["h"@ + decimal(level)], ..plain_block(ElementType::Title, text, 1) }
}

/// The state after one Markdown line: a code fence opens or closes a code block;
/// inside one, lines are kept; `#` lines are headings, `- `, `* `, `+ ` and
/// numbered lines list items, blank lines end paragraphs, and other lines are
/// trimmed and joined into the paragraph with spaces.
pub open spec fn md_line(st: MdStateView, line: Seq<char>) -> MdStateView {
    if starts_with(line, "```"@) {
        if st.in_code {
            MdStateView {
                blocks: st.blocks.push(plain_block(ElementType::CodeBlock, st.code, 1)),
                in_code: false,
                code: seq![],
                ..st
            }
        } else {
            MdStateView { in_code: true, ..md_flush(st) }
        }
    } else if st.in_code {
        MdStateView { code: if st.code.len() > 0 { st.code.push('\n') + line } else { line }, ..st }
    } else if starts_with(line, "#"@) {
        let f = md_flush(st);
        let level = leading_run(line, '#');
        MdStateView { blocks: f.blocks.push(heading_block(trim_spec(line.skip(level as int)), level)), ..f }
    } else if starts_with(line, "- "@) || starts_with(line, "* "@) || starts_with(line, "+ "@) {
        let f = md_flush(st);
        MdStateView { blocks: f.blocks.push(plain_block(ElementType::ListItem, trim_spec(line.skip(2)), 1)), ..f }
    } else if numbered_item(line) is Some {
        let f = md_flush(st);
        MdStateView { blocks: f.blocks.push(plain_block(ElementType::ListItem, numbered_item(line)->0, 1)), ..f }
    } else if trim_spec(line).len() == 0 {
        md_flush(st)
    } else {
        MdStateView {
            cur: if st.cur.len() > 0 { st.cur.push(' ') + trim_spec(line) } else { trim_spec(line) },
            ..st
        }
    }
}

/// The state after the first `k` lines.
pub open spec fn md_lines(lines: Seq<Seq<char>>, k: int) -> MdStateView
    decreases k,
{
    if k <= 0 {
        MdStateView { blocks: seq![], cur: seq![], in_code: false, code: seq![] }
    } else {
        md_line(md_lines(lines, k - 1), lines[k - 1])
    }
}

/// The blocks of a Markdown text; an unclosed code block that holds text and a
/// last paragraph are kept.
pub open spec fn markdown_blocks(s: Seq<char>) -> Seq<BlockView> {
    let ls = lines_spec(s);
    let st = md_lines(ls, ls.len() as int);
    let b = if st.in_code && st.code.len() > 0 {
        st.blocks.push(plain_block(ElementType::CodeBlock, st.code, 1))
    } else {
        st.blocks
    };
    if st.cur.len() > 0 { b.push(plain_block(ElementType::NarrativeText, st.cur, 1)) } else { b }
}


/// Texts joined with one space between each two.
pub open spec fn space_join(ts: Seq<Seq<char>>) -> Seq<char>
    decreases ts.len(),
{
    if ts.len() == 0 {
        seq![]
    } else if ts.len() == 1 {
        ts[0]
    } else {
        space_join(ts.drop_last()) + seq![' '] + ts.last()
    }
}

/// A Markdown line of running text: not blank, and not a code fence, a heading,
/// a bulleted item or a line that starts with a digit.
pub open spec fn plain_md_line(l: Seq<char>) -> bool {
    &&& trim_spec(l).len() > 0
    &&& !starts_with(l, "```"@)
    &&& !starts_with(l, "#"@)
    &&& !starts_with(l, "- "@)
    &&& !starts_with(l, "* "@)
    &&& !starts_with(l, "+ "@)
    &&& !is_digit_spec(l[0])
}

proof fn lemma_md_plain_lines(ls: Seq<Seq<char>>, k: int)
    requires
        0 <= k <= ls.len(),
        forall|j: int| 0 <= j < ls.len() ==> plain_md_line(#[trigger] ls[j]),
    ensures
        md_lines(ls, k).blocks.len() == 0,
        !md_lines(ls, k).in_code,
        md_lines(ls, k).cur == space_join(ls.take(k).map_values(|l: Seq<char>| trim_spec(l))),
        k > 0 ==> md_lines(ls, k).cur.len() > 0,
    decreases k,
{
    let ts = ls.take(k).map_values(|l: Seq<char>| trim_spec(l));
    if k > 0 {
        lemma_md_plain_lines(ls, k - 1);
        let line = ls[k - 1];
        assert(plain_md_line(line));
        assert(line.len() > 0);
        assert(leading_digits(line) == 0);
        assert(numbered_item(line) is None);
        let prev = ls.take(k - 1).map_values(|l: Seq<char>| trim_spec(l));
        assert(ts.drop_last() =~= prev);
        assert(ts.last() == trim_spec(line));
        if k == 1 {
            assert(ts.len() == 1);
        } else {
            assert(md_lines(ls, k - 1).cur.len() > 0);
            assert(md_lines(ls, k - 1).cur.push(' ') + trim_spec(line) =~= space_join(prev) + seq![' '] + trim_spec(line));
        }
    }
}

/// A Markdown paragraph of running-text lines becomes one narrative block whose
/// text is the lines, each trimmed, joined by exactly one space: words from two
/// lines never run together.
pub proof fn law_md_paragraph_lines_join_with_spaces(s: Seq<char>)
    requires
        lines_spec(s).len() > 0,
        forall|j: int| 0 <= j < lines_spec(s).len() ==> plain_md_line(#[trigger] lines_spec(s)[j]),
    ensures
        markdown_blocks(s) == seq![plain_block(
            ElementType::NarrativeText,
            space_join(lines_spec(s).map_values(|l: Seq<char>| trim_spec(l))),
            1,
        )],
{
    let ls = lines_spec(s);
    lemma_md_plain_lines(ls, ls.len() as int);
    assert(ls.take(ls.len() as int) =~= ls);
}

/// The Markdown reader's state.
struct MdState {
    blocks: Vec<Block>,
    cur: Vec<char>,
    in_code: bool,
    code: Vec<char>,
}

impl View for MdState {
    type V = MdStateView;

    closed spec fn view(&self) -> MdStateView {
        MdStateView { blocks: block_views(self.blocks@), cur: self.cur@, in_code: self.in_code, code: self.code@ }
    }
}

/// Closes the paragraph being read, if any.
fn md_flush_exec(st: &mut MdState)
    ensures
        final(st)@ == md_flush(old(st)@),
{
    if st.cur.len() > 0 {
        let ghost before = block_views(st.blocks@);
        let text = string_of(st.cur.as_slice());
        let b = Block::on_page(ElementType::NarrativeText, text, 1);
        st.blocks.push(b);
        assert(block_views(st.blocks@) =~= before.push(plain_block(ElementType::NarrativeText, old(st).cur@, 1)));
        st.cur = Vec::new();
        assert(st.cur@ =~= seq![]);
    }
}

/// Appends a block.
fn md_push(st: &mut MdState, b: Block)
    ensures
        final(st)@ == (MdStateView { blocks: old(st)@.blocks.push(b@), ..old(st)@ }),
{
    let ghost before = block_views(st.blocks@);
    st.blocks.push(b);
    assert(block_views(st.blocks@) =~= before.push(b@));
}

/// How many characters `c` open `line`.
fn leading_run_len(line: &Vec<char>, c: char) -> (n: usize)
    ensures
        n == leading_run(line@, c),
        n <= line@.len(),
{
    let mut k: usize = 0;
    assert(line@.skip(0) =~= line@);
    while k < line.len() && line[k] == c
        invariant
            k <= line@.len(),
            leading_run(line@, c) == k + leading_run(line@.skip(k as int), c),
        decreases line@.len() - k,
    {
        assert(line@.skip(k as int).drop_first() =~= line@.skip(k + 1));
        k += 1;
    }
    k
}

/// How many ASCII digits open `line`.
fn leading_digit_len(line: &Vec<char>) -> (n: usize)
    ensures
        n == leading_digits(line@),
        n <= line@.len(),
{
    let mut k: usize = 0;
    assert(line@.skip(0) =~= line@);
    while k < line.len() && is_ascii_digit(line[k])
        invariant
            k <= line@.len(),
            leading_digits(line@) == k + leading_digits(line@.skip(k as int)),
        decreases line@.len() - k,
    {
        assert(line@.skip(k as int).drop_first() =~= line@.skip(k + 1));
        k += 1;
    }
    k
}

/// The characters of `line` from position `n`.
fn skip_chars(line: &Vec<char>, n: usize) -> (r: Vec<char>)
    requires
        n <= line@.len(),
    ensures
        r@ == line@.skip(n as int),
{
    let mut r: Vec<char> = Vec::new();
    let mut i: usize = n;
    while i < line.len()
        invariant
            n <= i <= line@.len(),
            r@ == line@.subrange(n as int, i as int),
        decreases line@.len() - i,
    {
        r.push(line[i]);
        i += 1;
        assert(r@ =~= line@.subrange(n as int, i as int));
    }
    assert(line@.subrange(n as int, line@.len() as int) =~= line@.skip(n as int));
    r
}

/// Whether `line` starts with the characters of `p`.
fn line_starts(line: &Vec<char>, p: &str) -> (b: bool)
    ensures
        b == starts_with(line@, p@),
{
    let pc = chars_of(p);
    chars_start_with(line.as_slice(), pc.as_slice())
}

/// The item text of a numbered list line, if it is one.
fn numbered_item_exec(line: &Vec<char>) -> (r: Option<Vec<char>>)
    ensures
        match r {
            Some(t) => numbered_item(line@) == Some(t@),
            None => numbered_item(line@) is None,
        },
{
    let n = leading_digit_len(line);
    if n > 0 && n < line.len() {
        let rest = skip_chars(line, n);
        if line_starts(&rest, ". ") || line_starts(&rest, ") ") {
            proof {
                reveal_strlit(". ");
                reveal_strlit(") ");
            }
            let tail = skip_chars(&rest, 2);
            assert(tail@ =~= line@.skip(n + 2));
            return Some(trim_chars(tail.as_slice()));
        }
    }
    None
}

/// Reads one Markdown line.
fn md_step(st: &mut MdState, line: &Vec<char>)
    ensures
        final(st)@ == md_line(old(st)@, line@),
{
    if line_starts(line, "```") {
        if st.in_code {
            let text = string_of(st.code.as_slice());
            md_push(st, Block::on_page(ElementType::CodeBlock, text, 1));
            st.in_code = false;
            st.code = Vec::new();
            assert(st@ =~= md_line(old(st)@, line@));
        } else {
            md_flush_exec(st);
            st.in_code = true;
        }
        return;
    }
    if st.in_code {
        if st.code.len() > 0 {
            st.code.push('\n');
        }
        let mut k: usize = 0;
        let ghost base = st.code@;
        while k < line.len()
            invariant
                k <= line@.len(),
                st.code@ == base + line@.take(k as int),
                st.blocks@ == old(st).blocks@,
                st.cur@ == old(st).cur@,
                st.in_code == old(st).in_code,
            decreases line@.len() - k,
        {
            st.code.push(line[k]);
            k += 1;
            assert(st.code@ =~= base + line@.take(k as int));
        }
        assert(line@.take(line@.len() as int) =~= line@);
        assert(st.code@ =~= (if old(st).code@.len() > 0 { old(st).code@.push('\n') + line@ } else { line@ }));
        assert(st@ =~= md_line(old(st)@, line@));
        return;
    }
    if line_starts(line, "#") {
        md_flush_exec(st);
        let level = leading_run_len(line, '#');
        let rest = skip_chars(line, level);
        let text = string_of(trim_chars(rest.as_slice()).as_slice());
        let mut b = Block::on_page(ElementType::Title, text, 1);
        let mut h: Vec<String> = Vec::new();
        h.push(String::from_str("h").concat(usize_to_decimal(level).as_str()));
        b.hierarchy = h;
        assert(b.hierarchy.deep_view() =~= seq!["h"@ + decimal(level as nat)]);
        md_push(st, b);
        return;
    }
    if line_starts(line, "- ") || line_starts(line, "* ") || line_starts(line, "+ ") {
        md_flush_exec(st);
        proof {
            reveal_strlit("- ");
            reveal_strlit("* ");
            reveal_strlit("+ ");
        }
        let rest = skip_chars(line, 2);
        let text = string_of(trim_chars(rest.as_slice()).as_slice());
        md_push(st, Block::on_page(ElementType::ListItem, text, 1));
        return;
    }
    match numbered_item_exec(line) {
        Some(item) => {
            md_flush_exec(st);
            md_push(st, Block::on_page(ElementType::ListItem, string_of(item.as_slice()), 1));
            return;
        },
        None => {},
    }
    let t = trim_chars(line.as_slice());
    if t.len() == 0 {
        md_flush_exec(st);
        return;
    }
    if st.cur.len() > 0 {
        st.cur.push(' ');
    }
    let mut k: usize = 0;
    let ghost base = st.cur@;
    while k < t.len()
        invariant
            k <= t@.len(),
            st.cur@ == base + t@.take(k as int),
            st.blocks@ == old(st).blocks@,
            st.code@ == old(st).code@,
            st.in_code == old(st).in_code,
        decreases t@.len() - k,
    {
        st.cur.push(t[k]);
        k += 1;
        assert(st.cur@ =~= base + t@.take(k as int));
    }
    assert(t@.take(t@.len() as int) =~= t@);
    assert(st.cur@ =~= (if old(st).cur@.len() > 0 { old(st).cur@.push(' ') + t@ } else { t@ }));
    assert(st@ =~= md_line(old(st)@, line@));
}

/// The blocks of a Markdown text: headings, list items, fenced code blocks and paragraphs.
pub fn parse_markdown(text: &str) -> (blocks: Vec<Block>)
    ensures
        block_views(blocks@) == markdown_blocks(text@),
{
    let chars = chars_of(text);
    let lines = split_lines(chars.as_slice());
    let ghost ls = lines_spec(text@);
    let mut st = MdState { blocks: Vec::new(), cur: Vec::new(), in_code: false, code: Vec::new() };
    assert(st@ =~= md_lines(ls, 0));
    let mut k: usize = 0;
    while k < lines.len()
        invariant
            k <= lines@.len(),
            views_of(lines@) == ls,
            st@ == md_lines(ls, k as int),
        decreases lines@.len() - k,
    {
        assert(ls[k as int] == lines@[k as int]@);
        md_step(&mut st, &lines[k]);
        k += 1;
    }
    let ghost fin = st@;
    let mut blocks = st.blocks;
    if st.in_code && st.code.len() > 0 {
        let ghost before = block_views(blocks@);
        blocks.push(Block::on_page(ElementType::CodeBlock, string_of(st.code.as_slice()), 1));
        assert(block_views(blocks@) =~= before.push(plain_block(ElementType::CodeBlock, fin.code, 1)));
    }
    if st.cur.len() > 0 {
        let ghost before = block_views(blocks@);
        blocks.push(Block::on_page(ElementType::NarrativeText, string_of(st.cur.as_slice()), 1));
        assert(block_views(blocks@) =~= before.push(plain_block(ElementType::NarrativeText, fin.cur, 1)));
    }
    blocks
}


/// An XML reader event: an element opens (with its qualified name, its
/// attributes as raw key and value bytes, and whether the tag is empty, as in
/// `<br/>`) or closes (with its qualified name), character data, CDATA bytes.
pub enum XmlEvent {
    Open(Vec<u8>, Vec<(Vec<u8>, Vec<u8>)>, bool),
    End(Vec<u8>),
    Text(String),
    CData(Vec<u8>),
}

/// An XML reader event as plain values.
pub enum XmlEventView {
    Open(Seq<u8>, Seq<(Seq<u8>, Seq<u8>)>, bool),
    End(Seq<u8>),
    Text(Seq<char>),
    CData(Seq<u8>),
}

/// The views of attributes.
pub open spec fn attr_views(a: Seq<(Vec<u8>, Vec<u8>)>) -> Seq<(Seq<u8>, Seq<u8>)> {
    a.map_values(|kv: (Vec<u8>, Vec<u8>)| (kv.0@, kv.1@))
}

impl View for XmlEvent {
    type V = XmlEventView;

    open spec fn view(&self) -> XmlEventView {
        match self {
            XmlEvent::Open(q, a, e) => XmlEventView::Open(q@, attr_views(a@), *e),
            XmlEvent::End(q) => XmlEventView::End(q@),
            XmlEvent::Text(t) => XmlEventView::Text(t@),
            XmlEvent::CData(b) => XmlEventView::CData(b@),
        }
    }
}

/// The position of the first `:` of a name at or after `i`.
pub open spec fn first_colon(q: Seq<u8>, i: int) -> Option<int>
    decreases q.len() - i,
{
    if i < 0 || i >= q.len() {
        None
    } else if q[i] == 0x3A {
        Some(i)
    } else {
        first_colon(q, i + 1)
    }
}

/// The local part of a qualified XML name: what follows its first `:`, or all of it.
pub open spec fn local_name(q: Seq<u8>) -> Seq<u8> {
    match first_colon(q, 0) {
        Some(i) => q.skip(i + 1),
        None => q,
    }
}

/// The local part of a qualified XML name.
pub fn local_name_of(q: &Vec<u8>) -> (l: Vec<u8>)
    ensures
        l@ == local_name(q@),
{
    let mut i: usize = 0;
    while i < q.len()
        invariant
            i <= q@.len(),
            first_colon(q@, 0) == first_colon(q@, i as int),
        decreases q@.len() - i,
    {
        if q[i] == 0x3A {
            let mut l: Vec<u8> = Vec::new();
            let mut j: usize = i + 1;
            while j < q.len()
                invariant
                    i < j <= q@.len(),
                    l@ == q@.subrange(i + 1, j as int),
                decreases q@.len() - j,
            {
                l.push(q[j]);
                j += 1;
                assert(l@ =~= q@.subrange(i + 1, j as int));
            }
            assert(q@.subrange(i + 1, q@.len() as int) =~= q@.skip(i + 1));
            return l;
        }
        i += 1;
    }
    let mut l: Vec<u8> = Vec::new();
    let mut j: usize = 0;
    while j < q.len()
        invariant
            j <= q@.len(),
            l@ == q@.take(j as int),
        decreases q@.len() - j,
    {
        l.push(q[j]);
        j += 1;
        assert(l@ =~= q@.take(j as int));
    }
    assert(q@.take(q@.len() as int) =~= q@);
    l
}

/// The views of events.
pub open spec fn event_views(evs: Seq<XmlEvent>) -> Seq<XmlEventView> {
    evs.map_values(|e: XmlEvent| e@)
}

/// The events that `quick_xml`'s reader gives for a text up to its end, or the
/// message of its first error.
pub uninterp spec fn xml_reader_events(xml: Seq<char>) -> Result<Seq<XmlEventView>, Seq<char>>;

/// Runs `quick_xml::Reader::from_str(xml)` to its end: each start or empty
/// tag gives its qualified name, its well-formed attributes (raw key, raw value)
/// and whether it is empty; each end tag its qualified name; text its unescaped
/// content (empty when unescaping fails); CDATA its bytes. Comments,
/// declarations and the like give nothing. An error gives its message.
#[verifier::external_body]
pub(crate) fn read_xml_events(xml: &str) -> (r: Result<Vec<XmlEvent>, String>)
    ensures
        match r {
            Ok(evs) => xml_reader_events(xml@) == Ok::<Seq<XmlEventView>, Seq<char>>(event_views(evs@)),
            Err(m) => xml_reader_events(xml@) == Err::<Seq<XmlEventView>, Seq<char>>(m@),
        },
{
    let mut reader = Reader::from_str(xml);
    let mut out = vec![];
    loop {
        let ev = reader.read_event().map_err(|e| e.to_string())?;
        out.push(match &ev {
            Start(e) | Empty(e) => Open(e.name().0.into(), e.attributes().flatten().map(|a| (a.key.0.into(), a.value.into())).collect(), matches!(ev, Empty(_))),
            End(e) => Close(e.name().0.into()),
            Text(e) => Chars(e.unescape().unwrap_or_default().into()),
            CData(e) => Raw(e.to_vec()),
            Eof => return Ok(out),
            _ => continue
        });
    }
}

/// The XML reader's state: the blocks so far, the open elements (their local
/// names read as UTF-8), the text being gathered.
#[verifier::ext_equal]
pub struct XmlStateView {
    pub blocks: Seq<BlockView>,
    pub stack: Seq<Seq<char>>,
    pub cur: Seq<char>,
}

/// The state after the gathered text, if any, becomes a block under the open elements.
pub open spec fn xml_flush(st: XmlStateView) -> XmlStateView {
    if st.cur.len() > 0 {
        XmlStateView {
            blocks: st.blocks.push(BlockView { hierarchy: st.stack, ..plain_block(ElementType::NarrativeText, st.cur, 1) }),
            cur: seq![],
            ..st
        }
    } else {
        st
    }
}

/// The state after character data: when not blank, it is trimmed and joined to
/// the gathered text with a space.
pub open spec fn xml_text(st: XmlStateView, t: Seq<char>) -> XmlStateView {
    let tr = trim_spec(t);
    if tr.len() == 0 {
        st
    } else {
        XmlStateView { cur: if st.cur.len() > 0 { st.cur.push(' ') + tr } else { tr }, ..st }
    }
}

/// The state after one event: opening or closing an element ends the gathered
/// text; non-blank text is trimmed and joined to it with a space.
pub open spec fn xml_event(st: XmlStateView, e: XmlEventView) -> XmlStateView {
    match e {
        XmlEventView::Open(q, _, empty) => {
            if empty {
                st
            } else {
                let f = xml_flush(st);
                XmlStateView { stack: f.stack.push(lossy_utf8(local_name(q))), ..f }
            }
        },
        XmlEventView::Text(t) => xml_text(st, t),
        XmlEventView::CData(b) => xml_text(st, lossy_utf8(b)),
        XmlEventView::End(_) => {
            let f = xml_flush(st);
            XmlStateView { stack: if f.stack.len() > 0 { f.stack.drop_last() } else { f.stack }, ..f }
        },
    }
}

/// The state after the first `k` events.
pub open spec fn xml_events_state(evs: Seq<XmlEventView>, k: int) -> XmlStateView
    decreases k,
{
    if k <= 0 {
        XmlStateView { blocks: seq![], stack: seq![], cur: seq![] }
    } else {
        xml_event(xml_events_state(evs, k - 1), evs[k - 1])
    }
}

/// The blocks of an XML document's events: the text under each element with the
/// path of open elements as hierarchy, or one empty block when there is none.
pub open spec fn xml_blocks(evs: Seq<XmlEventView>) -> Seq<BlockView> {
    let b = xml_flush(xml_events_state(evs, evs.len() as int)).blocks;
    if b.len() == 0 { narrative_blocks(seq![seq![]]) } else { b }
}

/// The result of reading an XML document.
pub open spec fn xml_result(xml: Seq<char>) -> Result<Seq<BlockView>, Seq<char>> {
    match xml_reader_events(xml) {
        Ok(evs) => Ok(xml_blocks(evs)),
        Err(m) => Err("XML parse error: "@ + m),
    }
}

/// The XML reader's state.
struct XmlState {
    blocks: Vec<Block>,
    stack: Vec<String>,
    cur: Vec<char>,
}

impl View for XmlState {
    type V = XmlStateView;

    closed spec fn view(&self) -> XmlStateView {
        XmlStateView { blocks: block_views(self.blocks@), stack: self.stack.deep_view(), cur: self.cur@ }
    }
}

fn xml_flush_exec(st: &mut XmlState)
    ensures
        final(st)@ == xml_flush(old(st)@),
{
    if st.cur.len() > 0 {
        let ghost before = block_views(st.blocks@);
        let mut b = Block::on_page(ElementType::NarrativeText, string_of(st.cur.as_slice()), 1);
        b.hierarchy = crate::model::copy_strings(&st.stack);
        let ghost bv = b@;
        st.blocks.push(b);
        assert(block_views(st.blocks@) =~= before.push(bv));
        st.cur = Vec::new();
        assert(st@ =~= xml_flush(old(st)@));
    }
}

fn xml_text_exec(st: &mut XmlState, t: &String)
    ensures
        final(st)@ == xml_text(old(st)@, t@),
{
    let tr = trim_chars(chars_of(t.as_str()).as_slice());
    if tr.len() > 0 {
        if st.cur.len() > 0 {
            st.cur.push(' ');
        }
        let mut k: usize = 0;
        let ghost base = st.cur@;
        while k < tr.len()
            invariant
                k <= tr@.len(),
                st.cur@ == base + tr@.take(k as int),
                st.blocks@ == old(st).blocks@,
                st.stack@ == old(st).stack@,
            decreases tr@.len() - k,
        {
            st.cur.push(tr[k]);
            k += 1;
            assert(st.cur@ =~= base + tr@.take(k as int));
        }
        assert(tr@.take(tr@.len() as int) =~= tr@);
        assert(st@ =~= xml_text(old(st)@, t@));
    }
}

fn xml_step(st: &mut XmlState, e: &XmlEvent)
    ensures
        final(st)@ == xml_event(old(st)@, e@),
{
    match e {
        XmlEvent::Open(q, _, empty) => {
            if !*empty {
                xml_flush_exec(st);
                let ghost before = st.stack.deep_view();
                let local = local_name_of(q);
                st.stack.push(utf8_lossy(local.as_slice()));
                assert(st.stack.deep_view() =~= before.push(lossy_utf8(local_name(q@))));
            }
            assert(st@ =~= xml_event(old(st)@, e@));
        },
        XmlEvent::Text(t) => xml_text_exec(st, t),
        XmlEvent::CData(b) => {
            let t = utf8_lossy(b.as_slice());
            xml_text_exec(st, &t);
        },
        XmlEvent::End(_) => {
            xml_flush_exec(st);
            let ghost before = st.stack.deep_view();
            if st.stack.len() > 0 {
                st.stack.pop();
                assert(st.stack.deep_view() =~= before.drop_last());
            }
            assert(st@ =~= xml_event(old(st)@, e@));
        },
    }
}

/// The blocks of an XML document, given its reader events.
pub fn xml_event_blocks(evs: &Vec<XmlEvent>) -> (blocks: Vec<Block>)
    ensures
        block_views(blocks@) == xml_blocks(event_views(evs@)),
{
    let ghost ev = event_views(evs@);
    let mut st = XmlState { blocks: Vec::new(), stack: Vec::new(), cur: Vec::new() };
    assert(st@ =~= xml_events_state(ev, 0));
    let mut k: usize = 0;
    while k < evs.len()
        invariant
            k <= evs@.len(),
            ev == event_views(evs@),
            st@ == xml_events_state(ev, k as int),
        decreases evs@.len() - k,
    {
        xml_step(&mut st, &evs[k]);
        k += 1;
    }
    xml_flush_exec(&mut st);
    let ghost fin = st@;
    let blocks = st.blocks;
    assert(block_views(blocks@) == fin.blocks);
    if blocks.len() == 0 {
        let mut ts: Vec<Vec<char>> = Vec::new();
        ts.push(Vec::new());
        assert(views_of(ts@) =~= seq![seq![]]);
        return narrative_blocks_of(&ts);
    }
    blocks
}

/// The blocks of an XML document: its text under each element, with the path of
/// open elements as hierarchy.
pub fn parse_xml(xml: &str) -> (r: Result<Vec<Block>, Error>)
    ensures
        match xml_result(xml@) {
            Ok(bs) => r matches Ok(blocks) && block_views(blocks@) == bs,
            Err(m) => r matches Err(Error::Parse(pm)) && pm@ == m,
        },
{
    match read_xml_events(xml) {
        Ok(evs) => Ok(xml_event_blocks(&evs)),
        Err(m) => Err(Error::Parse(String::from_str("XML parse error: ").concat(m.as_str()))),
    }
}

/// How `encoding_rs::UTF_8` decodes bytes: the text (after byte-order-mark
/// sniffing, malformed sequences replaced) and whether any were malformed.
pub uninterp spec fn utf8_decoding(bytes: Seq<u8>) -> (Seq<char>, bool);

/// `encoding_rs::UTF_8.decode(bytes)`: the text and whether it had errors.
#[verifier::external_body]
fn decode_utf8_text(bytes: &[u8]) -> (r: (String, bool))
    ensures
        (r.0@, r.1) == utf8_decoding(bytes@),
{
    let (text, _, had_errors) = encoding_rs::UTF_8.decode(bytes);
    (text.into_owned(), had_errors)
}

/// How `encoding_rs::WINDOWS_1252` decodes bytes (after byte-order-mark sniffing).
pub uninterp spec fn windows1252_decoding(bytes: Seq<u8>) -> Seq<char>;

/// `encoding_rs::WINDOWS_1252.decode(bytes)`: the text.
#[verifier::external_body]
pub(crate) fn decode_windows1252_text(bytes: &[u8]) -> (r: String)
    ensures
        r@ == windows1252_decoding(bytes@),
{
    let (text, _, _) = encoding_rs::WINDOWS_1252.decode(bytes);
    text.into_owned()
}

/// The blocks of a text file of the given lower-cased extension: bytes that are
/// not UTF-8 are read as Windows-1252 plain text; Markdown and XML files are read
/// as such; others as plain text.
pub open spec fn text_file_result(bytes: Seq<u8>, ext: Seq<char>) -> Result<Seq<BlockView>, Seq<char>> {
    let (t, had_errors) = utf8_decoding(bytes);
    if had_errors {
        Ok(plain_text_blocks(windows1252_decoding(bytes)))
    } else if ext == "md"@ || ext == "markdown"@ {
        Ok(markdown_blocks(t))
    } else if ext == "xml"@ || ext == "xsd"@ || ext == "xsl"@ || ext == "svg"@ || ext == "rss"@ || ext == "atom"@ {
        xml_result(t)
    } else {
        Ok(plain_text_blocks(t))
    }
}

/// Whether the characters of `e` are those of `lit`.
fn chars_are(e: &Vec<char>, lit: &str) -> (r: bool)
    ensures
        r == (e@ == lit@),
{
    let l = chars_of(lit);
    if l.len() != e.len() {
        return false;
    }
    assert(e@.take(e@.len() as int) =~= e@);
    chars_start_with(e.as_slice(), l.as_slice())
}

impl TextParser {
    /// The blocks of a text file given its bytes and path; its extension, ASCII
    /// letters lower-cased, decides how it is read.
    pub fn parse_bytes(&self, bytes: &[u8], path: &str) -> (r: Result<Vec<Block>, Error>)
        ensures
            match text_file_result(
                bytes@,
                ascii_lowercase(match path_extension(path@) {
                    Some(e) => e,
                    None => seq![],
                }),
            ) {
                Ok(bs) => r matches Ok(blocks) && block_views(blocks@) == bs,
                Err(m) => r matches Err(Error::Parse(pm)) && pm@ == m,
            },
    {
        let (text, had_errors) = decode_utf8_text(bytes);
        if had_errors {
            let t2 = decode_windows1252_text(bytes);
            return Ok(parse_plain_text(t2.as_str()));
        }
        let ext = match extension_of(path) {
            Some(e) => ascii_lowercase_chars(e),
            None => Vec::new(),
        };
        assert(ext@ == ascii_lowercase(match path_extension(path@) {
            Some(e) => e,
            None => seq![],
        })) by {
            if path_extension(path@) is None {
                assert(ascii_lowercase(seq![]) =~= seq![]);
            }
        };
        if chars_are(&ext, "md") || chars_are(&ext, "markdown") {
            Ok(parse_markdown(text.as_str()))
        } else if chars_are(&ext, "xml") || chars_are(&ext, "xsd") || chars_are(&ext, "xsl")
            || chars_are(&ext, "svg") || chars_are(&ext, "rss") || chars_are(&ext, "atom") {
            parse_xml(text.as_str())
        } else {
            Ok(parse_plain_text(text.as_str()))
        }
    }
}

} // verus!
