//! How the text lines of a PDF page become blocks. The geometry (font sizes,
//! line gaps, table columns) is measured by the caller; what each line is, and
//! where paragraphs end, is decided here.
use vstd::prelude::*;

use crate::format::pdf::{classify_as_footer, classify_as_list_item, is_footer_text, is_list_item_text};
use crate::strings::{chars_of, push_char, string_of, trim_chars, trim_spec};

verus! {

/// What the caller measured of one text line of a page: its text, whether it
/// reads as a heading (by size and weight), whether a table region covers it,
/// where the table region that starts on it ends, and whether the gap above it
/// is wide enough to end a paragraph.
pub struct LineFacts {
    pub text: String,
    pub heading: bool,
    pub in_table: bool,
    pub table_end: Option<usize>,
    pub wide_gap: bool,
}

/// A line's facts as plain values.
pub struct LineFactsView {
    pub text: Seq<char>,
    pub heading: bool,
    pub in_table: bool,
    pub table_end: Option<usize>,
    pub wide_gap: bool,
}

impl View for LineFacts {
    type V = LineFactsView;

    open spec fn view(&self) -> LineFactsView {
        LineFactsView {
            text: self.text@,
            heading: self.heading,
            in_table: self.in_table,
            table_end: self.table_end,
            wide_gap: self.wide_gap,
        }
    }
}

/// The views of lines.
pub open spec fn line_views(ls: Seq<LineFacts>) -> Seq<LineFactsView> {
    ls.map_values(|l: LineFacts| l@)
}

/// What a run of lines becomes.
#[derive(Debug, Clone, Copy, PartialEq, Eq, Structural)]
pub enum LayoutKind {
    Table,
    Title,
    ListItem,
    Footer,
    Paragraph,
}

/// A block to build from lines `start..end`, with its text (empty for a table,
/// whose cells the caller reads by column).
pub struct LayoutItem {
    pub kind: LayoutKind,
    pub start: usize,
    pub end: usize,
    pub text: String,
}

/// A layout item as plain values.
pub struct LayoutItemView {
    pub kind: LayoutKind,
    pub start: int,
    pub end: int,
    pub text: Seq<char>,
}

impl View for LayoutItem {
    type V = LayoutItemView;

    open spec fn view(&self) -> LayoutItemView {
        LayoutItemView { kind: self.kind, start: self.start as int, end: self.end as int, text: self.text@ }
    }
}

/// The views of layout items.
pub open spec fn item_views(items: Seq<LayoutItem>) -> Seq<LayoutItemView> {
    items.map_values(|it: LayoutItem| it@)
}

/// Whether line `j` ends the paragraph that started on line `start`: it is
/// blank, a heading, a list item, a footer or in a table, or (from the third
/// line of the paragraph on) it sits after a wide gap.
pub open spec fn para_break(ls: Seq<LineFactsView>, start: int, j: int) -> bool {
    let t = trim_spec(ls[j].text);
    ||| t.len() == 0
    ||| ls[j].heading
    ||| is_list_item_text(t)
    ||| is_footer_text(t)
    ||| ls[j].in_table
    ||| (ls[j].wide_gap && j > start + 1)
}

/// The line after the last one of the paragraph that started on `start`,
/// looking from line `j` on.
pub open spec fn para_end(ls: Seq<LineFactsView>, start: int, j: int) -> int
    decreases ls.len() - j,
{
    if j >= ls.len() || para_break(ls, start, j) {
        j
    } else {
        para_end(ls, start, j + 1)
    }
}

/// The text of a paragraph of lines `start..end`: their trimmed texts joined by spaces.
pub open spec fn para_text(ls: Seq<LineFactsView>, start: int, end: int) -> Seq<char>
    decreases end - start,
{
    if end <= start + 1 {
        trim_spec(ls[start].text)
    } else {
        para_text(ls, start, end - 1) + seq![' '] + trim_spec(ls[end - 1].text)
    }
}

/// A layout item of one kind.
pub open spec fn item(kind: LayoutKind, start: int, end: int, text: Seq<char>) -> LayoutItemView {
    LayoutItemView { kind, start, end, text }
}

/// The layout of the lines from `i` on: a table region starting on a line is one
/// table item and is skipped whole; other lines in tables and blank lines give
/// nothing; a heading, a list item and a footer give one item each; any other
/// line opens a paragraph that runs until a line that ends it.
pub open spec fn layout_from(ls: Seq<LineFactsView>, i: int) -> Seq<LayoutItemView>
    decreases ls.len() - i,
{
    if i < 0 || i >= ls.len() {
        seq![]
    } else {
        let t = trim_spec(ls[i].text);
        if ls[i].table_end is Some && ls[i].table_end->0 > i {
            let e = ls[i].table_end->0 as int;
            let next = if e < ls.len() { e } else { ls.len() as int };
            seq![item(LayoutKind::Table, i, e, seq![])] + layout_from(ls, next)
        } else if ls[i].in_table || t.len() == 0 {
            layout_from(ls, i + 1)
        } else if ls[i].heading {
            seq![item(LayoutKind::Title, i, i + 1, t)] + layout_from(ls, i + 1)
        } else if is_list_item_text(t) {
            seq![item(LayoutKind::ListItem, i, i + 1, t)] + layout_from(ls, i + 1)
        } else if is_footer_text(t) {
            seq![item(LayoutKind::Footer, i, i + 1, t)] + layout_from(ls, i + 1)
        } else {
            let e = para_end(ls, i, i + 1);
            proof {
                lemma_para_end_range(ls, i, i + 1);
            }
            seq![item(LayoutKind::Paragraph, i, e, para_text(ls, i, e))] + layout_from(ls, e)
        }
    }
}

/// A paragraph ends at or after the line the search starts from, and within the page.
pub proof fn lemma_para_end_range(ls: Seq<LineFactsView>, start: int, j: int)
    ensures
        j <= para_end(ls, start, j),
        j <= ls.len() ==> para_end(ls, start, j) <= ls.len(),
    decreases ls.len() - j,
{
    if !(j >= ls.len() || para_break(ls, start, j)) {
        lemma_para_end_range(ls, start, j + 1);
    }
}

/// The trimmed text of a line, and the facts the layout reads from it.
fn trimmed_line(l: &LineFacts) -> (r: (String, bool, bool))
    ensures
        r.0@ == trim_spec(l.text@),
        r.1 == is_list_item_text(trim_spec(l.text@)),
        r.2 == is_footer_text(trim_spec(l.text@)),
{
    let t = string_of(trim_chars(chars_of(l.text.as_str()).as_slice()).as_slice());
    let list = classify_as_list_item(t.as_str());
    let footer = classify_as_footer(t.as_str());
    (t, list, footer)
}

/// The lines `start..` of the paragraph that starts on line `start`, up to the line that ends it.
fn paragraph_from(lines: &Vec<LineFacts>, start: usize, first: String) -> (r: (usize, String))
    requires
        start < lines@.len(),
        first@ == trim_spec(lines@[start as int].text@),
    ensures
        r.0 as int == para_end(line_views(lines@), start as int, start + 1),
        r.1@ == para_text(line_views(lines@), start as int, r.0 as int),
{
    let ghost lv = line_views(lines@);
    let n = lines.len();
    let mut text = first;
    let mut j: usize = start + 1;
    while j < n
        invariant
            n == lines@.len(),
            lv == line_views(lines@),
            start < j <= n,
            para_end(lv, start as int, start + 1) == para_end(lv, start as int, j as int),
            text@ == para_text(lv, start as int, j as int),
        ensures
            para_end(lv, start as int, start + 1) == j as int,
            text@ == para_text(lv, start as int, j as int),
        decreases n - j,
    {
        let (t, list, footer) = trimmed_line(&lines[j]);
        let l = &lines[j];
        assert(lv[j as int] == l@);
        if t.as_str().is_empty() || l.heading || list || footer || l.in_table || (l.wide_gap && j > start + 1) {
            assert(t@.len() == 0 ==> trim_spec(lv[j as int].text).len() == 0);
            assert(para_break(lv, start as int, j as int));
            break;
        }
        assert(!para_break(lv, start as int, j as int));
        let ghost before = text@;
        push_char(&mut text, ' ');
        text = text.concat(t.as_str());
        assert(text@ =~= before + seq![' '] + trim_spec(lv[j as int].text));
        j += 1;
    }
    (j, text)
}

/// The layout of a page's lines (see `layout_from`).
pub fn layout_lines(lines: &Vec<LineFacts>) -> (items: Vec<LayoutItem>)
    requires
        forall|i: int| 0 <= i < lines@.len() ==> ((#[trigger] lines@[i]).table_end is Some ==> lines@[i].table_end->0 > i),
    ensures
        item_views(items@) == layout_from(line_views(lines@), 0),
{
    let ghost lv = line_views(lines@);
    let n = lines.len();
    let mut items: Vec<LayoutItem> = Vec::new();
    let mut i: usize = 0;
    while i < n
        invariant
            n == lines@.len(),
            lv == line_views(lines@),
            forall|k: int| 0 <= k < lines@.len() ==> ((#[trigger] lines@[k]).table_end is Some ==> lines@[k].table_end->0 > k),
            item_views(items@) + layout_from(lv, i as int) == layout_from(lv, 0),
        decreases n - i,
    {
        let l = &lines[i];
        assert(lv[i as int] == l@);
        let ghost before = item_views(items@);
        let (t, list, footer) = trimmed_line(l);
        if let Some(e) = l.table_end {
            items.push(LayoutItem { kind: LayoutKind::Table, start: i, end: e, text: String::new() });
            assert(item_views(items@) =~= before + seq![item(LayoutKind::Table, i as int, e as int, seq![])]);
            i = if e < n { e } else { n };
            continue;
        }
        if l.in_table || t.as_str().is_empty() {
            i += 1;
            continue;
        }
        if l.heading {
            let ghost tv = t@;
            items.push(LayoutItem { kind: LayoutKind::Title, start: i, end: i + 1, text: t });
            assert(item_views(items@) =~= before + seq![item(LayoutKind::Title, i as int, i + 1, tv)]);
            i += 1;
        } else if list {
            let ghost tv = t@;
            items.push(LayoutItem { kind: LayoutKind::ListItem, start: i, end: i + 1, text: t });
            assert(item_views(items@) =~= before + seq![item(LayoutKind::ListItem, i as int, i + 1, tv)]);
            i += 1;
        } else if footer {
            let ghost tv = t@;
            items.push(LayoutItem { kind: LayoutKind::Footer, start: i, end: i + 1, text: t });
            assert(item_views(items@) =~= before + seq![item(LayoutKind::Footer, i as int, i + 1, tv)]);
            i += 1;
        } else {
            let (e, text) = paragraph_from(lines, i, t);
            proof {
                lemma_para_end_range(lv, i as int, i + 1);
            }
            let ghost pv = text@;
            items.push(LayoutItem { kind: LayoutKind::Paragraph, start: i, end: e, text });
            assert(item_views(items@) =~= before + seq![item(LayoutKind::Paragraph, i as int, e as int, pv)]);
            i = e;
        }
    }
    assert(layout_from(lv, i as int) =~= Seq::<LayoutItemView>::empty());
    assert(item_views(items@) + Seq::<LayoutItemView>::empty() =~= item_views(items@));
    items
}

} // verus!
