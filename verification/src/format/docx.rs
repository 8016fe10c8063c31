//! Word documents: paragraphs, headings, list items and tables of `word/document.xml`.
use vstd::prelude::*;
use crate::format::archive::{read_zip_entry, zip_entry_names, zip_entry_text, zip_names, EntryText, EntryTextView};
use crate::format::csv_tsv::{lossy_utf8, utf8_lossy};
use crate::format::text::{
    attr_views, event_views, local_name, local_name_of, read_xml_events, xml_reader_events, XmlEvent,
    XmlEventView,
};
use crate::format::{contains_chars, occurs_in};
use crate::model::{block_views, copy_strings, plain_block, Block, BlockView, ElementType, TableData, TableDataView};
use crate::orchestrator::{confidence_pct, ParserKind};
use crate::strings::{lemma_trim_shape, is_white_space, chars_of, decimal, is_ascii_digit, is_digit_spec, string_of, trim_chars, trim_spec, usize_to_decimal, views_of};
use crate::{Error, ErrorView};

verus! {

/// Word documents.
pub struct DocxParser;

/// The reader's state: blocks so far, the paragraph text, whether a text element
/// and a table cell are open, the paragraph's style, the rows of the open table,
/// the open row and the open cell's text.
#[verifier::ext_equal]
pub struct DocxStateView {
    pub blocks: Seq<BlockView>,
    pub cur: Seq<char>,
    pub in_text: bool,
    pub in_cell: bool,
    pub style: Option<Seq<char>>,
    pub rows: Seq<Seq<Seq<char>>>,
    pub row: Seq<Seq<char>>,
    pub cell: Seq<char>,
}

/// The bytes of an ASCII name.
pub open spec fn ascii_bytes(s: Seq<char>) -> Seq<u8> {
    s.map_values(|c: char| c as u8)
}

/// The style a `pStyle` element's attributes give: the last `val` attribute's value,
/// else the style before.
pub open spec fn style_of_attrs(attrs: Seq<(Seq<u8>, Seq<u8>)>, style: Option<Seq<char>>) -> Option<Seq<char>>
    decreases attrs.len(),
{
    if attrs.len() == 0 {
        style
    } else {
        let before = style_of_attrs(attrs.drop_last(), style);
        if local_name(attrs.last().0) == ascii_bytes("val"@) { Some(lossy_utf8(attrs.last().1)) } else { before }
    }
}

/// Whether a style names a heading.
pub open spec fn is_heading_style(s: Seq<char>) -> bool {
    occurs_in(s, "Heading"@) || occurs_in(s, "heading"@)
}

/// The kind of a paragraph of the given style.
pub open spec fn paragraph_kind(style: Option<Seq<char>>) -> ElementType {
    match style {
        Some(s) => if is_heading_style(s) || occurs_in(s, "Title"@) {
            ElementType::Title
        } else if occurs_in(s, "ListParagraph"@) || occurs_in(s, "List"@) {
            ElementType::ListItem
        } else {
            ElementType::NarrativeText
        },
        None => ElementType::NarrativeText,
    }
}

/// The ASCII digits of a text, in order.
pub open spec fn digits_of(s: Seq<char>) -> Seq<char>
    decreases s.len(),
{
    if s.len() == 0 {
        seq![]
    } else {
        let before = digits_of(s.drop_last());
        if is_digit_spec(s.last()) { before.push(s.last()) } else { before }
    }
}

/// The hierarchy of a paragraph: `h` and the digits of a heading style, when it has some.
pub open spec fn paragraph_hierarchy(style: Option<Seq<char>>) -> Seq<Seq<char>> {
    match style {
        Some(s) => if is_heading_style(s) && digits_of(s).len() > 0 { seq!["h"@ + digits_of(s)] } else { seq![] },
        None => seq![],
    }
}

/// The state after an element opens.
pub open spec fn docx_open(st: DocxStateView, name: Seq<u8>, attrs: Seq<(Seq<u8>, Seq<u8>)>) -> DocxStateView {
    if name == ascii_bytes("p"@) {
        DocxStateView { cur: seq![], style: None, ..st }
    } else if name == ascii_bytes("t"@) {
        DocxStateView { in_text: true, ..st }
    } else if name == ascii_bytes("pStyle"@) {
        DocxStateView { style: style_of_attrs(attrs, st.style), ..st }
    } else if name == ascii_bytes("tbl"@) {
        DocxStateView { rows: seq![], ..st }
    } else if name == ascii_bytes("tr"@) {
        DocxStateView { row: seq![], ..st }
    } else if name == ascii_bytes("tc"@) {
        DocxStateView { in_cell: true, cell: seq![], ..st }
    } else {
        st
    }
}

/// The table block of rows: the first row is the header.
pub open spec fn table_block(rows: Seq<Seq<Seq<char>>>) -> BlockView {
    let headers = rows[0];
    let body = rows.drop_first();
    BlockView {
        table_data: Some(TableDataView { rows: body, headers: Some(headers) }),
        ..plain_block(
            ElementType::Table,
            "Table: "@ + decimal(headers.len()) + " columns, "@ + decimal(body.len()) + " rows"@,
            1,
        )
    }
}

/// The state after an element closes: a paragraph outside table cells becomes a
/// block of its style's kind; a cell joins its row, a non-empty row its table, and
/// a table with rows becomes a table block.
pub open spec fn docx_close(st: DocxStateView, name: Seq<u8>) -> DocxStateView {
    if name == ascii_bytes("t"@) {
        DocxStateView { in_text: false, ..st }
    } else if name == ascii_bytes("p"@) {
        let text = trim_spec(st.cur);
        let blocks = if text.len() > 0 && !st.in_cell {
            st.blocks.push(BlockView {
                hierarchy: paragraph_hierarchy(st.style),
                ..plain_block(paragraph_kind(st.style), text, 1)
            })
        } else {
            st.blocks
        };
        DocxStateView { blocks, cell: if st.in_cell { st.cell + text } else { st.cell }, cur: seq![], ..st }
    } else if name == ascii_bytes("tc"@) {
        DocxStateView { in_cell: false, row: st.row.push(trim_spec(st.cell)), ..st }
    } else if name == ascii_bytes("tr"@) {
        DocxStateView { rows: if st.row.len() > 0 { st.rows.push(st.row) } else { st.rows }, row: seq![], ..st }
    } else if name == ascii_bytes("tbl"@) {
        if st.rows.len() > 0 { DocxStateView { blocks: st.blocks.push(table_block(st.rows)), rows: seq![], ..st } } else { st }
    } else {
        st
    }
}

/// The state after one event.
pub open spec fn docx_event(st: DocxStateView, e: XmlEventView) -> DocxStateView {
    match e {
        XmlEventView::Open(q, attrs, _) => docx_open(st, local_name(q), attrs),
        XmlEventView::End(q) => docx_close(st, local_name(q)),
        XmlEventView::Text(t) => if st.in_text {
            if st.in_cell { DocxStateView { cell: st.cell + t, ..st } } else { DocxStateView { cur: st.cur + t, ..st } }
        } else {
            st
        },
        XmlEventView::CData(_) => st,
    }
}

/// The state after the first `k` events.
pub open spec fn docx_events(evs: Seq<XmlEventView>, k: int) -> DocxStateView
    decreases k,
{
    if k <= 0 {
        DocxStateView {
            blocks: seq![],
            cur: seq![],
            in_text: false,
            in_cell: false,
            style: None,
            rows: seq![],
            row: seq![],
            cell: seq![],
        }
    } else {
        docx_event(docx_events(evs, k - 1), evs[k - 1])
    }
}

/// The blocks of a document's XML, or the message of the reader's error.
pub open spec fn docx_xml_result(xml: Seq<char>) -> Result<Seq<BlockView>, Seq<char>> {
    match xml_reader_events(xml) {
        Ok(evs) => Ok(docx_events(evs, evs.len() as int).blocks),
        Err(m) => Err("XML parse error: "@ + m),
    }
}


/// The views of rows of character vectors.
pub open spec fn rows_views(rows: Seq<Vec<Vec<char>>>) -> Seq<Seq<Seq<char>>> {
    rows.map_values(|r: Vec<Vec<char>>| views_of(r@))
}

/// The view of an optional character vector.
pub open spec fn opt_chars(o: Option<Vec<char>>) -> Option<Seq<char>> {
    match o {
        Some(v) => Some(v@),
        None => None,
    }
}

struct DocxState {
    blocks: Vec<Block>,
    cur: Vec<char>,
    in_text: bool,
    in_cell: bool,
    style: Option<Vec<char>>,
    rows: Vec<Vec<Vec<char>>>,
    row: Vec<Vec<char>>,
    cell: Vec<char>,
}

impl View for DocxState {
    type V = DocxStateView;

    closed spec fn view(&self) -> DocxStateView {
        DocxStateView {
            blocks: block_views(self.blocks@),
            cur: self.cur@,
            in_text: self.in_text,
            in_cell: self.in_cell,
            style: opt_chars(self.style),
            rows: rows_views(self.rows@),
            row: views_of(self.row@),
            cell: self.cell@,
        }
    }
}

/// Whether a name's bytes are those of an ASCII text.
fn bytes_are(n: &Vec<u8>, s: &str) -> (r: bool)
    ensures
        r == (n@ == ascii_bytes(s@)),
{
    let cs = chars_of(s);
    if cs.len() != n.len() {
        return false;
    }
    let mut i: usize = 0;
    while i < n.len()
        invariant
            i <= n@.len(),
            cs@.len() == n@.len(),
            cs@ == s@,
            forall|k: int| 0 <= k < i ==> n@[k] == (cs@[k] as u8),
        decreases n@.len() - i,
    {
        if n[i] != (cs[i] as u8) {
            assert(ascii_bytes(s@)[i as int] == (cs@[i as int] as u8));
            return false;
        }
        i += 1;
    }
    assert(n@ =~= ascii_bytes(s@));
    true
}

/// Appends characters.
fn append_chars(v: &mut Vec<char>, t: &Vec<char>)
    ensures
        final(v)@ == old(v)@ + t@,
{
    let mut k: usize = 0;
    let ghost base = v@;
    while k < t.len()
        invariant
            k <= t@.len(),
            v@ == base + t@.take(k as int),
        decreases t@.len() - k,
    {
        v.push(t[k]);
        k += 1;
        assert(v@ =~= base + t@.take(k as int));
    }
    assert(t@.take(t@.len() as int) =~= t@);
}

/// The style after a `pStyle` element's attributes.
fn style_after(attrs: &Vec<(Vec<u8>, Vec<u8>)>, style: Option<Vec<char>>) -> (r: Option<Vec<char>>)
    ensures
        opt_chars(r) == style_of_attrs(attr_views(attrs@), opt_chars(style)),
{
    let ghost av = attr_views(attrs@);
    let mut st = style;
    let ghost init = opt_chars(st);
    let mut i: usize = 0;
    assert(av.take(0) =~= seq![]);
    while i < attrs.len()
        invariant
            i <= attrs@.len(),
            av == attr_views(attrs@),
            opt_chars(st) == style_of_attrs(av.take(i as int), init),
        decreases attrs@.len() - i,
    {
        assert(av.take(i + 1).drop_last() =~= av.take(i as int));
        let key = local_name_of(&attrs[i].0);
        if bytes_are(&key, "val") {
            st = Some(chars_of(utf8_lossy(attrs[i].1.as_slice()).as_str()));
        }
        i += 1;
    }
    assert(av.take(attrs@.len() as int) =~= av);
    st
}

fn docx_open_exec(st: &mut DocxState, name: &Vec<u8>, attrs: &Vec<(Vec<u8>, Vec<u8>)>)
    ensures
        final(st)@ == docx_open(old(st)@, name@, attr_views(attrs@)),
{
    if bytes_are(name, "p") {
        st.cur = Vec::new();
        st.style = None;
    } else if bytes_are(name, "t") {
        st.in_text = true;
    } else if bytes_are(name, "pStyle") {
        let mut old_style: Option<Vec<char>> = None;
        std::mem::swap(&mut old_style, &mut st.style);
        st.style = style_after(attrs, old_style);
    } else if bytes_are(name, "tbl") {
        st.rows = Vec::new();
    } else if bytes_are(name, "tr") {
        st.row = Vec::new();
    } else if bytes_are(name, "tc") {
        st.in_cell = true;
        st.cell = Vec::new();
    }
    assert(st@ =~= docx_open(old(st)@, name@, attr_views(attrs@)));
}

/// Whether a text contains a literal.
fn has_text(s: &Vec<char>, lit: &str) -> (r: bool)
    ensures
        r == occurs_in(s@, lit@),
{
    contains_chars(s, &chars_of(lit))
}

/// The ASCII digits of a text.
fn digits_in(s: &Vec<char>) -> (d: Vec<char>)
    ensures
        d@ == digits_of(s@),
{
    let mut d: Vec<char> = Vec::new();
    let mut i: usize = 0;
    while i < s.len()
        invariant
            i <= s@.len(),
            d@ == digits_of(s@.take(i as int)),
        decreases s@.len() - i,
    {
        assert(s@.take(i + 1).drop_last() =~= s@.take(i as int));
        if is_ascii_digit(s[i]) {
            d.push(s[i]);
        }
        i += 1;
    }
    assert(s@.take(s@.len() as int) =~= s@);
    d
}

/// The block of a paragraph of the given text and style.
fn paragraph_block(text: &Vec<char>, style: &Option<Vec<char>>) -> (b: Block)
    ensures
        b@ == (BlockView { hierarchy: paragraph_hierarchy(opt_chars(*style)), ..plain_block(paragraph_kind(opt_chars(*style)), text@, 1) }),
{
    let mut kind = ElementType::NarrativeText;
    let mut hierarchy: Vec<String> = Vec::new();
    match style {
        Some(s) => {
            let heading = has_text(s, "Heading") || has_text(s, "heading");
            if heading || has_text(s, "Title") {
                kind = ElementType::Title;
            } else if has_text(s, "ListParagraph") || has_text(s, "List") {
                kind = ElementType::ListItem;
            }
            if heading {
                let d = digits_in(s);
                if d.len() > 0 {
                    hierarchy.push(String::from_str("h").concat(string_of(d.as_slice()).as_str()));
                }
            }
        },
        None => {},
    }
    let mut b = Block::on_page(kind, string_of(text.as_slice()), 1);
    b.hierarchy = hierarchy;
    assert(b.hierarchy.deep_view() =~= paragraph_hierarchy(opt_chars(*style)));
    b
}

/// Strings made of character vectors.
fn strings_of(v: &Vec<Vec<char>>) -> (r: Vec<String>)
    ensures
        r.deep_view() == views_of(v@),
{
    let mut r: Vec<String> = Vec::new();
    let mut i: usize = 0;
    while i < v.len()
        invariant
            i <= v@.len(),
            r.deep_view() == views_of(v@).take(i as int),
        decreases v@.len() - i,
    {
        let ghost before = r.deep_view();
        r.push(string_of(v[i].as_slice()));
        assert(r.deep_view() =~= before.push(v@[i as int]@));
        i += 1;
        assert(views_of(v@).take(i as int) =~= views_of(v@).take(i - 1).push(v@[i - 1]@));
    }
    assert(views_of(v@).take(i as int) =~= views_of(v@));
    r
}

/// The table block of rows.
fn table_block_exec(rows: &Vec<Vec<Vec<char>>>) -> (b: Block)
    requires
        rows@.len() > 0,
    ensures
        b@ == table_block(rows_views(rows@)),
{
    let ghost rv = rows_views(rows@);
    let headers = strings_of(&rows[0]);
    let mut body: Vec<Vec<String>> = Vec::new();
    let mut i: usize = 1;
    while i < rows.len()
        invariant
            1 <= i <= rows@.len(),
            rv == rows_views(rows@),
            body.deep_view() == rv.subrange(1, i as int),
        decreases rows@.len() - i,
    {
        let ghost before = body.deep_view();
        body.push(strings_of(&rows[i]));
        assert(body.deep_view() =~= before.push(rv[i as int]));
        i += 1;
        assert(rv.subrange(1, i as int) =~= rv.subrange(1, i - 1).push(rv[i - 1]));
    }
    assert(rv.subrange(1, rows@.len() as int) =~= rv.drop_first());
    let text = String::from_str("Table: ")
        .concat(usize_to_decimal(headers.len()).as_str())
        .concat(" columns, ")
        .concat(usize_to_decimal(body.len()).as_str())
        .concat(" rows");
    let ghost hv = headers.deep_view();
    let ghost bv = body.deep_view();
    let mut b = Block::on_page(ElementType::Table, text, 1);
    b.table_data = Some(TableData { rows: body, headers: Some(headers) });
    assert(b@.table_data == Some(TableDataView { rows: bv, headers: Some(hv) }));
    b
}

fn docx_close_exec(st: &mut DocxState, name: &Vec<u8>)
    ensures
        final(st)@ == docx_close(old(st)@, name@),
{
    if bytes_are(name, "t") {
        st.in_text = false;
        assert(st@ =~= docx_close(old(st)@, name@));
    } else if bytes_are(name, "p") {
        let text = trim_chars(st.cur.as_slice());
        if text.len() > 0 && !st.in_cell {
            let ghost before = block_views(st.blocks@);
            let b = paragraph_block(&text, &st.style);
            let ghost bv = b@;
            st.blocks.push(b);
            assert(block_views(st.blocks@) =~= before.push(bv));
        }
        if st.in_cell {
            append_chars(&mut st.cell, &text);
        }
        st.cur = Vec::new();
        assert(st@ =~= docx_close(old(st)@, name@));
    } else if bytes_are(name, "tc") {
        st.in_cell = false;
        let t = trim_chars(st.cell.as_slice());
        let ghost before = views_of(st.row@);
        st.row.push(t);
        assert(views_of(st.row@) =~= before.push(trim_spec(old(st).cell@)));
        assert(st@ =~= docx_close(old(st)@, name@));
    } else if bytes_are(name, "tr") {
        if st.row.len() > 0 {
            let mut row: Vec<Vec<char>> = Vec::new();
            std::mem::swap(&mut row, &mut st.row);
            let ghost before = rows_views(st.rows@);
            let ghost rv = views_of(row@);
            st.rows.push(row);
            assert(rows_views(st.rows@) =~= before.push(rv));
        } else {
            st.row = Vec::new();
        }
        assert(views_of(st.row@) =~= seq![]);
        assert(st@ =~= docx_close(old(st)@, name@));
    } else if bytes_are(name, "tbl") {
        if st.rows.len() > 0 {
            let ghost before = block_views(st.blocks@);
            let b = table_block_exec(&st.rows);
            let ghost bv = b@;
            st.blocks.push(b);
            assert(block_views(st.blocks@) =~= before.push(bv));
            st.rows = Vec::new();
            assert(rows_views(st.rows@) =~= seq![]);
        }
        assert(st@ =~= docx_close(old(st)@, name@));
    } else {
        assert(st@ =~= docx_close(old(st)@, name@));
    }
}

fn docx_step(st: &mut DocxState, e: &XmlEvent)
    ensures
        final(st)@ == docx_event(old(st)@, e@),
{
    match e {
        XmlEvent::Open(q, attrs, _) => {
            let l = local_name_of(q);
            docx_open_exec(st, &l, attrs);
        },
        XmlEvent::End(q) => {
            let l = local_name_of(q);
            docx_close_exec(st, &l);
        },
        XmlEvent::Text(t) => {
            if st.in_text {
                let tc = chars_of(t.as_str());
                if st.in_cell {
                    append_chars(&mut st.cell, &tc);
                } else {
                    append_chars(&mut st.cur, &tc);
                }
            }
            assert(st@ =~= docx_event(old(st)@, e@));
        },
        XmlEvent::CData(_) => {},
    }
}

/// The blocks of a document's `word/document.xml`.
pub fn parse_docx_xml(xml: &str) -> (r: Result<Vec<Block>, Error>)
    ensures
        match docx_xml_result(xml@) {
            Ok(bs) => r matches Ok(blocks) && block_views(blocks@) == bs,
            Err(m) => r matches Err(Error::Parse(pm)) && pm@ == m,
        },
{
    let evs = match read_xml_events(xml) {
        Ok(evs) => evs,
        Err(m) => return Err(Error::Parse(String::from_str("XML parse error: ").concat(m.as_str()))),
    };
    let ghost ev = event_views(evs@);
    let mut st = DocxState {
        blocks: Vec::new(),
        cur: Vec::new(),
        in_text: false,
        in_cell: false,
        style: None,
        rows: Vec::new(),
        row: Vec::new(),
        cell: Vec::new(),
    };
    assert(st@ =~= docx_events(ev, 0));
    let mut k: usize = 0;
    while k < evs.len()
        invariant
            k <= evs@.len(),
            ev == event_views(evs@),
            st@ == docx_events(ev, k as int),
        decreases evs@.len() - k,
    {
        docx_step(&mut st, &evs[k]);
        k += 1;
    }
    let ghost fin = st@;
    let blocks = st.blocks;
    assert(block_views(blocks@) == fin.blocks);
    Ok(blocks)
}

/// What reading a Word document gives.
pub open spec fn docx_result(bytes: Seq<u8>) -> Result<Seq<BlockView>, ErrorView> {
    match zip_entry_names(bytes) {
        Err(m) => Err(ErrorView::Parse(m)),
        Ok(_) => match zip_entry_text(bytes, "word/document.xml"@) {
            EntryTextView::Missing(m) => Err(ErrorView::Parse("Cannot find word/document.xml: "@ + m)),
            EntryTextView::Unreadable(m) => Err(ErrorView::Io(m)),
            EntryTextView::Text(xml) => match docx_xml_result(xml) {
                Ok(bs) => Ok(bs),
                Err(m) => Err(ErrorView::Parse(m)),
            },
        },
    }
}

impl DocxParser {
    /// The blocks of a Word document given the bytes of its file.
    pub fn parse_bytes(&self, bytes: &[u8]) -> (r: Result<Vec<Block>, Error>)
        ensures
            match docx_result(bytes@) {
                Ok(bs) => r matches Ok(blocks) && block_views(blocks@) == bs,
                Err(e) => r matches Err(err) && err@ == e,
            },
    {
        match zip_names(bytes) {
            Ok(_) => {},
            Err(m) => return Err(Error::Parse(m)),
        }
        match read_zip_entry(bytes, "word/document.xml") {
            EntryText::Text(xml) => parse_docx_xml(xml.as_str()),
            EntryText::Missing(m) => Err(Error::Parse(String::from_str("Cannot find word/document.xml: ").concat(m.as_str()))),
            EntryText::Unreadable(m) => Err(Error::Io(m)),
        }
    }
}


/// A block that a Word document can give: on page 1, and either the table block
/// of one or more rows (the first row its header, the text `Table: N columns, M
/// rows`), or a paragraph of another kind whose text is non-empty and neither
/// starts nor ends with white space.
pub open spec fn docx_block_ok(b: BlockView) -> bool {
    &&& b.page == 1
    &&& {
        ||| exists|rows: Seq<Seq<Seq<char>>>| rows.len() > 0 && b == #[trigger] table_block(rows)
        ||| {
            &&& b.element_type != ElementType::Table
            &&& b.text.len() > 0
            &&& !is_white_space(b.text[0])
            &&& !is_white_space(b.text.last())
        }
    }
}

/// Whether every block so far is one a Word document can give.
pub open spec fn docx_blocks_ok(bs: Seq<BlockView>) -> bool {
    forall|i: int| 0 <= i < bs.len() ==> docx_block_ok(#[trigger] bs[i])
}

proof fn lemma_docx_push_ok(bs: Seq<BlockView>, b: BlockView)
    requires
        docx_blocks_ok(bs),
        docx_block_ok(b),
    ensures
        docx_blocks_ok(bs.push(b)),
{
    assert forall|i: int| 0 <= i < bs.push(b).len() implies docx_block_ok(#[trigger] bs.push(b)[i]) by {
        if i < bs.len() {
            assert(bs.push(b)[i] == bs[i]);
        }
    }
}

proof fn lemma_docx_event_ok(st: DocxStateView, e: XmlEventView)
    requires
        docx_blocks_ok(st.blocks),
    ensures
        docx_blocks_ok(docx_event(st, e).blocks),
{
    match e {
        XmlEventView::End(q) => {
            let name = local_name(q);
            if name == ascii_bytes("p"@) {
                let text = trim_spec(st.cur);
                lemma_trim_shape(st.cur);
                if text.len() > 0 && !st.in_cell {
                    let kind = paragraph_kind(st.style);
                    let b = BlockView { hierarchy: paragraph_hierarchy(st.style), ..plain_block(kind, text, 1) };
                    assert(b.element_type != ElementType::Table);
                    lemma_docx_push_ok(st.blocks, b);
                }
            } else if name == ascii_bytes("tbl"@) && st.rows.len() > 0 {
                let b = table_block(st.rows);
                assert(docx_block_ok(b));
                lemma_docx_push_ok(st.blocks, b);
            }
        },
        _ => {},
    }
}

proof fn lemma_docx_events_ok(evs: Seq<XmlEventView>, k: int)
    requires
        0 <= k <= evs.len(),
    ensures
        docx_blocks_ok(docx_events(evs, k).blocks),
    decreases k,
{
    if k > 0 {
        lemma_docx_events_ok(evs, k - 1);
        lemma_docx_event_ok(docx_events(evs, k - 1), evs[k - 1]);
    }
}

/// Every block of a Word document is on page 1 and is either a table block (made
/// of one or more rows: its first row the header, the rest its rows, its text
/// `Table: N columns, M rows`) or a paragraph block, of another kind, whose
/// text is non-empty and trimmed; each block's confidence is 90 hundredths.
pub proof fn law_docx_blocks(xml: Seq<char>)
    ensures
        docx_xml_result(xml) matches Ok(bs) ==> forall|i: int| 0 <= i < bs.len() ==> {
            &&& docx_block_ok(#[trigger] bs[i])
            &&& confidence_pct(ParserKind::Docx, bs, i) == Some(90u8)
        },
{
    if let Ok(evs) = xml_reader_events(xml) {
        lemma_docx_events_ok(evs, evs.len() as int);
    }
}


/// A paragraph that ends inside a table cell gives no block of its own: its
/// trimmed text joins the cell's text instead.
pub proof fn law_docx_cell_paragraphs_join_cell(st: DocxStateView, q: Seq<u8>)
    requires
        st.in_cell,
        local_name(q) == ascii_bytes("p"@),
    ensures
        docx_event(st, XmlEventView::End(q)).blocks == st.blocks,
        docx_event(st, XmlEventView::End(q)).cell == st.cell + trim_spec(st.cur),
{
    reveal_strlit("p");
    reveal_strlit("t");
    assert(ascii_bytes("p"@) != ascii_bytes("t"@)) by {
        assert(ascii_bytes("p"@)[0] != ascii_bytes("t"@)[0]);
    }
}


/// A style that names `ListParagraph` names `List`.
proof fn lemma_list_paragraph_names_list(s: Seq<char>)
    requires
        occurs_in(s, "ListParagraph"@),
    ensures
        occurs_in(s, "List"@),
{
    reveal_strlit("ListParagraph");
    reveal_strlit("List");
    let i = choose|i: int| 0 <= i <= s.len() - "ListParagraph"@.len() && #[trigger] s.subrange(i, i + "ListParagraph"@.len())
        == "ListParagraph"@;
    let w = s.subrange(i, i + 13);
    assert(s.subrange(i, i + 4) =~= w.subrange(0, 4));
    assert(w.subrange(0, 4) =~= "List"@);
    assert(s.subrange(i, i + "List"@.len()) == "List"@);
}

/// A paragraph that ends outside a table cell, with text, in a style that
/// names a list (`List`, as in `ListParagraph`) and no heading or title, gives
/// a list-item block of its trimmed text; in a heading or title style it gives
/// a title block; in a style that names none of these, or with no style, a
/// narrative block.
pub proof fn law_docx_paragraph_kinds(st: DocxStateView, q: Seq<u8>)
    requires
        !st.in_cell,
        local_name(q) == ascii_bytes("p"@),
        trim_spec(st.cur).len() > 0,
    ensures
        docx_event(st, XmlEventView::End(q)).blocks.len() == st.blocks.len() + 1,
        docx_event(st, XmlEventView::End(q)).blocks.last().text == trim_spec(st.cur),
        st.style matches Some(s) && occurs_in(s, "List"@) && !occurs_in(s, "Heading"@) && !occurs_in(s, "heading"@)
            && !occurs_in(s, "Title"@) ==> docx_event(st, XmlEventView::End(q)).blocks.last().element_type
            == ElementType::ListItem,
        st.style matches Some(s) && (occurs_in(s, "Heading"@) || occurs_in(s, "heading"@) || occurs_in(s, "Title"@))
            ==> docx_event(st, XmlEventView::End(q)).blocks.last().element_type == ElementType::Title,
        (st.style is None || (st.style matches Some(s) && !occurs_in(s, "List"@) && !occurs_in(s, "Heading"@)
            && !occurs_in(s, "heading"@) && !occurs_in(s, "Title"@))) ==> docx_event(st, XmlEventView::End(q)).blocks.last().element_type
            == ElementType::NarrativeText,
{
    reveal_strlit("p");
    reveal_strlit("t");
    assert(ascii_bytes("p"@) != ascii_bytes("t"@)) by {
        assert(ascii_bytes("p"@)[0] != ascii_bytes("t"@)[0]);
    }
    if let Some(s) = st.style {
        if occurs_in(s, "ListParagraph"@) {
            lemma_list_paragraph_names_list(s);
        }
    }
}

} // verus!
