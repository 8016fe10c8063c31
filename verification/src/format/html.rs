//! HTML pages: title, headings, paragraphs, list items, tables and code.
use vstd::prelude::*;
use crate::orchestrator::{confidence_pct, ParserKind};
use crate::model::{block_views, plain_block, Block, BlockView, ElementType, TableData, TableDataView};
use crate::strings::{chars_of, decimal, is_white_space, lemma_trim_shape, string_of, trim_chars, trim_spec, usize_to_decimal};

verus! {

/// HTML pages.
pub struct HtmlParser;

/// The texts of the elements of an HTML page that a CSS selector matches, in
/// document order (none when the selector does not parse).
pub uninterp spec fn selected_texts(html: Seq<char>, selector: Seq<char>) -> Seq<Seq<char>>;

/// Parses the page with `scraper::Html::parse_document` and collects the text of
/// each element that `selector` matches.
#[verifier::external_body]
fn select_texts(html: &str, selector: &str) -> (r: Vec<String>)
    ensures
        r.deep_view() == selected_texts(html@, selector@),
{
    let document = scraper::Html::parse_document(html);
    match scraper::Selector::parse(selector) {
        Ok(sel) => document.select(&sel).map(|el| el.text().collect::<String>()).collect(),
        Err(_) => Vec::new(),
    }
}

/// Per `table` element of an HTML page, per `tr` within it: the texts of its
/// `th` cells and of its `td` cells.
pub uninterp spec fn table_cells(html: Seq<char>) -> Seq<Seq<(Seq<Seq<char>>, Seq<Seq<char>>)>>;

/// The views of table rows.
pub open spec fn row_cell_views(t: Seq<(Vec<String>, Vec<String>)>) -> Seq<(Seq<Seq<char>>, Seq<Seq<char>>)> {
    t.map_values(|r: (Vec<String>, Vec<String>)| (r.0.deep_view(), r.1.deep_view()))
}

/// Parses the page with `scraper` and, for each `table`, each `tr` in it, collects
/// the texts of its `th` and `td` cells.
#[verifier::external_body]
fn html_table_cells(html: &str) -> (r: Vec<Vec<(Vec<String>, Vec<String>)>>)
    ensures
        r@.map_values(|t: Vec<(Vec<String>, Vec<String>)>| row_cell_views(t@)) == table_cells(html@),
{
    let document = scraper::Html::parse_document(html);
    let sel = |s: &str| scraper::Selector::parse(s).unwrap();
    let (table, tr, th, td) = (sel("table"), sel("tr"), sel("th"), sel("td"));
    let texts = |e: scraper::ElementRef, s: &scraper::Selector| e.select(s).map(|c| c.text().collect::<String>()).collect::<Vec<String>>();
    document.select(&table).map(|t| t.select(&tr).map(|r| (texts(r, &th), texts(r, &td))).collect()).collect()
}

/// The trimmed non-empty texts, as blocks of a kind.
pub open spec fn text_blocks(texts: Seq<Seq<char>>, kind: ElementType, hierarchy: Seq<Seq<char>>) -> Seq<BlockView>
    decreases texts.len(),
{
    if texts.len() == 0 {
        seq![]
    } else {
        let before = text_blocks(texts.drop_last(), kind, hierarchy);
        let t = trim_spec(texts.last());
        if t.len() > 0 { before.push(BlockView { hierarchy, ..plain_block(kind, t, 1) }) } else { before }
    }
}

/// The header and data rows of a table: the header cells of its first row are its
/// header; then each row with data cells is a row.
pub open spec fn table_rows(rows: Seq<(Seq<Seq<char>>, Seq<Seq<char>>)>, k: int) -> (Seq<Seq<char>>, Seq<Seq<Seq<char>>>)
    decreases k,
{
    if k <= 0 {
        (seq![], seq![])
    } else {
        let (h, body) = table_rows(rows, k - 1);
        let ths = rows[k - 1].0.map_values(|t: Seq<char>| trim_spec(t));
        let tds = rows[k - 1].1.map_values(|t: Seq<char>| trim_spec(t));
        if ths.len() > 0 && k - 1 == 0 {
            (ths, body)
        } else if tds.len() > 0 {
            (h, body.push(tds))
        } else {
            (h, body)
        }
    }
}

/// The block of a table.
pub open spec fn html_table_block(rows: Seq<(Seq<Seq<char>>, Seq<Seq<char>>)>) -> BlockView {
    let (h, body) = table_rows(rows, rows.len() as int);
    let cols: nat = if h.len() == 0 { if body.len() > 0 { body[0].len() } else { 0 } } else { h.len() };
    BlockView {
        table_data: Some(TableDataView { rows: body, headers: if h.len() == 0 { None } else { Some(h) } }),
        ..plain_block(ElementType::Table, "Table: "@ + decimal(cols) + " columns, "@ + decimal(body.len()) + " rows"@, 1)
    }
}

/// The trimmed texts of cells.
pub open spec fn trimmed_cells(cells: Seq<Seq<char>>) -> Seq<Seq<char>> {
    cells.map_values(|t: Seq<char>| trim_spec(t))
}

proof fn lemma_table_rows(rows: Seq<(Seq<Seq<char>>, Seq<Seq<char>>)>, k: int)
    requires
        0 <= k <= rows.len(),
    ensures
        k >= 1 && rows[0].0.len() > 0 ==> table_rows(rows, k).0 == trimmed_cells(rows[0].0),
        forall|r: int| 0 <= r < k && rows[r].1.len() > 0 && !(r == 0 && rows[0].0.len() > 0) ==> exists|j: int|
            0 <= j < table_rows(rows, k).1.len() && #[trigger] table_rows(rows, k).1[j] == trimmed_cells(
                #[trigger] rows[r].1,
            ),
    decreases k,
{
    if k > 0 {
        lemma_table_rows(rows, k - 1);
        let prev = table_rows(rows, k - 1);
        let cur = table_rows(rows, k);
        let ths = rows[k - 1].0.map_values(|t: Seq<char>| trim_spec(t));
        let tds = rows[k - 1].1.map_values(|t: Seq<char>| trim_spec(t));
        assert(ths == trimmed_cells(rows[k - 1].0));
        assert(tds == trimmed_cells(rows[k - 1].1));
        assert forall|r: int| 0 <= r < k && rows[r].1.len() > 0 && !(r == 0 && rows[0].0.len() > 0) implies exists|j: int|
            0 <= j < cur.1.len() && #[trigger] cur.1[j] == trimmed_cells(#[trigger] rows[r].1) by {
            if r < k - 1 {
                let j = choose|j: int| 0 <= j < prev.1.len() && #[trigger] prev.1[j] == trimmed_cells(rows[r].1);
                if !(ths.len() > 0 && k - 1 == 0) && tds.len() > 0 {
                    assert(cur.1 == prev.1.push(tds));
                    assert(cur.1[j] == prev.1[j]);
                } else {
                    assert(cur.1 == prev.1);
                }
            } else {
                assert(r == k - 1);
                assert(tds.len() > 0);
                assert(!(ths.len() > 0 && k - 1 == 0));
                assert(cur.1 == prev.1.push(tds));
                assert(cur.1[prev.1.len() as int] == tds);
            }
        }
    }
}

/// The block of an HTML table keeps its cells: when the first row holds header
/// cells, they, trimmed, are the headers; the data cells of every other row
/// that has some (and of the first row when it has no header cells), trimmed,
/// form one of the block's rows.
pub proof fn law_html_table_keeps_cells(rows: Seq<(Seq<Seq<char>>, Seq<Seq<char>>)>)
    ensures
        rows.len() > 0 && rows[0].0.len() > 0 ==> html_table_block(rows).table_data == Some(TableDataView {
            headers: Some(trimmed_cells(rows[0].0)),
            rows: html_table_block(rows).table_data->0.rows,
        }),
        forall|r: int| 0 <= r < rows.len() && rows[r].1.len() > 0 && !(r == 0 && rows[0].0.len() > 0) ==> exists|j: int|
            0 <= j < html_table_block(rows).table_data->0.rows.len()
                && #[trigger] html_table_block(rows).table_data->0.rows[j] == trimmed_cells(#[trigger] rows[r].1),
{
    lemma_table_rows(rows, rows.len() as int);
    let t = table_rows(rows, rows.len() as int);
    assert(html_table_block(rows).table_data->0.rows == t.1);
}

/// The heading blocks of levels `1..=k`.
pub open spec fn heading_blocks(html: Seq<char>, k: nat) -> Seq<BlockView>
    decreases k,
{
    if k == 0 {
        seq![]
    } else {
        let tag = "h"@ + decimal(k);
        heading_blocks(html, (k - 1) as nat) + text_blocks(selected_texts(html, tag), ElementType::Title, seq![tag])
    }
}

/// The blocks of a page: its title, headings by level, paragraphs, list items,
/// tables and code, in that order; or, when it has none, the first body text.
pub open spec fn html_blocks(html: Seq<char>) -> Seq<BlockView> {
    let b = text_blocks(selected_texts(html, "title"@), ElementType::Title, seq![])
        + heading_blocks(html, 6)
        + text_blocks(selected_texts(html, "p"@), ElementType::NarrativeText, seq![])
        + text_blocks(selected_texts(html, "li"@), ElementType::ListItem, seq![])
        + table_cells(html).map_values(|t: Seq<(Seq<Seq<char>>, Seq<Seq<char>>)>| html_table_block(t))
        + text_blocks(selected_texts(html, "pre, code"@), ElementType::CodeBlock, seq![]);
    if b.len() > 0 {
        b
    } else {
        let bodies = text_blocks(selected_texts(html, "body"@), ElementType::NarrativeText, seq![]);
        if bodies.len() > 0 { seq![bodies[0]] } else { seq![] }
    }
}

/// A block on page 1 whose text is non-empty and neither starts nor ends with white space.
pub open spec fn neat_block(b: BlockView) -> bool {
    &&& b.page == 1
    &&& b.text.len() > 0
    &&& !is_white_space(b.text[0])
    &&& !is_white_space(b.text.last())
}

/// Whether every block is neat.
pub open spec fn all_neat(bs: Seq<BlockView>) -> bool {
    forall|i: int| 0 <= i < bs.len() ==> neat_block(#[trigger] bs[i])
}

proof fn lemma_all_neat_concat(a: Seq<BlockView>, b: Seq<BlockView>)
    requires
        all_neat(a),
        all_neat(b),
    ensures
        all_neat(a + b),
{
    assert forall|i: int| 0 <= i < (a + b).len() implies neat_block(#[trigger] (a + b)[i]) by {
        if i < a.len() {
            assert((a + b)[i] == a[i]);
        } else {
            assert((a + b)[i] == b[i - a.len()]);
        }
    }
}

proof fn lemma_text_blocks_neat(texts: Seq<Seq<char>>, kind: ElementType, hierarchy: Seq<Seq<char>>)
    ensures
        all_neat(text_blocks(texts, kind, hierarchy)),
    decreases texts.len(),
{
    if texts.len() > 0 {
        let before = text_blocks(texts.drop_last(), kind, hierarchy);
        lemma_text_blocks_neat(texts.drop_last(), kind, hierarchy);
        lemma_trim_shape(texts.last());
        let t = trim_spec(texts.last());
        if t.len() > 0 {
            let nb = BlockView { hierarchy, ..plain_block(kind, t, 1) };
            assert(neat_block(nb));
            lemma_all_neat_concat(before, seq![nb]);
            assert(before.push(nb) =~= before + seq![nb]);
        }
    }
}

proof fn lemma_heading_blocks_neat(html: Seq<char>, k: nat)
    ensures
        all_neat(heading_blocks(html, k)),
    decreases k,
{
    if k > 0 {
        let tag = "h"@ + decimal(k);
        lemma_heading_blocks_neat(html, (k - 1) as nat);
        lemma_text_blocks_neat(selected_texts(html, tag), ElementType::Title, seq![tag]);
        lemma_all_neat_concat(
            heading_blocks(html, (k - 1) as nat),
            text_blocks(selected_texts(html, tag), ElementType::Title, seq![tag]),
        );
    }
}

proof fn lemma_table_block_neat(rows: Seq<(Seq<Seq<char>>, Seq<Seq<char>>)>)
    ensures
        neat_block(html_table_block(rows)),
{
    reveal_strlit("Table: ");
    reveal_strlit(" rows");
    let (h, body) = table_rows(rows, rows.len() as int);
    let cols: nat = if h.len() == 0 { if body.len() > 0 { body[0].len() } else { 0 } } else { h.len() };
    let text = "Table: "@ + decimal(cols) + " columns, "@ + decimal(body.len()) + " rows"@;
    assert(text[0] == 'T');
    assert(text.last() == 's');
}

/// Every block of an HTML page is on page 1 and has a non-empty text that
/// neither starts nor ends with white space; its confidence is 100 hundredths
/// for a table and 95 for any other block.
pub proof fn law_html_blocks_neat(html: Seq<char>)
    ensures
        forall|i: int| 0 <= i < html_blocks(html).len() ==> neat_block(#[trigger] html_blocks(html)[i]),
        forall|i: int| 0 <= i < html_blocks(html).len() ==> #[trigger] confidence_pct(ParserKind::Html, html_blocks(html), i)
            == Some(if html_blocks(html)[i].element_type == ElementType::Table { 100u8 } else { 95u8 }),
{
    let t0 = text_blocks(selected_texts(html, "title"@), ElementType::Title, seq![]);
    let t1 = heading_blocks(html, 6);
    let t2 = text_blocks(selected_texts(html, "p"@), ElementType::NarrativeText, seq![]);
    let t3 = text_blocks(selected_texts(html, "li"@), ElementType::ListItem, seq![]);
    let t4 = table_cells(html).map_values(|t: Seq<(Seq<Seq<char>>, Seq<Seq<char>>)>| html_table_block(t));
    let t5 = text_blocks(selected_texts(html, "pre, code"@), ElementType::CodeBlock, seq![]);
    lemma_text_blocks_neat(selected_texts(html, "title"@), ElementType::Title, seq![]);
    lemma_heading_blocks_neat(html, 6);
    lemma_text_blocks_neat(selected_texts(html, "p"@), ElementType::NarrativeText, seq![]);
    lemma_text_blocks_neat(selected_texts(html, "li"@), ElementType::ListItem, seq![]);
    lemma_text_blocks_neat(selected_texts(html, "pre, code"@), ElementType::CodeBlock, seq![]);
    lemma_text_blocks_neat(selected_texts(html, "body"@), ElementType::NarrativeText, seq![]);
    assert forall|i: int| 0 <= i < t4.len() implies neat_block(#[trigger] t4[i]) by {
        lemma_table_block_neat(table_cells(html)[i]);
    }
    lemma_all_neat_concat(t0, t1);
    lemma_all_neat_concat(t0 + t1, t2);
    lemma_all_neat_concat(t0 + t1 + t2, t3);
    lemma_all_neat_concat(t0 + t1 + t2 + t3, t4);
    lemma_all_neat_concat(t0 + t1 + t2 + t3 + t4, t5);
    let b = t0 + t1 + t2 + t3 + t4 + t5;
    if b.len() == 0 {
        let bodies = text_blocks(selected_texts(html, "body"@), ElementType::NarrativeText, seq![]);
        if bodies.len() > 0 {
            assert(neat_block(bodies[0]));
        }
    }
}

/// Appends the blocks of the trimmed non-empty texts.
fn push_text_blocks(out: &mut Vec<Block>, texts: &Vec<String>, kind: ElementType, hierarchy: &Vec<String>)
    ensures
        block_views(final(out)@) == block_views(old(out)@) + text_blocks(texts.deep_view(), kind, hierarchy.deep_view()),
{
    let ghost start = block_views(out@);
    let ghost tv = texts.deep_view();
    let mut i: usize = 0;
    assert(block_views(out@) =~= start + text_blocks(tv.take(0), kind, hierarchy.deep_view()));
    while i < texts.len()
        invariant
            i <= texts@.len(),
            tv == texts.deep_view(),
            block_views(out@) == start + text_blocks(tv.take(i as int), kind, hierarchy.deep_view()),
        decreases texts@.len() - i,
    {
        assert(tv.take(i + 1).drop_last() =~= tv.take(i as int));
        let t = trim_chars(chars_of(texts[i].as_str()).as_slice());
        if t.len() > 0 {
            let ghost before = block_views(out@);
            let mut b = Block::on_page(kind, string_of(t.as_slice()), 1);
            b.hierarchy = crate::model::copy_strings(hierarchy);
            let ghost bv = b@;
            out.push(b);
            assert(block_views(out@) =~= before.push(bv));
        }
        i += 1;
    }
    assert(tv.take(i as int) =~= tv);
}

/// Trimmed copies of texts.
fn trimmed_all(v: &Vec<String>) -> (r: Vec<String>)
    ensures
        r.deep_view() == v.deep_view().map_values(|t: Seq<char>| trim_spec(t)),
{
    let mut r: Vec<String> = Vec::new();
    let mut i: usize = 0;
    while i < v.len()
        invariant
            i <= v@.len(),
            r.deep_view() == v.deep_view().take(i as int).map_values(|t: Seq<char>| trim_spec(t)),
        decreases v@.len() - i,
    {
        let ghost before = r.deep_view();
        r.push(string_of(trim_chars(chars_of(v[i].as_str()).as_slice()).as_slice()));
        assert(r.deep_view() =~= before.push(trim_spec(v@[i as int]@)));
        i += 1;
        assert(v.deep_view().take(i as int).map_values(|t: Seq<char>| trim_spec(t)) =~= v.deep_view().take(i - 1).map_values(
            |t: Seq<char>| trim_spec(t),
        ).push(trim_spec(v@[i - 1]@)));
    }
    assert(v.deep_view().take(i as int) =~= v.deep_view());
    r
}

/// The block of one table's rows of cells.
fn table_block_of(rows: &Vec<(Vec<String>, Vec<String>)>) -> (b: Block)
    ensures
        b@ == html_table_block(row_cell_views(rows@)),
{
    let ghost rv = row_cell_views(rows@);
    let mut headers: Vec<String> = Vec::new();
    let mut body: Vec<Vec<String>> = Vec::new();
    let mut i: usize = 0;
    while i < rows.len()
        invariant
            i <= rows@.len(),
            rv == row_cell_views(rows@),
            (headers.deep_view(), body.deep_view()) == table_rows(rv, i as int),
        decreases rows@.len() - i,
    {
        let ths = trimmed_all(&rows[i].0);
        let tds = trimmed_all(&rows[i].1);
        if ths.len() > 0 && i == 0 {
            headers = ths;
        } else if tds.len() > 0 {
            let ghost before = body.deep_view();
            let ghost dv = tds.deep_view();
            body.push(tds);
            assert(body.deep_view() =~= before.push(dv));
        }
        i += 1;
    }
    let cols = if headers.len() == 0 {
        if body.len() > 0 { body[0].len() } else { 0 }
    } else {
        headers.len()
    };
    let text = String::from_str("Table: ")
        .concat(usize_to_decimal(cols).as_str())
        .concat(" columns, ")
        .concat(usize_to_decimal(body.len()).as_str())
        .concat(" rows");
    let ghost hv = headers.deep_view();
    let ghost bv = body.deep_view();
    let headers_opt = if headers.len() == 0 { None } else { Some(headers) };
    let mut b = Block::on_page(ElementType::Table, text, 1);
    b.table_data = Some(TableData { rows: body, headers: headers_opt });
    assert(b@.table_data == Some(TableDataView { rows: bv, headers: if hv.len() == 0 { None } else { Some(hv) } }));
    b
}

impl HtmlParser {
    /// The blocks of an HTML page given its text.
    pub fn parse_html(&self, html: &str) -> (blocks: Vec<Block>)
        ensures
            block_views(blocks@) == html_blocks(html@),
    {
        let mut out: Vec<Block> = Vec::new();
        let none: Vec<String> = Vec::new();
        assert(none.deep_view() =~= seq![]);
        assert(block_views(out@) =~= seq![]);
        push_text_blocks(&mut out, &select_texts(html, "title"), ElementType::Title, &none);
        let ghost after_title = block_views(out@);
        let mut level: usize = 1;
        assert(heading_blocks(html@, 0) =~= seq![]);
        while level <= 6
            invariant
                1 <= level <= 7,
                block_views(out@) == after_title + heading_blocks(html@, (level - 1) as nat),
            decreases 7 - level,
        {
            let tag = String::from_str("h").concat(usize_to_decimal(level).as_str());
            let mut h: Vec<String> = Vec::new();
            h.push(tag.clone());
            assert(h.deep_view() =~= seq![tag@]);
            let ghost before = block_views(out@);
            push_text_blocks(&mut out, &select_texts(html, tag.as_str()), ElementType::Title, &h);
            assert(block_views(out@) =~= after_title + heading_blocks(html@, level as nat));
            level += 1;
        }
        push_text_blocks(&mut out, &select_texts(html, "p"), ElementType::NarrativeText, &none);
        push_text_blocks(&mut out, &select_texts(html, "li"), ElementType::ListItem, &none);
        let tables = html_table_cells(html);
        let ghost tv = tables@.map_values(|t: Vec<(Vec<String>, Vec<String>)>| row_cell_views(t@));
        let ghost before_tables = block_views(out@);
        let mut t: usize = 0;
        while t < tables.len()
            invariant
                t <= tables@.len(),
                tv == tables@.map_values(|t: Vec<(Vec<String>, Vec<String>)>| row_cell_views(t@)),
                block_views(out@) == before_tables + tv.take(t as int).map_values(
                    |x: Seq<(Seq<Seq<char>>, Seq<Seq<char>>)>| html_table_block(x),
                ),
            decreases tables@.len() - t,
        {
            let ghost before = block_views(out@);
            let b = table_block_of(&tables[t]);
            let ghost bv = b@;
            out.push(b);
            assert(block_views(out@) =~= before.push(bv));
            t += 1;
            assert(tv.take(t as int).map_values(|x: Seq<(Seq<Seq<char>>, Seq<Seq<char>>)>| html_table_block(x)) =~= tv.take(
                t - 1,
            ).map_values(|x: Seq<(Seq<Seq<char>>, Seq<Seq<char>>)>| html_table_block(x)).push(bv));
        }
        assert(tv.take(tables@.len() as int) =~= tv);
        push_text_blocks(&mut out, &select_texts(html, "pre, code"), ElementType::CodeBlock, &none);
        if out.len() > 0 {
            return out;
        }
        let mut bodies: Vec<Block> = Vec::new();
        assert(block_views(bodies@) =~= seq![]);
        push_text_blocks(&mut bodies, &select_texts(html, "body"), ElementType::NarrativeText, &none);
        if bodies.len() > 0 {
            let mut r: Vec<Block> = Vec::new();
            r.push(crate::model::copy_block(&bodies[0]));
            assert(block_views(r@) =~= seq![block_views(bodies@)[0]]);
            r
        } else {
            assert(block_views(bodies@) =~= seq![]);
            bodies
        }
    }
}

} // verus!
