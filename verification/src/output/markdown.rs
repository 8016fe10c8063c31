//! Chunks rendered as human-readable Markdown.
use vstd::prelude::*;
use crate::format::email::join_with;
use crate::model::{block_views, chunk_views, BlockView, Block, Chunk, ChunkView, ElementType, TableDataView};
use crate::strings::{decimal, push_char, usize_to_decimal};

verus! {

/// `n` copies of a text.
pub open spec fn repeat(s: Seq<char>, n: nat) -> Seq<char>
    decreases n,
{
    if n == 0 { seq![] } else { repeat(s, (n - 1) as nat) + s }
}

/// A table row in GFM: `| a | b |` and a line break.
pub open spec fn md_row(cells: Seq<Seq<char>>) -> Seq<char> {
    "| "@ + join_with(cells, " | "@) + " |\n"@
}

/// GFM table rows, one per line.
pub open spec fn md_rows(rows: Seq<Seq<Seq<char>>>) -> Seq<char>
    decreases rows.len(),
{
    if rows.len() == 0 { seq![] } else { md_rows(rows.drop_last()) + md_row(rows.last()) }
}

/// A table block in GFM: the header and its rule when there are headers, then
/// the rows; a block without table data gives its text.
pub open spec fn table_markdown(b: BlockView) -> Seq<char> {
    match b.table_data {
        Some(td) => {
            let head = match td.headers {
                Some(h) => md_row(h) + "|"@ + join_with(Seq::new(h.len(), |i: int| " --- "@), "|"@) + "|\n"@,
                None => seq![],
            };
            head + md_rows(td.rows)
        },
        None => b.text + "\n"@,
    }
}

/// The heading level of a block: the depth of its hierarchy, at most 6, or the default.
pub open spec fn heading_level(b: BlockView, default: nat) -> nat {
    if b.hierarchy.len() == 0 { default } else if b.hierarchy.len() < 6 { b.hierarchy.len() } else { 6 }
}

/// A block in Markdown.
pub open spec fn block_markdown(b: BlockView) -> Seq<char> {
    match b.element_type {
        ElementType::Title => repeat("#"@, heading_level(b, 2)) + " "@ + b.text + "\n\n"@,
        ElementType::Header => repeat("#"@, heading_level(b, 3)) + " "@ + b.text + "\n\n"@,
        ElementType::Table => table_markdown(b) + "\n"@,
        ElementType::CodeBlock => "```\n"@ + b.text + "\n```\n\n"@,
        ElementType::ListItem => "- "@ + b.text + "\n"@,
        ElementType::Formula => "$$"@ + b.text + "$$\n\n"@,
        ElementType::Caption => "*"@ + b.text + "*\n\n"@,
        ElementType::Image => "![image]("@ + b.text + ")\n\n"@,
        _ => b.text + "\n\n"@,
    }
}

/// Blocks in Markdown, one after the other.
pub open spec fn blocks_markdown(bs: Seq<BlockView>) -> Seq<char>
    decreases bs.len(),
{
    if bs.len() == 0 { seq![] } else { blocks_markdown(bs.drop_last()) + block_markdown(bs.last()) }
}

proof fn lemma_blocks_markdown_concat(a: Seq<BlockView>, b: Seq<BlockView>)
    ensures
        blocks_markdown(a + b) == blocks_markdown(a) + blocks_markdown(b),
    decreases b.len(),
{
    if b.len() == 0 {
        assert(a + b =~= a);
        assert(blocks_markdown(a) + Seq::<char>::empty() =~= blocks_markdown(a));
    } else {
        lemma_blocks_markdown_concat(a, b.drop_last());
        assert((a + b).drop_last() =~= a + b.drop_last());
        assert((a + b).last() == b.last());
        assert(blocks_markdown(a) + blocks_markdown(b.drop_last()) + block_markdown(b.last()) =~= blocks_markdown(a)
            + (blocks_markdown(b.drop_last()) + block_markdown(b.last())));
    }
}

/// Every code block is fenced on both sides in the Markdown of the blocks around
/// it: what comes before it, an opening fence line, its text, a closing fence
/// line and a blank line, then what comes after it, outside any fence.
pub proof fn law_code_blocks_fenced(bs: Seq<BlockView>, j: int)
    requires
        0 <= j < bs.len(),
        bs[j].element_type == ElementType::CodeBlock,
    ensures
        blocks_markdown(bs) == blocks_markdown(bs.take(j)) + "```\n"@ + bs[j].text + "\n```\n\n"@ + blocks_markdown(
            bs.skip(j + 1),
        ),
{
    assert(bs =~= bs.take(j) + seq![bs[j]] + bs.skip(j + 1));
    lemma_blocks_markdown_concat(bs.take(j) + seq![bs[j]], bs.skip(j + 1));
    lemma_blocks_markdown_concat(bs.take(j), seq![bs[j]]);
    let one = seq![bs[j]];
    assert(one.drop_last() =~= Seq::<BlockView>::empty());
    assert(blocks_markdown(one.drop_last()) == Seq::<char>::empty());
    assert(one.last() == bs[j]);
    assert(Seq::<char>::empty() + block_markdown(bs[j]) =~= block_markdown(bs[j]));
    assert(blocks_markdown(one) == block_markdown(bs[j]));
}

/// The marker line of a chunk: a rule, its position among `n`, its tokens and pages.
pub open spec fn chunk_heading(c: ChunkView, i: nat, n: nat) -> Seq<char> {
    "---\n\n"@ + "**Chunk "@ + decimal(i + 1) + " / "@ + decimal(n) + "** | tokens: "@ + decimal(c.token_count as nat)
        + " | pages: "@ + decimal(c.page_start as nat) + "-"@ + decimal(c.page_end as nat) + "\n\n"@
}

/// A chunk's overlap line, when its overlap is not empty.
pub open spec fn chunk_overlap(c: ChunkView) -> Seq<char> {
    match c.overlap_prefix {
        Some(p) => if p.len() > 0 { "> *Overlap:* "@ + p + "\n\n"@ } else { seq![] },
        None => seq![],
    }
}

/// A chunk's content: its blocks, or its text when it has none.
pub open spec fn chunk_body(c: ChunkView) -> Seq<char> {
    if c.source_blocks.len() == 0 { c.text + "\n\n"@ } else { blocks_markdown(c.source_blocks) }
}

/// A chunk in Markdown.
pub open spec fn chunk_markdown(c: ChunkView, i: nat, n: nat) -> Seq<char> {
    chunk_heading(c, i, n) + chunk_overlap(c) + chunk_body(c)
}

/// The first `k` of `n` chunks in Markdown.
pub open spec fn chunks_markdown(cs: Seq<ChunkView>, k: int) -> Seq<char>
    decreases k,
{
    if k <= 0 { seq![] } else { chunks_markdown(cs, k - 1) + chunk_markdown(cs[k - 1], (k - 1) as nat, cs.len()) }
}

/// The Markdown document of a file's chunks.
pub open spec fn markdown_document(cs: Seq<ChunkView>, name: Seq<char>) -> Seq<char> {
    "# Chunked Output: "@ + name + "\n\n"@ + chunks_markdown(cs, cs.len() as int)
}

/// Joins strings with a separator.
fn join_cells(ts: &Vec<String>, sep: &str) -> (s: String)
    ensures
        s@ == join_with(ts.deep_view(), sep@),
{
    let mut s = String::new();
    let mut i: usize = 0;
    while i < ts.len()
        invariant
            i <= ts@.len(),
            s@ == join_with(ts.deep_view().take(i as int), sep@),
        decreases ts@.len() - i,
    {
        assert(ts.deep_view().take(i + 1).drop_last() =~= ts.deep_view().take(i as int));
        if i > 0 {
            s.append(sep);
        }
        s.append(ts[i].as_str());
        i += 1;
    }
    assert(ts.deep_view().take(i as int) =~= ts.deep_view());
    s
}

/// Writes a table block as a GFM table.
pub fn render_table_markdown(output: &mut String, block: &Block)
    ensures
        final(output)@ == old(output)@ + table_markdown(block@),
{
    match &block.table_data {
        Some(td) => {
            if let Some(headers) = &td.headers {
                output.append("| ");
                output.append(join_cells(headers, " | ").as_str());
                output.append(" |\n");
                let mut rules: Vec<String> = Vec::new();
                let mut k: usize = 0;
                while k < headers.len()
                    invariant
                        k <= headers@.len(),
                        rules.deep_view() == Seq::new(k as nat, |i: int| " --- "@),
                    decreases headers@.len() - k,
                {
                    let ghost before = rules.deep_view();
                    rules.push(String::from_str(" --- "));
                    assert(rules.deep_view() =~= before.push(" --- "@));
                    k += 1;
                    assert(rules.deep_view() =~= Seq::new(k as nat, |i: int| " --- "@));
                }
                output.append("|");
                output.append(join_cells(&rules, "|").as_str());
                output.append("|\n");
            }
            let ghost rv = td.rows.deep_view();
            let ghost base = output@;
            let mut r: usize = 0;
            assert(md_rows(rv.take(0)) =~= seq![]);
            while r < td.rows.len()
                invariant
                    r <= td.rows@.len(),
                    rv == td.rows.deep_view(),
                    output@ == base + md_rows(rv.take(r as int)),
                decreases td.rows@.len() - r,
            {
                assert(rv.take(r + 1).drop_last() =~= rv.take(r as int));
                output.append("| ");
                output.append(join_cells(&td.rows[r], " | ").as_str());
                output.append(" |\n");
                r += 1;
            }
            assert(rv.take(r as int) =~= rv);
        },
        None => {
            output.append(block.text.as_str());
            output.append("\n");
        },
    }
}

/// Writes `n` hashes.
fn hashes(n: usize) -> (s: String)
    ensures
        s@ == repeat("#"@, n as nat),
{
    let mut s = String::new();
    let mut k: usize = 0;
    while k < n
        invariant
            k <= n,
            s@ == repeat("#"@, k as nat),
        decreases n - k,
    {
        s.append("#");
        k += 1;
    }
    s
}

/// Writes a block in Markdown.
fn render_block(output: &mut String, b: &Block)
    ensures
        final(output)@ == old(output)@ + block_markdown(b@),
{
    match b.element_type {
        ElementType::Title | ElementType::Header => {
            let default: usize = if b.element_type == ElementType::Title { 2 } else { 3 };
            let h = b.hierarchy.len();
            let level = if h == 0 { default } else if h < 6 { h } else { 6 };
            output.append(hashes(level).as_str());
            output.append(" ");
            output.append(b.text.as_str());
            output.append("\n\n");
        },
        ElementType::Table => {
            render_table_markdown(output, b);
            output.append("\n");
        },
        ElementType::CodeBlock => {
            output.append("```\n");
            output.append(b.text.as_str());
            output.append("\n```\n\n");
        },
        ElementType::ListItem => {
            output.append("- ");
            output.append(b.text.as_str());
            output.append("\n");
        },
        ElementType::Formula => {
            output.append("$$");
            output.append(b.text.as_str());
            output.append("$$\n\n");
        },
        ElementType::Caption => {
            output.append("*");
            output.append(b.text.as_str());
            output.append("*\n\n");
        },
        ElementType::Image => {
            output.append("![image](");
            output.append(b.text.as_str());
            output.append(")\n\n");
        },
        _ => {
            output.append(b.text.as_str());
            output.append("\n\n");
        },
    }
}

/// Writes a chunk's marker line.
#[verifier::spinoff_prover]
#[verifier::rlimit(40)]
fn render_chunk_heading(out: &mut String, c: &Chunk, i: usize, n: usize)
    requires
        i < n,
    ensures
        final(out)@ == old(out)@ + chunk_heading(c@, i as nat, n as nat),
{
    let ghost start = out@;
    out.append("---\n\n");
    out.append("**Chunk ");
    out.append(usize_to_decimal(i + 1).as_str());
    out.append(" / ");
    out.append(usize_to_decimal(n).as_str());
    out.append("** | tokens: ");
    out.append(usize_to_decimal(c.token_count).as_str());
    out.append(" | pages: ");
    out.append(usize_to_decimal(c.page_start as usize).as_str());
    out.append("-");
    out.append(usize_to_decimal(c.page_end as usize).as_str());
    out.append("\n\n");
    assert(out@ =~= start + chunk_heading(c@, i as nat, n as nat));
}

/// Writes a chunk's content.
fn render_chunk_body(out: &mut String, c: &Chunk)
    ensures
        final(out)@ == old(out)@ + chunk_body(c@),
{
    if c.source_blocks.len() == 0 {
        out.append(c.text.as_str());
        out.append("\n\n");
    } else {
        let ghost bv = block_views(c.source_blocks@);
        let ghost mid = out@;
        let mut j: usize = 0;
        while j < c.source_blocks.len()
            invariant
                j <= c.source_blocks@.len(),
                bv == block_views(c.source_blocks@),
                out@ == mid + blocks_markdown(bv.take(j as int)),
            decreases c.source_blocks@.len() - j,
        {
            assert(bv.take(j + 1).drop_last() =~= bv.take(j as int));
            render_block(out, &c.source_blocks[j]);
            j += 1;
        }
        assert(bv.take(j as int) =~= bv);
    }
}

/// Writes one chunk in Markdown.
fn render_chunk(out: &mut String, c: &Chunk, i: usize, n: usize)
    requires
        i < n,
    ensures
        final(out)@ == old(out)@ + chunk_markdown(c@, i as nat, n as nat),
{
    let ghost start = out@;
    render_chunk_heading(out, c, i, n);
    if let Some(p) = &c.overlap_prefix {
        if !p.as_str().is_empty() {
            out.append("> *Overlap:* ");
            out.append(p.as_str());
            out.append("\n\n");
        }
    }
    let ghost mid = out@;
    render_chunk_body(out, c);
    assert(out@ =~= start + chunk_markdown(c@, i as nat, n as nat));
}

/// The Markdown document of a file's chunks: headings at their levels, tables as
/// GFM tables, chunk boundaries marked.
pub fn render_markdown(chunks: &[Chunk], input_filename: &str) -> (s: String)
    ensures
        s@ == markdown_document(chunk_views(chunks@), input_filename@),
{
    let ghost cv = chunk_views(chunks@);
    let mut out = String::from_str("# Chunked Output: ");
    out.append(input_filename);
    out.append("\n\n");
    let ghost base = out@;
    let n = chunks.len();
    let mut i: usize = 0;
    while i < n
        invariant
            i <= n,
            n == chunks@.len(),
            cv == chunk_views(chunks@),
            out@ == base + chunks_markdown(cv, i as int),
        decreases n - i,
    {
        let ghost start = out@;
        render_chunk(&mut out, &chunks[i], i, n);
        assert(out@ =~= start + chunk_markdown(cv[i as int], i as nat, n as nat));
        i += 1;
    }
    out
}

} // verus!
