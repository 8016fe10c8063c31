use vstd::prelude::*;
use crate::chunking::by_structure::{
    chunk_range, groups_within, lemma_groups_concat, lemma_structure_groups_bounds,
    lemma_structure_range_keep_content, lemma_structure_range_sources, structure_chunks_range,
    structure_groups,
};
use crate::chunking::{
    chunk_id, estimate_tokens, fast_estimate_tokens, fast_tokens, join_block_texts, join_lines,
    chunk_texts, lemma_join_concat, make_chunk_id, max_page, min_page, page_range, source_ranges,
    texts_of, token_count_spec,
};
use crate::model::{
    block_views, chunk_views, copy_block, copy_blocks, Block, BlockView, Chunk, ChunkView,
    ElementType,
};
use crate::Error;

verus! {

/// Titles and headers open a new section.
pub open spec fn is_heading(b: BlockView) -> bool {
    b.element_type == ElementType::Title || b.element_type == ElementType::Header
}

/// The sections after blocks `0..i`: the closed sections, as index ranges, and the
/// start of the open one. A heading closes the open section when it holds something.
pub open spec fn sectioning(bs: Seq<BlockView>, i: int) -> (Seq<(int, int)>, int)
    decreases i,
{
    if i <= 0 {
        (seq![], 0)
    } else {
        let st = sectioning(bs, i - 1);
        if is_heading(bs[i - 1]) && st.1 < i - 1 {
            (st.0.push((st.1, i - 1)), i - 1)
        } else {
            st
        }
    }
}

/// The sections of a document, as index ranges, in order.
pub open spec fn sections(bs: Seq<BlockView>) -> Seq<(int, int)> {
    let st = sectioning(bs, bs.len() as int);
    if st.1 < bs.len() { st.0.push((st.1, bs.len() as int)) } else { st.0 }
}

/// The texts of the headings among blocks.
pub open spec fn heading_texts(sec: Seq<BlockView>) -> Seq<Seq<char>>
    decreases sec.len(),
{
    if sec.len() == 0 {
        seq![]
    } else {
        let rest = heading_texts(sec.drop_last());
        if is_heading(sec.last()) { rest.push(sec.last().text) } else { rest }
    }
}

/// The position of the first heading among blocks `k..`, or their length.
pub open spec fn first_heading_from(sec: Seq<BlockView>, k: int) -> int
    decreases sec.len() - k,
{
    if k >= sec.len() {
        sec.len() as int
    } else if is_heading(sec[k]) {
        k
    } else {
        first_heading_from(sec, k + 1)
    }
}

/// The blocks of a section with the heading hierarchy stored in its first heading.
pub open spec fn with_hierarchy(sec: Seq<BlockView>) -> Seq<BlockView> {
    let h = heading_texts(sec);
    if h.len() == 0 {
        sec
    } else {
        let f = first_heading_from(sec, 0);
        sec.update(f, BlockView { hierarchy: h, ..sec[f] })
    }
}

/// The single chunk of a section that fits, numbered `id`.
pub open spec fn section_chunk(bs: Seq<BlockView>, s: (int, int), id: nat) -> ChunkView {
    let sec = bs.subrange(s.0, s.1);
    let text = join_lines(texts_of(sec));
    ChunkView {
        id: chunk_id(id),
        text,
        token_count: token_count_spec(text),
        source_blocks: with_hierarchy(sec),
        page_start: min_page(sec),
        page_end: max_page(sec),
        overlap_prefix: None,
        source_start: s.0 as usize,
        source_end: s.1 as usize,
    }
}

/// The chunks of a section, numbered from `first_id`: one when its estimated
/// tokens fit `max_tokens`, else its element-aware chunks.
pub open spec fn chunks_of_section(bs: Seq<BlockView>, s: (int, int), first_id: nat, max_tokens: nat, overlap: nat) -> Seq<ChunkView> {
    if fast_tokens(join_lines(texts_of(bs.subrange(s.0, s.1)))) <= max_tokens {
        seq![section_chunk(bs, s, first_id)]
    } else {
        structure_chunks_range(bs, s.0, s.1, max_tokens, overlap, first_id)
    }
}

/// The chunks of the first `k` sections.
pub open spec fn chunks_of_sections(bs: Seq<BlockView>, secs: Seq<(int, int)>, k: int, max_tokens: nat, overlap: nat) -> Seq<ChunkView>
    decreases k,
{
    if k <= 0 {
        seq![]
    } else {
        let before = chunks_of_sections(bs, secs, k - 1, max_tokens, overlap);
        before + chunks_of_section(bs, secs[k - 1], before.len(), max_tokens, overlap)
    }
}

/// The section chunks of a document.
pub open spec fn title_chunks(bs: Seq<BlockView>, max_tokens: usize, overlap: usize) -> Seq<ChunkView> {
    let secs = sections(bs);
    chunks_of_sections(bs, secs, secs.len() as int, max_tokens as nat, overlap as nat)
}

/// The sectioning state is well formed: sections are non-empty ranges before the open one.
pub proof fn lemma_sectioning_bounds(bs: Seq<BlockView>, i: int)
    requires
        0 <= i,
    ensures
        0 <= sectioning(bs, i).1 <= i,
        groups_within(sectioning(bs, i).0, 0, sectioning(bs, i).1),
        sectioning(bs, i).1 == 0 ==> sectioning(bs, i).0.len() == 0,
    decreases i,
{
    if i > 0 {
        lemma_sectioning_bounds(bs, i - 1);
    }
}

/// The section ranges of a document.
fn section_ranges(blocks: &[Block]) -> (secs: Vec<(usize, usize)>)
    ensures
        secs@.map_values(|p: (usize, usize)| (p.0 as int, p.1 as int)) == sections(block_views(blocks@)),
        groups_within(sections(block_views(blocks@)), 0, blocks@.len() as int),
{
    let ghost bs = block_views(blocks@);
    let mut secs: Vec<(usize, usize)> = Vec::new();
    let mut start: usize = 0;
    let mut i: usize = 0;
    while i < blocks.len()
        invariant
            start <= i <= blocks@.len(),
            bs == block_views(blocks@),
            sectioning(bs, i as int).1 == start as int,
            secs@.map_values(|p: (usize, usize)| (p.0 as int, p.1 as int)) == sectioning(bs, i as int).0,
        decreases blocks@.len() - i,
    {
        let heading = blocks[i].element_type == ElementType::Title || blocks[i].element_type == ElementType::Header;
        if heading && start < i {
            let ghost before = secs@;
            secs.push((start, i));
            assert(secs@.map_values(|p: (usize, usize)| (p.0 as int, p.1 as int)) =~= before.map_values(
                |p: (usize, usize)| (p.0 as int, p.1 as int),
            ).push((start as int, i as int)));
            start = i;
        }
        i += 1;
    }
    proof { lemma_sectioning_bounds(bs, blocks@.len() as int); }
    if start < blocks.len() {
        let ghost before = secs@;
        secs.push((start, blocks.len()));
        assert(secs@.map_values(|p: (usize, usize)| (p.0 as int, p.1 as int)) =~= before.map_values(
            |p: (usize, usize)| (p.0 as int, p.1 as int),
        ).push((start as int, blocks@.len() as int)));
    }
    secs
}

/// The texts of the headings among blocks `lo..hi`.
fn collect_heading_texts(blocks: &[Block], lo: usize, hi: usize) -> (h: Vec<String>)
    requires
        lo <= hi <= blocks@.len(),
    ensures
        h.deep_view() == heading_texts(block_views(blocks@).subrange(lo as int, hi as int)),
{
    let ghost bs = block_views(blocks@);
    let mut h: Vec<String> = Vec::new();
    let mut i: usize = lo;
    while i < hi
        invariant
            lo <= i <= hi <= blocks@.len(),
            bs == block_views(blocks@),
            h.deep_view() == heading_texts(bs.subrange(lo as int, i as int)),
        decreases hi - i,
    {
        assert(bs.subrange(lo as int, i + 1).drop_last() =~= bs.subrange(lo as int, i as int));
        if blocks[i].element_type == ElementType::Title || blocks[i].element_type == ElementType::Header {
            let ghost before = h.deep_view();
            h.push(blocks[i].text.clone());
            assert(h.deep_view() =~= before.push(blocks@[i as int].text@));
        }
        i += 1;
    }
    h
}

/// The position of the first heading among `sec`.
fn first_heading(sec: &Vec<Block>) -> (f: usize)
    ensures
        f == first_heading_from(block_views(sec@), 0),
{
    let ghost bs = block_views(sec@);
    let mut k: usize = 0;
    while k < sec.len()
        invariant
            k <= sec@.len(),
            bs == block_views(sec@),
            first_heading_from(bs, 0) == first_heading_from(bs, k as int),
        decreases sec@.len() - k,
    {
        if sec[k].element_type == ElementType::Title || sec[k].element_type == ElementType::Header {
            return k;
        }
        k += 1;
    }
    k
}

/// Whether a list of headings holds some heading.
proof fn lemma_first_heading_exists(sec: Seq<BlockView>, k: int)
    requires
        0 <= k <= sec.len(),
        heading_texts(sec.subrange(k, sec.len() as int)).len() > 0,
    ensures
        k <= first_heading_from(sec, k) < sec.len(),
    decreases sec.len() - k,
{
    if k < sec.len() && !is_heading(sec[k]) {
        let rest = sec.subrange(k + 1, sec.len() as int);
        let here = sec.subrange(k, sec.len() as int);
        lemma_heading_texts_skip(here);
        assert(here.drop_first() =~= rest);
        lemma_first_heading_exists(sec, k + 1);
    } else if k == sec.len() {
        assert(sec.subrange(k, sec.len() as int) =~= seq![]);
    }
}

/// Dropping a first block that is no heading keeps the heading texts.
proof fn lemma_heading_texts_skip(sec: Seq<BlockView>)
    requires
        sec.len() > 0,
        !is_heading(sec[0]),
    ensures
        heading_texts(sec.drop_first()) == heading_texts(sec),
    decreases sec.len(),
{
    if sec.len() > 1 {
        assert(sec.drop_last().drop_first() =~= sec.drop_first().drop_last());
        lemma_heading_texts_skip(sec.drop_last());
        assert(sec.drop_first().last() == sec.last());
    } else {
        assert(sec.drop_first() =~= seq![]);
        assert(sec.drop_last() =~= seq![]);
    }
}

/// The chunk of a section that fits in one chunk.
fn build_section_chunk(blocks: &[Block], lo: usize, hi: usize, text: String, id: usize) -> (c: Chunk)
    requires
        lo <= hi <= blocks@.len(),
        text@ == join_lines(texts_of(block_views(blocks@).subrange(lo as int, hi as int))),
    ensures
        c@ == section_chunk(block_views(blocks@), (lo as int, hi as int), id as nat),
{
    let ghost bs = block_views(blocks@);
    let ghost sec = bs.subrange(lo as int, hi as int);
    assert(block_views(blocks@.subrange(lo as int, hi as int)) =~= sec);
    let token_count = estimate_tokens(text.as_str());
    let (page_start, page_end) = page_range(blocks, lo, hi);
    let mut source_blocks = copy_blocks(blocks, lo, hi);
    let hierarchy = collect_heading_texts(blocks, lo, hi);
    if hierarchy.len() > 0 {
        let f = first_heading(&source_blocks);
        proof {
            assert(sec.subrange(0, sec.len() as int) =~= sec);
            lemma_first_heading_exists(sec, 0);
        }
        let mut b = copy_block(&source_blocks[f]);
        b.hierarchy = hierarchy;
        source_blocks.set(f, b);
        assert(block_views(source_blocks@) =~= with_hierarchy(sec));
    } else {
        assert(block_views(source_blocks@) =~= with_hierarchy(sec));
    }
    Chunk {
        id: make_chunk_id(id),
        text,
        token_count,
        source_blocks,
        page_start,
        page_end,
        overlap_prefix: None,
        source_start: lo,
        source_end: hi,
    }
}

/// Section chunking: a heading closes the open section. A section whose estimated
/// tokens fit `max_tokens` is one chunk, with its heading hierarchy stored in its
/// first heading; a larger one is divided by element-aware chunking. Chunks are
/// numbered in order across sections.
pub fn chunk(blocks: &[Block], max_tokens: usize, overlap: usize) -> (r: Result<Vec<Chunk>, Error>)
    ensures
        r matches Ok(chunks) && chunk_views(chunks@) == title_chunks(block_views(blocks@), max_tokens, overlap),
{
    let ghost bs = block_views(blocks@);
    let ghost mt = max_tokens as nat;
    let ghost ov = overlap as nat;
    let secs = section_ranges(blocks);
    let ghost ss = sections(bs);
    let mut all: Vec<Chunk> = Vec::new();
    let mut k: usize = 0;
    while k < secs.len()
        invariant
            k <= secs@.len(),
            bs == block_views(blocks@),
            ss == sections(bs),
            mt == max_tokens as nat,
            ov == overlap as nat,
            secs@.map_values(|p: (usize, usize)| (p.0 as int, p.1 as int)) == ss,
            groups_within(ss, 0, blocks@.len() as int),
            chunk_views(all@) == chunks_of_sections(bs, ss, k as int, mt, ov),
            k < secs@.len() ==> all@.len() <= ss[k as int].0,
        decreases secs@.len() - k,
    {
        let (lo, hi) = secs[k];
        assert(ss[k as int] == (lo as int, hi as int));
        let text = join_block_texts(blocks, lo, hi);
        assert(block_views(blocks@.subrange(lo as int, hi as int)) =~= bs.subrange(lo as int, hi as int));
        let ghost before = chunk_views(all@);
        assert(before.len() == all@.len());
        if fast_estimate_tokens(text.as_str()) <= max_tokens {
            let id = all.len();
            let c = build_section_chunk(blocks, lo, hi, text, id);
            all.push(c);
            assert(chunk_views(all@) =~= before + seq![c@]);
        } else {
            let first_id = all.len();
            let mut sub = chunk_range(blocks, lo, hi, max_tokens, overlap, first_id);
            let ghost sub_views = chunk_views(sub@);
            all.append(&mut sub);
            assert(chunk_views(all@) =~= before + sub_views);
        }
        proof {
            lemma_structure_groups_bounds(bs, lo as int, hi as int, mt);
            assert(chunks_of_sections(bs, ss, k + 1, mt, ov) == before + chunks_of_section(bs, ss[k as int], before.len(), mt, ov));
            if k + 1 < ss.len() {
                assert(ss[k + 1].0 >= hi);
            }
        }
        k += 1;
    }
    Ok(all)
}


/// Whether no block strictly inside `lo..hi` is a heading: a heading may only open the range.
pub open spec fn heading_only_first(bs: Seq<BlockView>, lo: int, hi: int) -> bool {
    forall|t: int| lo < t < hi ==> !is_heading(#[trigger] bs[t])
}

/// Sections, closed or open, have a heading at most as their first block.
proof fn lemma_sections_heading_first(bs: Seq<BlockView>, i: int)
    requires
        0 <= i <= bs.len(),
    ensures
        forall|r: int| 0 <= r < sectioning(bs, i).0.len() ==> heading_only_first(
            bs,
            (#[trigger] sectioning(bs, i).0[r]).0,
            sectioning(bs, i).0[r].1,
        ),
        heading_only_first(bs, sectioning(bs, i).1, i),
    decreases i,
{
    if i > 0 {
        lemma_sections_heading_first(bs, i - 1);
        lemma_sectioning_bounds(bs, i - 1);
        let st = sectioning(bs, i - 1);
        if is_heading(bs[i - 1]) && st.1 < i - 1 {
            assert forall|r: int| 0 <= r < sectioning(bs, i).0.len() implies heading_only_first(
                bs,
                (#[trigger] sectioning(bs, i).0[r]).0,
                sectioning(bs, i).0[r].1,
            ) by {
                if r < st.0.len() {
                    assert(sectioning(bs, i).0[r] == st.0[r]);
                }
            }
        }
    }
}

/// Whether the chunks are numbered in order from `first_id`, and each lies inside
/// `lo..hi` with a heading at most as its first source.
pub open spec fn chunks_in_order(bs: Seq<BlockView>, cs: Seq<ChunkView>, first_id: nat, lo: int, hi: int) -> bool {
    forall|k: int| 0 <= k < cs.len() ==> {
        let c = #[trigger] cs[k];
        &&& c.id == chunk_id(first_id + k as nat)
        &&& lo <= c.source_start < c.source_end <= hi
        &&& heading_only_first(bs, c.source_start as int, c.source_end as int)
    }
}

/// The chunks of one section are numbered in order and keep headings first.
proof fn lemma_section_chunks_in_order(bs: Seq<BlockView>, s: (int, int), first_id: nat, max_tokens: nat, overlap: nat)
    requires
        0 <= s.0 < s.1 <= bs.len(),
        bs.len() <= usize::MAX,
        heading_only_first(bs, s.0, s.1),
    ensures
        chunks_in_order(bs, chunks_of_section(bs, s, first_id, max_tokens, overlap), first_id, s.0, s.1),
{
    let out = chunks_of_section(bs, s, first_id, max_tokens, overlap);
    if fast_tokens(join_lines(texts_of(bs.subrange(s.0, s.1)))) > max_tokens {
        let gs = structure_groups(bs, s.0, s.1, max_tokens);
        lemma_structure_groups_bounds(bs, s.0, s.1, max_tokens);
        assert forall|k: int| 0 <= k < out.len() implies {
            let c = #[trigger] out[k];
            &&& c.id == chunk_id(first_id + k as nat)
            &&& s.0 <= c.source_start < c.source_end <= s.1
            &&& heading_only_first(bs, c.source_start as int, c.source_end as int)
        } by {
            let g = gs[k];
            assert(s.0 <= g.0 && g.0 < g.1 && g.1 <= s.1);
            assert(out[k].source_start == g.0 && out[k].source_end == g.1);
        }
    }
}

/// The chunks of the first `k` sections are numbered in order and keep headings first.
proof fn lemma_sections_chunks_in_order(bs: Seq<BlockView>, ss: Seq<(int, int)>, k: int, max_tokens: nat, overlap: nat)
    requires
        0 <= k <= ss.len(),
        bs.len() <= usize::MAX,
        forall|r: int| 0 <= r < ss.len() ==> 0 <= (#[trigger] ss[r]).0 < ss[r].1 <= bs.len() && heading_only_first(bs, ss[r].0, ss[r].1),
    ensures
        chunks_in_order(bs, chunks_of_sections(bs, ss, k, max_tokens, overlap), 0, 0, bs.len() as int),
    decreases k,
{
    if k > 0 {
        lemma_sections_chunks_in_order(bs, ss, k - 1, max_tokens, overlap);
        let before = chunks_of_sections(bs, ss, k - 1, max_tokens, overlap);
        let here = chunks_of_section(bs, ss[k - 1], before.len(), max_tokens, overlap);
        lemma_section_chunks_in_order(bs, ss[k - 1], before.len(), max_tokens, overlap);
        let all = chunks_of_sections(bs, ss, k, max_tokens, overlap);
        assert(all == before + here);
        assert forall|j: int| 0 <= j < all.len() implies {
            let c = #[trigger] all[j];
            &&& c.id == chunk_id(0 + j as nat)
            &&& 0 <= c.source_start < c.source_end <= bs.len()
            &&& heading_only_first(bs, c.source_start as int, c.source_end as int)
        } by {
            if j < before.len() {
                assert(all[j] == before[j]);
            } else {
                assert(all[j] == here[j - before.len()]);
            }
        }
    }
}

/// Section chunks are numbered in order, and a heading only ever opens a chunk:
/// no chunk holds a title or header after its first source block.
pub proof fn law_title_chunks_headings_open(bs: Seq<BlockView>, max_tokens: usize, overlap: usize)
    requires
        bs.len() <= usize::MAX,
    ensures
        chunks_in_order(bs, title_chunks(bs, max_tokens, overlap), 0, 0, bs.len() as int),
{
    let n = bs.len() as int;
    let ss = sections(bs);
    lemma_sections_heading_first(bs, n);
    lemma_sectioning_bounds(bs, n);
    let st = sectioning(bs, n);
    assert forall|r: int| 0 <= r < ss.len() implies 0 <= (#[trigger] ss[r]).0 < ss[r].1 <= bs.len() && heading_only_first(
        bs,
        ss[r].0,
        ss[r].1,
    ) by {
        if r < st.0.len() {
            assert(ss[r] == st.0[r]);
        }
    }
    lemma_sections_chunks_in_order(bs, ss, ss.len() as int, max_tokens as nat, overlap as nat);
}


/// The source ranges of the chunks of a section cover the section.
proof fn lemma_section_chunk_sources(bs: Seq<BlockView>, s: (int, int), first_id: nat, max_tokens: nat, overlap: nat)
    requires
        0 <= s.0 < s.1 <= bs.len(),
        bs.len() <= usize::MAX,
    ensures
        groups_within(source_ranges(chunks_of_section(bs, s, first_id, max_tokens, overlap)), s.0, s.1),
{
    let out = chunks_of_section(bs, s, first_id, max_tokens, overlap);
    if fast_tokens(join_lines(texts_of(bs.subrange(s.0, s.1)))) <= max_tokens {
        assert(source_ranges(out) =~= seq![(s.0, s.1)]);
    } else {
        lemma_structure_range_sources(bs, s.0, s.1, max_tokens, overlap, first_id);
    }
}

/// The source ranges of the chunks of the first `k` sections cover the blocks up to the end of section `k - 1`.
proof fn lemma_sections_chunk_sources(bs: Seq<BlockView>, secs: Seq<(int, int)>, k: int, max_tokens: nat, overlap: nat)
    requires
        0 <= k <= secs.len(),
        bs.len() <= usize::MAX,
        groups_within(secs, 0, bs.len() as int),
    ensures
        groups_within(
            source_ranges(chunks_of_sections(bs, secs, k, max_tokens, overlap)),
            0,
            if k == 0 { 0 } else { secs[k - 1].1 },
        ),
    decreases k,
{
    if k > 0 {
        lemma_sections_chunk_sources(bs, secs, k - 1, max_tokens, overlap);
        let before = chunks_of_sections(bs, secs, k - 1, max_tokens, overlap);
        let here = chunks_of_section(bs, secs[k - 1], before.len(), max_tokens, overlap);
        lemma_section_chunk_sources(bs, secs[k - 1], before.len(), max_tokens, overlap);
        let mid = if k - 1 == 0 { 0 } else { secs[k - 2].1 };
        if k - 1 > 0 {
            assert(secs[k - 2].1 == secs[k - 1].0);
        } else {
            assert(secs[0].0 == 0);
        }
        assert(source_ranges(before + here) =~= source_ranges(before) + source_ranges(here));
        lemma_groups_concat(source_ranges(before), source_ranges(here), 0, mid, secs[k - 1].1);
    }
}

/// Section chunking loses and repeats no block: the chunks' source ranges are
/// non-empty, follow one another and cover the document.
pub proof fn law_title_chunks_partition(bs: Seq<BlockView>, max_tokens: usize, overlap: usize)
    requires
        bs.len() <= usize::MAX,
    ensures
        groups_within(source_ranges(title_chunks(bs, max_tokens, overlap)), 0, bs.len() as int),
{
    let n = bs.len() as int;
    let secs = sections(bs);
    lemma_sectioning_bounds(bs, n);
    let st = sectioning(bs, n);
    if st.1 < n {
        lemma_groups_concat(st.0, seq![(st.1, n)], 0, st.1, n);
        assert(secs == st.0 + seq![(st.1, n)]);
    } else {
        assert(secs == st.0);
    }
    lemma_sections_chunk_sources(bs, secs, secs.len() as int, max_tokens as nat, overlap as nat);
}


/// Without overlap, the chunks of a section joined with newlines are its blocks'
/// texts joined with newlines.
proof fn lemma_section_keep_content(bs: Seq<BlockView>, s: (int, int), first_id: nat, max_tokens: nat)
    requires
        0 <= s.0 < s.1 <= bs.len(),
    ensures
        join_lines(chunk_texts(chunks_of_section(bs, s, first_id, max_tokens, 0))) == join_lines(
            texts_of(bs.subrange(s.0, s.1)),
        ),
        chunks_of_section(bs, s, first_id, max_tokens, 0).len() > 0,
{
    let out = chunks_of_section(bs, s, first_id, max_tokens, 0);
    if fast_tokens(join_lines(texts_of(bs.subrange(s.0, s.1)))) <= max_tokens {
        assert(chunk_texts(out) =~= seq![join_lines(texts_of(bs.subrange(s.0, s.1)))]);
    } else {
        lemma_structure_range_keep_content(bs, s.0, s.1, max_tokens, first_id);
    }
}

/// Without overlap, the chunks of the first `k` sections joined with newlines are
/// the texts of the blocks up to the end of section `k - 1` joined with newlines.
proof fn lemma_sections_keep_content(bs: Seq<BlockView>, secs: Seq<(int, int)>, k: int, max_tokens: nat)
    requires
        0 <= k <= secs.len(),
        groups_within(secs, 0, bs.len() as int),
    ensures
        join_lines(chunk_texts(chunks_of_sections(bs, secs, k, max_tokens, 0))) == join_lines(
            texts_of(bs.subrange(0, if k == 0 { 0 } else { secs[k - 1].1 })),
        ),
        k > 0 ==> chunks_of_sections(bs, secs, k, max_tokens, 0).len() > 0,
    decreases k,
{
    if k > 0 {
        lemma_sections_keep_content(bs, secs, k - 1, max_tokens);
        let before = chunks_of_sections(bs, secs, k - 1, max_tokens, 0);
        let here = chunks_of_section(bs, secs[k - 1], before.len(), max_tokens, 0);
        let sec = secs[k - 1];
        assert(0 <= sec.0 && sec.0 < sec.1 && sec.1 <= bs.len());
        lemma_section_keep_content(bs, sec, before.len(), max_tokens);
        let all = chunks_of_sections(bs, secs, k, max_tokens, 0);
        assert(all == before + here);
        assert(chunk_texts(all) =~= chunk_texts(before) + chunk_texts(here));
        if k - 1 == 0 {
            assert(sec.0 == 0);
            assert(before.len() == 0);
            assert(chunk_texts(all) =~= chunk_texts(here));
        } else {
            let mid = secs[k - 2].1;
            assert(mid == sec.0);
            assert(secs[0].0 == 0 && secs[0].0 < secs[0].1 && secs[0].1 <= mid) by {
                assert(secs[0].1 <= secs[k - 2].1 || k - 2 == 0);
            }
            lemma_join_concat(chunk_texts(before), chunk_texts(here));
            assert(texts_of(bs.subrange(0, sec.1)) =~= texts_of(bs.subrange(0, mid)) + texts_of(bs.subrange(mid, sec.1)));
            lemma_join_concat(texts_of(bs.subrange(0, mid)), texts_of(bs.subrange(mid, sec.1)));
        }
    }
}

/// Section chunking keeps all content: without overlap, the chunks' texts
/// joined with newlines are the blocks' texts joined with newlines.
pub proof fn law_title_chunks_keep_content(bs: Seq<BlockView>, max_tokens: usize)
    ensures
        join_lines(chunk_texts(title_chunks(bs, max_tokens, 0))) == join_lines(texts_of(bs)),
{
    let n = bs.len() as int;
    let secs = sections(bs);
    lemma_sectioning_bounds(bs, n);
    let st = sectioning(bs, n);
    if st.1 < n {
        lemma_groups_concat(st.0, seq![(st.1, n)], 0, st.1, n);
        assert(secs == st.0 + seq![(st.1, n)]);
    } else {
        assert(secs == st.0);
    }
    lemma_sections_keep_content(bs, secs, secs.len() as int, max_tokens as nat);
    assert(bs.subrange(0, n) =~= bs);
    if secs.len() == 0 {
        assert(n == 0);
        assert(texts_of(bs) =~= Seq::<Seq<char>>::empty());
        assert(bs.subrange(0, 0) =~= bs);
    }
}

} // verus!
