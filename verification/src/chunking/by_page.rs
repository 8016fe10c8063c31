use vstd::prelude::*;
use crate::chunking::by_structure::{
    chunk_range, flat_sources, groups_within, lemma_flat_sources_cover, lemma_groups_concat,
    lemma_structure_groups_bounds, lemma_structure_range_sources, sources_match,
    structure_chunks_range, structure_groups,
};
use crate::chunking::{
    chunk_id, estimate_tokens, fast_estimate_tokens, fast_tokens, join_block_texts, join_lines,
    make_chunk_id, source_ranges, texts_of, token_count_spec,
};
use crate::model::{block_views, chunk_views, copy_blocks, Block, BlockView, Chunk, ChunkView};
use crate::Error;

verus! {

/// The page runs after blocks `0..i`: the closed runs, as index ranges, and the
/// start of the open one. A block on another page than the one before it opens a run.
pub open spec fn page_grouping(bs: Seq<BlockView>, i: int) -> (Seq<(int, int)>, int)
    decreases i,
{
    if i <= 0 {
        (seq![], 0)
    } else {
        let st = page_grouping(bs, i - 1);
        if st.1 < i - 1 && bs[i - 1].page != bs[i - 2].page {
            (st.0.push((st.1, i - 1)), i - 1)
        } else {
            st
        }
    }
}

/// The runs of consecutive blocks on one page, as index ranges, in order.
pub open spec fn page_runs(bs: Seq<BlockView>) -> Seq<(int, int)> {
    let st = page_grouping(bs, bs.len() as int);
    if st.1 < bs.len() { st.0.push((st.1, bs.len() as int)) } else { st.0 }
}

/// A chunk put on the page of its run.
pub open spec fn on_page(c: ChunkView, page: u32) -> ChunkView {
    ChunkView { page_start: page, page_end: page, ..c }
}

/// The chunks of a page run, numbered from `first_id`: one when its estimated
/// tokens fit `max_tokens`, else its element-aware chunks, each put on the run's page.
pub open spec fn chunks_of_run(bs: Seq<BlockView>, s: (int, int), first_id: nat, max_tokens: nat, overlap: nat) -> Seq<ChunkView> {
    let run = bs.subrange(s.0, s.1);
    let text = join_lines(texts_of(run));
    let page = bs[s.0].page;
    if fast_tokens(text) <= max_tokens {
        seq![ChunkView {
            id: chunk_id(first_id),
            text,
            token_count: token_count_spec(text),
            source_blocks: run,
            page_start: page,
            page_end: page,
            overlap_prefix: None,
            source_start: s.0 as usize,
            source_end: s.1 as usize,
        }]
    } else {
        structure_chunks_range(bs, s.0, s.1, max_tokens, overlap, first_id).map_values(
            |c: ChunkView| on_page(c, page),
        )
    }
}

/// The chunks of the first `k` runs.
pub open spec fn chunks_of_runs(bs: Seq<BlockView>, runs: Seq<(int, int)>, k: int, max_tokens: nat, overlap: nat) -> Seq<ChunkView>
    decreases k,
{
    if k <= 0 {
        seq![]
    } else {
        let before = chunks_of_runs(bs, runs, k - 1, max_tokens, overlap);
        before + chunks_of_run(bs, runs[k - 1], before.len(), max_tokens, overlap)
    }
}

/// The page chunks of a document.
pub open spec fn page_chunks(bs: Seq<BlockView>, max_tokens: usize, overlap: usize) -> Seq<ChunkView> {
    let runs = page_runs(bs);
    chunks_of_runs(bs, runs, runs.len() as int, max_tokens as nat, overlap as nat)
}

/// The page grouping state is well formed.
pub proof fn lemma_page_grouping_bounds(bs: Seq<BlockView>, i: int)
    requires
        0 <= i,
    ensures
        0 <= page_grouping(bs, i).1 <= i,
        groups_within(page_grouping(bs, i).0, 0, page_grouping(bs, i).1),
    decreases i,
{
    if i > 0 {
        lemma_page_grouping_bounds(bs, i - 1);
    }
}

/// The page run ranges of a document.
fn run_ranges(blocks: &[Block]) -> (runs: Vec<(usize, usize)>)
    ensures
        runs@.map_values(|p: (usize, usize)| (p.0 as int, p.1 as int)) == page_runs(block_views(blocks@)),
        groups_within(page_runs(block_views(blocks@)), 0, blocks@.len() as int),
{
    let ghost bs = block_views(blocks@);
    let mut runs: Vec<(usize, usize)> = Vec::new();
    let mut start: usize = 0;
    let mut i: usize = 0;
    while i < blocks.len()
        invariant
            start <= i <= blocks@.len(),
            bs == block_views(blocks@),
            page_grouping(bs, i as int).1 == start as int,
            runs@.map_values(|p: (usize, usize)| (p.0 as int, p.1 as int)) == page_grouping(bs, i as int).0,
        decreases blocks@.len() - i,
    {
        if start < i && blocks[i].page != blocks[i - 1].page {
            let ghost before = runs@;
            runs.push((start, i));
            assert(runs@.map_values(|p: (usize, usize)| (p.0 as int, p.1 as int)) =~= before.map_values(
                |p: (usize, usize)| (p.0 as int, p.1 as int),
            ).push((start as int, i as int)));
            start = i;
        }
        i += 1;
    }
    proof { lemma_page_grouping_bounds(bs, blocks@.len() as int); }
    if start < blocks.len() {
        let ghost before = runs@;
        runs.push((start, blocks.len()));
        assert(runs@.map_values(|p: (usize, usize)| (p.0 as int, p.1 as int)) =~= before.map_values(
            |p: (usize, usize)| (p.0 as int, p.1 as int),
        ).push((start as int, blocks@.len() as int)));
    }
    runs
}

/// Page chunking: consecutive blocks on one page form a run, and no chunk spans
/// two runs. A run whose estimated tokens fit `max_tokens` is one chunk; a larger
/// one is divided by element-aware chunking, each part put on the run's page.
pub fn chunk(blocks: &[Block], max_tokens: usize, overlap: usize) -> (r: Result<Vec<Chunk>, Error>)
    ensures
        r matches Ok(chunks) && chunk_views(chunks@) == page_chunks(block_views(blocks@), max_tokens, overlap),
{
    let ghost bs = block_views(blocks@);
    let ghost mt = max_tokens as nat;
    let ghost ov = overlap as nat;
    let runs = run_ranges(blocks);
    let ghost rs = page_runs(bs);
    let mut all: Vec<Chunk> = Vec::new();
    let mut k: usize = 0;
    while k < runs.len()
        invariant
            k <= runs@.len(),
            bs == block_views(blocks@),
            rs == page_runs(bs),
            mt == max_tokens as nat,
            ov == overlap as nat,
            runs@.map_values(|p: (usize, usize)| (p.0 as int, p.1 as int)) == rs,
            groups_within(rs, 0, blocks@.len() as int),
            chunk_views(all@) == chunks_of_runs(bs, rs, k as int, mt, ov),
            k < runs@.len() ==> all@.len() <= rs[k as int].0,
        decreases runs@.len() - k,
    {
        let (lo, hi) = runs[k];
        assert(rs[k as int] == (lo as int, hi as int));
        let page = blocks[lo].page;
        let text = join_block_texts(blocks, lo, hi);
        assert(block_views(blocks@.subrange(lo as int, hi as int)) =~= bs.subrange(lo as int, hi as int));
        let ghost before = chunk_views(all@);
        assert(before.len() == all@.len());
        if fast_estimate_tokens(text.as_str()) <= max_tokens {
            let token_count = estimate_tokens(text.as_str());
            let c = Chunk {
                id: make_chunk_id(all.len()),
                text,
                token_count,
                source_blocks: copy_blocks(blocks, lo, hi),
                page_start: page,
                page_end: page,
                overlap_prefix: None,
                source_start: lo,
                source_end: hi,
            };
            all.push(c);
            assert(chunk_views(all@) =~= before + seq![c@]);
        } else {
            let first_id = all.len();
            let sub = chunk_range(blocks, lo, hi, max_tokens, overlap, first_id);
            let ghost sub_views = chunk_views(sub@);
            let mut j: usize = 0;
            while j < sub.len()
                invariant
                    j <= sub@.len(),
                    sub_views == chunk_views(sub@),
                    chunk_views(all@) == before + sub_views.take(j as int).map_values(|c: ChunkView| on_page(c, page)),
                decreases sub@.len() - j,
            {
                let mut c = crate::chunking::copy_chunk(&sub[j]);
                c.page_start = page;
                c.page_end = page;
                let ghost prev = chunk_views(all@);
                all.push(c);
                assert(chunk_views(all@) =~= prev.push(c@));
                assert(sub_views.take(j + 1).map_values(|c: ChunkView| on_page(c, page)) =~= sub_views.take(
                    j as int,
                ).map_values(|c: ChunkView| on_page(c, page)).push(on_page(sub_views[j as int], page)));
                j += 1;
            }
            assert(sub_views.take(sub@.len() as int) =~= sub_views);
        }
        proof {
            lemma_structure_groups_bounds(bs, lo as int, hi as int, mt);
            assert(chunks_of_runs(bs, rs, k + 1, mt, ov) == before + chunks_of_run(bs, rs[k as int], before.len(), mt, ov));
            if k + 1 < rs.len() {
                assert(rs[k + 1].0 >= hi);
            }
        }
        k += 1;
    }
    Ok(all)
}


/// Whether blocks `lo..hi` are all on the page of block `lo`.
pub open spec fn one_page(bs: Seq<BlockView>, lo: int, hi: int) -> bool {
    forall|t: int| lo <= t < hi ==> #[trigger] bs[t].page == bs[lo].page
}

/// Whether a chunk lies on one page: its page range is a single page, the page of all its sources.
pub open spec fn on_one_page(c: ChunkView) -> bool {
    &&& c.page_start == c.page_end
    &&& forall|t: int| 0 <= t < c.source_blocks.len() ==> (#[trigger] c.source_blocks[t]).page == c.page_start
}

/// Every page run, closed or open, holds blocks of one page.
proof fn lemma_runs_one_page(bs: Seq<BlockView>, i: int)
    requires
        0 <= i <= bs.len(),
    ensures
        forall|r: int| 0 <= r < page_grouping(bs, i).0.len() ==> one_page(
            bs,
            (#[trigger] page_grouping(bs, i).0[r]).0,
            page_grouping(bs, i).0[r].1,
        ),
        one_page(bs, page_grouping(bs, i).1, i),
    decreases i,
{
    if i > 0 {
        lemma_runs_one_page(bs, i - 1);
        lemma_page_grouping_bounds(bs, i - 1);
        let st = page_grouping(bs, i - 1);
        if st.1 < i - 1 && bs[i - 1].page != bs[i - 2].page {
            assert forall|r: int| 0 <= r < page_grouping(bs, i).0.len() implies one_page(
                bs,
                (#[trigger] page_grouping(bs, i).0[r]).0,
                page_grouping(bs, i).0[r].1,
            ) by {
                if r < st.0.len() {
                    assert(page_grouping(bs, i).0[r] == st.0[r]);
                }
            }
        } else {
            assert forall|t: int| st.1 <= t < i implies #[trigger] bs[t].page == bs[st.1].page by {
                if t == i - 1 && st.1 < i - 1 {
                    assert(bs[i - 2].page == bs[st.1].page);
                }
            }
        }
    }
}

/// The element-aware chunks of a run of one page, put on that page, lie on it.
#[verifier::spinoff_prover]
#[verifier::rlimit(40)]
proof fn lemma_sub_chunks_one_page(bs: Seq<BlockView>, s: (int, int), first_id: nat, max_tokens: nat, overlap: nat)
    requires
        0 <= s.0 < s.1 <= bs.len(),
        one_page(bs, s.0, s.1),
    ensures
        forall|k: int| 0 <= k < structure_chunks_range(bs, s.0, s.1, max_tokens, overlap, first_id).len() ==> on_one_page(
            on_page(#[trigger] structure_chunks_range(bs, s.0, s.1, max_tokens, overlap, first_id)[k], bs[s.0].page),
        ),
{
    let gs = structure_groups(bs, s.0, s.1, max_tokens);
    lemma_structure_groups_bounds(bs, s.0, s.1, max_tokens);
    let cs = structure_chunks_range(bs, s.0, s.1, max_tokens, overlap, first_id);
    assert forall|k: int| 0 <= k < cs.len() implies on_one_page(on_page(#[trigger] cs[k], bs[s.0].page)) by {
        let c = on_page(cs[k], bs[s.0].page);
        let g = gs[k];
        assert(s.0 <= g.0 && g.0 < g.1 && g.1 <= s.1);
        assert(c.source_blocks == bs.subrange(g.0, g.1));
        assert forall|t: int| 0 <= t < c.source_blocks.len() implies (#[trigger] c.source_blocks[t]).page == c.page_start by {
            assert(c.source_blocks[t] == bs[g.0 + t]);
        }
    }
}

/// The chunks of a run of one page lie on that page.
proof fn lemma_run_chunks_one_page(bs: Seq<BlockView>, s: (int, int), first_id: nat, max_tokens: nat, overlap: nat)
    requires
        0 <= s.0 < s.1 <= bs.len(),
        one_page(bs, s.0, s.1),
    ensures
        forall|k: int| 0 <= k < chunks_of_run(bs, s, first_id, max_tokens, overlap).len() ==> on_one_page(
            #[trigger] chunks_of_run(bs, s, first_id, max_tokens, overlap)[k],
        ),
{
    let page = bs[s.0].page;
    let run = bs.subrange(s.0, s.1);
    let out = chunks_of_run(bs, s, first_id, max_tokens, overlap);
    if fast_tokens(join_lines(texts_of(run))) <= max_tokens {
        let c = out[0];
        assert(c.source_blocks == run);
        assert forall|t: int| 0 <= t < c.source_blocks.len() implies (#[trigger] c.source_blocks[t]).page == c.page_start by {
            assert(c.source_blocks[t] == bs[s.0 + t]);
        }
        assert(out.len() == 1);
    } else {
        let cs = structure_chunks_range(bs, s.0, s.1, max_tokens, overlap, first_id);
        assert(out == cs.map_values(|c: ChunkView| on_page(c, page)));
        lemma_sub_chunks_one_page(bs, s, first_id, max_tokens, overlap);
        assert forall|k: int| 0 <= k < out.len() implies on_one_page(#[trigger] out[k]) by {
            assert(out[k] == on_page(cs[k], page));
        }
    }
}

/// The chunks of the first `k` runs lie each on one page.
proof fn lemma_runs_chunks_one_page(bs: Seq<BlockView>, rs: Seq<(int, int)>, k: int, max_tokens: nat, overlap: nat)
    requires
        0 <= k <= rs.len(),
        forall|r: int| 0 <= r < rs.len() ==> 0 <= (#[trigger] rs[r]).0 < rs[r].1 <= bs.len() && one_page(bs, rs[r].0, rs[r].1),
    ensures
        forall|j: int| 0 <= j < chunks_of_runs(bs, rs, k, max_tokens, overlap).len() ==> on_one_page(
            #[trigger] chunks_of_runs(bs, rs, k, max_tokens, overlap)[j],
        ),
    decreases k,
{
    if k > 0 {
        lemma_runs_chunks_one_page(bs, rs, k - 1, max_tokens, overlap);
        let before = chunks_of_runs(bs, rs, k - 1, max_tokens, overlap);
        let here = chunks_of_run(bs, rs[k - 1], before.len(), max_tokens, overlap);
        lemma_run_chunks_one_page(bs, rs[k - 1], before.len(), max_tokens, overlap);
        assert forall|j: int| 0 <= j < chunks_of_runs(bs, rs, k, max_tokens, overlap).len() implies on_one_page(
            #[trigger] chunks_of_runs(bs, rs, k, max_tokens, overlap)[j],
        ) by {
            if j < before.len() {
                assert(chunks_of_runs(bs, rs, k, max_tokens, overlap)[j] == before[j]);
            } else {
                assert(chunks_of_runs(bs, rs, k, max_tokens, overlap)[j] == here[j - before.len()]);
            }
        }
    }
}

/// No page chunk spans two pages: each chunk's page range is one page, and
/// every source block of the chunk is on that page.
pub proof fn law_page_chunks_one_page(bs: Seq<BlockView>, max_tokens: usize, overlap: usize)
    ensures
        forall|k: int| 0 <= k < page_chunks(bs, max_tokens, overlap).len() ==> on_one_page(
            #[trigger] page_chunks(bs, max_tokens, overlap)[k],
        ),
{
    let n = bs.len() as int;
    let rs = page_runs(bs);
    lemma_runs_one_page(bs, n);
    lemma_page_grouping_bounds(bs, n);
    let st = page_grouping(bs, n);
    assert forall|r: int| 0 <= r < rs.len() implies 0 <= (#[trigger] rs[r]).0 < rs[r].1 <= bs.len() && one_page(
        bs,
        rs[r].0,
        rs[r].1,
    ) by {
        if r < st.0.len() {
            assert(rs[r] == st.0[r]);
        }
    }
    lemma_runs_chunks_one_page(bs, rs, rs.len() as int, max_tokens as nat, overlap as nat);
}


/// Whether chunks are numbered in order from `first_id`.
pub open spec fn numbered_from(cs: Seq<ChunkView>, first_id: nat) -> bool {
    forall|k: int| 0 <= k < cs.len() ==> (#[trigger] cs[k]).id == chunk_id(first_id + k as nat)
}

/// The chunks of the first `k` runs are numbered in order.
proof fn lemma_runs_chunks_numbered(bs: Seq<BlockView>, rs: Seq<(int, int)>, k: int, max_tokens: nat, overlap: nat)
    requires
        0 <= k <= rs.len(),
    ensures
        numbered_from(chunks_of_runs(bs, rs, k, max_tokens, overlap), 0),
    decreases k,
{
    if k > 0 {
        lemma_runs_chunks_numbered(bs, rs, k - 1, max_tokens, overlap);
        let before = chunks_of_runs(bs, rs, k - 1, max_tokens, overlap);
        let here = chunks_of_run(bs, rs[k - 1], before.len(), max_tokens, overlap);
        let all = chunks_of_runs(bs, rs, k, max_tokens, overlap);
        assert(all == before + here);
        assert forall|j: int| 0 <= j < all.len() implies (#[trigger] all[j]).id == chunk_id(0 + j as nat) by {
            if j < before.len() {
                assert(all[j] == before[j]);
            } else {
                assert(all[j] == here[j - before.len()]);
            }
        }
    }
}

/// Page chunks are numbered in order: the chunk at position `k` is `chunk-k`.
pub proof fn law_page_chunks_numbered(bs: Seq<BlockView>, max_tokens: usize, overlap: usize)
    ensures
        numbered_from(page_chunks(bs, max_tokens, overlap), 0),
{
    let rs = page_runs(bs);
    lemma_runs_chunks_numbered(bs, rs, rs.len() as int, max_tokens as nat, overlap as nat);
}


/// The source ranges of the chunks of a run cover the run.
proof fn lemma_run_chunk_sources(bs: Seq<BlockView>, s: (int, int), first_id: nat, max_tokens: nat, overlap: nat)
    requires
        0 <= s.0 < s.1 <= bs.len(),
        bs.len() <= usize::MAX,
    ensures
        groups_within(source_ranges(chunks_of_run(bs, s, first_id, max_tokens, overlap)), s.0, s.1),
        sources_match(bs, chunks_of_run(bs, s, first_id, max_tokens, overlap)),
{
    let page = bs[s.0].page;
    let run = bs.subrange(s.0, s.1);
    let out = chunks_of_run(bs, s, first_id, max_tokens, overlap);
    if fast_tokens(join_lines(texts_of(run))) <= max_tokens {
        assert(source_ranges(out) =~= seq![(s.0, s.1)]);
    } else {
        let cs = structure_chunks_range(bs, s.0, s.1, max_tokens, overlap, first_id);
        let gs = structure_groups(bs, s.0, s.1, max_tokens);
        lemma_structure_range_sources(bs, s.0, s.1, max_tokens, overlap, first_id);
        assert(out == cs.map_values(|c: ChunkView| on_page(c, page)));
        assert(source_ranges(out) =~= source_ranges(cs));
        assert forall|k: int| 0 <= k < out.len() implies (#[trigger] out[k]).source_blocks == bs.subrange(
            out[k].source_start as int,
            out[k].source_end as int,
        ) by {
            assert(out[k] == on_page(cs[k], page));
            assert(s.0 <= gs[k].0 && gs[k].1 <= s.1);
        }
    }
}

/// The source ranges of the chunks of the first `k` runs cover the blocks up to the end of run `k - 1`.
proof fn lemma_runs_chunk_sources(bs: Seq<BlockView>, rs: Seq<(int, int)>, k: int, max_tokens: nat, overlap: nat)
    requires
        0 <= k <= rs.len(),
        bs.len() <= usize::MAX,
        groups_within(rs, 0, bs.len() as int),
    ensures
        groups_within(
            source_ranges(chunks_of_runs(bs, rs, k, max_tokens, overlap)),
            0,
            if k == 0 { 0 } else { rs[k - 1].1 },
        ),
        sources_match(bs, chunks_of_runs(bs, rs, k, max_tokens, overlap)),
    decreases k,
{
    if k > 0 {
        lemma_runs_chunk_sources(bs, rs, k - 1, max_tokens, overlap);
        let before = chunks_of_runs(bs, rs, k - 1, max_tokens, overlap);
        let here = chunks_of_run(bs, rs[k - 1], before.len(), max_tokens, overlap);
        lemma_run_chunk_sources(bs, rs[k - 1], before.len(), max_tokens, overlap);
        let mid = if k - 1 == 0 { 0 } else { rs[k - 2].1 };
        if k - 1 > 0 {
            assert(rs[k - 2].1 == rs[k - 1].0);
        } else {
            assert(rs[0].0 == 0);
        }
        assert(source_ranges(before + here) =~= source_ranges(before) + source_ranges(here));
        lemma_groups_concat(source_ranges(before), source_ranges(here), 0, mid, rs[k - 1].1);
        let all = chunks_of_runs(bs, rs, k, max_tokens, overlap);
        assert(all == before + here);
        assert forall|j: int| 0 <= j < all.len() implies (#[trigger] all[j]).source_blocks == bs.subrange(
            all[j].source_start as int,
            all[j].source_end as int,
        ) by {
            if j < before.len() {
                assert(all[j] == before[j]);
            } else {
                assert(all[j] == here[j - before.len()]);
            }
        }
    }
}

/// Page chunking loses and repeats no block: the chunks' source ranges are
/// non-empty, follow one another and cover the document.
pub proof fn law_page_chunks_partition(bs: Seq<BlockView>, max_tokens: usize, overlap: usize)
    requires
        bs.len() <= usize::MAX,
    ensures
        groups_within(source_ranges(page_chunks(bs, max_tokens, overlap)), 0, bs.len() as int),
{
    let n = bs.len() as int;
    let rs = page_runs(bs);
    lemma_page_grouping_bounds(bs, n);
    let st = page_grouping(bs, n);
    if st.1 < n {
        lemma_groups_concat(st.0, seq![(st.1, n)], 0, st.1, n);
        assert(rs == st.0 + seq![(st.1, n)]);
    } else {
        assert(rs == st.0);
    }
    lemma_runs_chunk_sources(bs, rs, rs.len() as int, max_tokens as nat, overlap as nat);
}


/// Page chunking in full: every chunk lies on one page, chunks are numbered
/// `chunk-0`, `chunk-1`, ..., and their source blocks put end to end are the blocks.
pub proof fn law_page_chunks_flat_sources(bs: Seq<BlockView>, max_tokens: usize, overlap: usize)
    requires
        bs.len() <= usize::MAX,
    ensures
        flat_sources(page_chunks(bs, max_tokens, overlap)) == bs,
        forall|k: int| 0 <= k < page_chunks(bs, max_tokens, overlap).len() ==> on_one_page(
            #[trigger] page_chunks(bs, max_tokens, overlap)[k],
        ),
        numbered_from(page_chunks(bs, max_tokens, overlap), 0),
{
    let n = bs.len() as int;
    let rs = page_runs(bs);
    lemma_page_grouping_bounds(bs, n);
    let st = page_grouping(bs, n);
    if st.1 < n {
        lemma_groups_concat(st.0, seq![(st.1, n)], 0, st.1, n);
        assert(rs == st.0 + seq![(st.1, n)]);
    } else {
        assert(rs == st.0);
    }
    lemma_runs_chunk_sources(bs, rs, rs.len() as int, max_tokens as nat, overlap as nat);
    law_page_chunks_partition(bs, max_tokens, overlap);
    lemma_flat_sources_cover(bs, page_chunks(bs, max_tokens, overlap));
    law_page_chunks_one_page(bs, max_tokens, overlap);
    law_page_chunks_numbered(bs, max_tokens, overlap);
}

} // verus!
