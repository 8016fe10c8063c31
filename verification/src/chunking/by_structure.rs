use vstd::prelude::*;
use crate::chunking::{
    chunk_ids, chunk_texts, lemma_join_concat, source_ranges,
    chunk_id, estimate_tokens, fast_estimate_tokens, fast_tokens, join_block_texts, join_lines,
    make_chunk_id, max_page, min_page, page_range, texts_of, token_count_spec,
};
use crate::model::{block_views, chunk_views, copy_blocks, Block, BlockView, Chunk, ChunkView, ElementType};
use crate::config::opt_text;
use crate::strings::push_char;
use crate::Error;

verus! {

/// Tables and code blocks are never split across chunks.
pub open spec fn is_unsplittable(b: BlockView) -> bool {
    b.element_type == ElementType::Table || b.element_type == ElementType::CodeBlock
}

/// The grouping state after blocks `lo..i`: the closed groups, as index ranges,
/// the start of the open group, and the estimated tokens of the open group.
/// A block is added to the open group unless that would pass `max_tokens` and
/// the group holds something; an unsplittable block over `max_tokens` closes
/// the open group and forms a group of its own.
pub open spec fn grouping(bs: Seq<BlockView>, lo: int, i: int, max_tokens: nat) -> (Seq<(int, int)>, int, nat)
    decreases i - lo,
{
    if i <= lo {
        (seq![], lo, 0)
    } else {
        let st = grouping(bs, lo, i - 1, max_tokens);
        let j = i - 1;
        let t = fast_tokens(bs[j].text);
        if is_unsplittable(bs[j]) && t > max_tokens {
            ((if st.1 < j { st.0.push((st.1, j)) } else { st.0 }).push((j, i)), i, 0)
        } else if st.2 + t > max_tokens && st.1 < j {
            (st.0.push((st.1, j)), j, t)
        } else {
            (st.0, st.1, st.2 + t)
        }
    }
}

/// The groups of blocks `lo..hi`, as index ranges, in order.
pub open spec fn structure_groups(bs: Seq<BlockView>, lo: int, hi: int, max_tokens: nat) -> Seq<(int, int)> {
    let st = grouping(bs, lo, hi, max_tokens);
    if st.1 < hi { st.0.push((st.1, hi)) } else { st.0 }
}

/// The estimated tokens of blocks `k..hi`.
pub open spec fn suffix_tokens(bs: Seq<BlockView>, k: int, hi: int) -> nat
    decreases hi - k,
{
    if k >= hi { 0 } else { fast_tokens(bs[k].text) + suffix_tokens(bs, k + 1, hi) }
}

/// The first block of the overlap taken from blocks `lo..hi`: walking back from
/// `j`, the first block from which the blocks to the end reach `overlap` tokens,
/// or `lo` when none does.
pub open spec fn overlap_start_from(bs: Seq<BlockView>, lo: int, hi: int, overlap: nat, j: int) -> int
    decreases j - lo,
{
    if j <= lo || suffix_tokens(bs, j, hi) >= overlap {
        j
    } else {
        overlap_start_from(bs, lo, hi, overlap, j - 1)
    }
}

/// The overlap text carried from a chunk of blocks `lo..hi` to the next chunk:
/// the texts of the last blocks that together reach `overlap` estimated tokens.
pub open spec fn overlap_text(bs: Seq<BlockView>, lo: int, hi: int, overlap: nat) -> Seq<char> {
    if overlap == 0 || lo >= hi {
        seq![]
    } else {
        join_lines(texts_of(bs.subrange(overlap_start_from(bs, lo, hi, overlap, hi - 1), hi)))
    }
}

/// The text of a chunk of blocks `g`, after an optional overlap prefix.
pub open spec fn prefixed_text(bs: Seq<BlockView>, g: (int, int), prefix: Option<Seq<char>>) -> Seq<char> {
    let text = join_lines(texts_of(bs.subrange(g.0, g.1)));
    match prefix {
        Some(p) => if p.len() > 0 { p + seq!['\n'] + text } else { text },
        None => text,
    }
}

/// The chunk made of blocks `g` after an optional overlap prefix, numbered `id`.
pub open spec fn chunk_with_prefix(bs: Seq<BlockView>, g: (int, int), prefix: Option<Seq<char>>, id: nat) -> ChunkView {
    let text = prefixed_text(bs, g, prefix);
    let sources = bs.subrange(g.0, g.1);
    ChunkView {
        id: chunk_id(id),
        text,
        token_count: token_count_spec(text),
        source_blocks: sources,
        page_start: min_page(sources),
        page_end: max_page(sources),
        overlap_prefix: prefix,
        source_start: g.0 as usize,
        source_end: g.1 as usize,
    }
}

/// The prefix a chunk takes from the group before it: none for the first chunk.
pub open spec fn prefix_after(bs: Seq<BlockView>, prev: Option<(int, int)>, overlap: nat) -> Option<Seq<char>> {
    match prev {
        Some(p) => Some(overlap_text(bs, p.0, p.1, overlap)),
        None => None,
    }
}

/// The chunk made of blocks `g`, with the overlap of the group `prev` before it.
pub open spec fn group_chunk(bs: Seq<BlockView>, g: (int, int), prev: Option<(int, int)>, id: nat, overlap: nat) -> ChunkView {
    chunk_with_prefix(bs, g, prefix_after(bs, prev, overlap), id)
}

/// The chunks of groups `gs`, numbered from `first_id`.
pub open spec fn chunks_of_groups(bs: Seq<BlockView>, gs: Seq<(int, int)>, first_id: nat, overlap: nat) -> Seq<ChunkView> {
    Seq::new(
        gs.len(),
        |k: int| group_chunk(bs, gs[k], if k == 0 { None } else { Some(gs[k - 1]) }, first_id + k as nat, overlap),
    )
}

/// The element-aware chunks of blocks `lo..hi`, numbered from `first_id`.
pub open spec fn structure_chunks_range(bs: Seq<BlockView>, lo: int, hi: int, max_tokens: nat, overlap: nat, first_id: nat) -> Seq<ChunkView> {
    chunks_of_groups(bs, structure_groups(bs, lo, hi, max_tokens), first_id, overlap)
}

/// The element-aware chunks of a document.
pub open spec fn structure_chunks(bs: Seq<BlockView>, max_tokens: usize, overlap: usize) -> Seq<ChunkView> {
    structure_chunks_range(bs, 0, bs.len() as int, max_tokens as nat, overlap as nat, 0)
}

/// The overlap text carried from the chunk of blocks `lo..hi`.
fn extract_overlap_text(blocks: &[Block], lo: usize, hi: usize, overlap: usize) -> (s: String)
    requires
        lo <= hi <= blocks@.len(),
    ensures
        s@ == overlap_text(block_views(blocks@), lo as int, hi as int, overlap as nat),
{
    let ghost bs = block_views(blocks@);
    if overlap == 0 || lo >= hi {
        return String::new();
    }
    let mut j: usize = hi - 1;
    let mut so_far: usize = fast_estimate_tokens(blocks[j].text.as_str());
    assert(suffix_tokens(bs, j as int, hi as int) == so_far + suffix_tokens(bs, j + 1, hi as int));
    while so_far < overlap && j > lo
        invariant
            lo <= j < hi <= blocks@.len(),
            bs == block_views(blocks@),
            (so_far < overlap) == (suffix_tokens(bs, j as int, hi as int) < overlap),
            so_far < overlap ==> so_far == suffix_tokens(bs, j as int, hi as int),
            overlap_start_from(bs, lo as int, hi as int, overlap as nat, hi - 1)
                == overlap_start_from(bs, lo as int, hi as int, overlap as nat, j as int),
        decreases j,
    {
        j -= 1;
        let t = fast_estimate_tokens(blocks[j].text.as_str());
        assert(suffix_tokens(bs, j as int, hi as int) == t + suffix_tokens(bs, j + 1, hi as int));
        so_far = if t >= overlap - so_far { overlap } else { so_far + t };
    }
    assert(overlap_start_from(bs, lo as int, hi as int, overlap as nat, j as int) == j);
    assert(block_views(blocks@.subrange(j as int, hi as int)) =~= bs.subrange(j as int, hi as int));
    join_block_texts(blocks, j, hi)
}


/// The integer range of an optional index pair.
pub open spec fn int_range(p: Option<(usize, usize)>) -> Option<(int, int)> {
    match p {
        Some(q) => Some((q.0 as int, q.1 as int)),
        None => None,
    }
}

/// Builds the chunk of blocks `lo..hi` after an optional overlap prefix.
fn build_chunk(blocks: &[Block], lo: usize, hi: usize, prefix: Option<String>, id: usize) -> (c: Chunk)
    requires
        lo <= hi <= blocks@.len(),
    ensures
        c@ == chunk_with_prefix(
            block_views(blocks@),
            (lo as int, hi as int),
            opt_text(prefix),
            id as nat,
        ),
{
    let ghost bs = block_views(blocks@);
    let text = join_block_texts(blocks, lo, hi);
    let full_text = match &prefix {
        Some(p) => {
            if !p.as_str().is_empty() {
                let mut t = p.clone();
                push_char(&mut t, '\n');
                t.append(text.as_str());
                t
            } else {
                text
            }
        },
        None => text,
    };
    proof {
        assert(block_views(blocks@.subrange(lo as int, hi as int)) =~= bs.subrange(lo as int, hi as int));
    }
    let ghost pv = opt_text(prefix);
    assert(full_text@ == prefixed_text(bs, (lo as int, hi as int), pv));
    let token_count = estimate_tokens(full_text.as_str());
    let (page_start, page_end) = page_range(blocks, lo, hi);
    let source_blocks = copy_blocks(blocks, lo, hi);
    Chunk {
        id: make_chunk_id(id),
        text: full_text,
        token_count,
        source_blocks,
        page_start,
        page_end,
        overlap_prefix: prefix,
        source_start: lo,
        source_end: hi,
    }
}


/// Appending a group appends its chunk.
proof fn lemma_chunks_push(bs: Seq<BlockView>, gs: Seq<(int, int)>, g: (int, int), first_id: nat, overlap: nat)
    ensures
        chunks_of_groups(bs, gs.push(g), first_id, overlap) == chunks_of_groups(bs, gs, first_id, overlap).push(
            group_chunk(bs, g, if gs.len() == 0 { None } else { Some(gs.last()) }, first_id + gs.len(), overlap),
        ),
{
    assert(chunks_of_groups(bs, gs.push(g), first_id, overlap) =~= chunks_of_groups(bs, gs, first_id, overlap).push(
        group_chunk(bs, g, if gs.len() == 0 { None } else { Some(gs.last()) }, first_id + gs.len(), overlap),
    ));
}

/// Whether the groups are non-empty ranges that follow one another and together
/// cover `lo..end` exactly.
pub open spec fn groups_within(gs: Seq<(int, int)>, lo: int, end: int) -> bool {
    &&& forall|k: int| 0 <= k < gs.len() ==> lo <= #[trigger] gs[k].0 && gs[k].0 < gs[k].1 && gs[k].1 <= end
    &&& forall|k: int| 0 <= k < gs.len() - 1 ==> #[trigger] gs[k].1 == gs[k + 1].0
    &&& forall|k: int, l: int| 0 <= k < l < gs.len() ==> #[trigger] gs[k].1 <= #[trigger] gs[l].0
    &&& gs.len() > 0 ==> gs[0].0 == lo && gs.last().1 == end
    &&& gs.len() == 0 ==> end == lo
}

/// Builds the chunk of blocks `g` after the overlap of the group `prev`, and appends it.
fn push_group_chunk(
    chunks: &mut Vec<Chunk>,
    blocks: &[Block],
    g: (usize, usize),
    prev: Option<(usize, usize)>,
    overlap: usize,
    id: usize,
)
    requires
        g.0 <= g.1 <= blocks@.len(),
        prev matches Some(p) ==> p.0 <= p.1 <= blocks@.len(),
    ensures
        chunk_views(final(chunks)@) == chunk_views(old(chunks)@).push(
            group_chunk(block_views(blocks@), (g.0 as int, g.1 as int), int_range(prev), id as nat, overlap as nat),
        ),
{
    let prefix = match prev {
        Some(p) => Some(extract_overlap_text(blocks, p.0, p.1, overlap)),
        None => None,
    };
    let c = build_chunk(blocks, g.0, g.1, prefix, id);
    let ghost before = chunk_views(chunks@);
    chunks.push(c);
    assert(chunk_views(chunks@) =~= before.push(c@));
}

/// The element-aware chunks of blocks `lo..hi`, numbered from `first_id`.
pub fn chunk_range(blocks: &[Block], lo: usize, hi: usize, max_tokens: usize, overlap: usize, first_id: usize) -> (chunks: Vec<Chunk>)
    requires
        lo <= hi <= blocks@.len(),
        first_id <= lo,
    ensures
        chunk_views(chunks@) == structure_chunks_range(
            block_views(blocks@),
            lo as int,
            hi as int,
            max_tokens as nat,
            overlap as nat,
            first_id as nat,
        ),
{
    let ghost bs = block_views(blocks@);
    let ghost mt = max_tokens as nat;
    let mut chunks: Vec<Chunk> = Vec::new();
    let mut start: usize = lo;
    let mut tokens: usize = 0;
    let mut prev: Option<(usize, usize)> = None;
    let mut i: usize = lo;
    while i < hi
        invariant
            lo <= start <= i <= hi <= blocks@.len(),
            first_id <= lo,
            bs == block_views(blocks@),
            mt == max_tokens as nat,
            grouping(bs, lo as int, i as int, mt).1 == start as int,
            grouping(bs, lo as int, i as int, mt).2 == tokens as nat,
            start == i ==> tokens == 0,
            grouping(bs, lo as int, i as int, mt).0.len() <= start - lo,
            groups_within(grouping(bs, lo as int, i as int, mt).0, lo as int, start as int),
            int_range(prev) == if grouping(bs, lo as int, i as int, mt).0.len() == 0 {
                None
            } else {
                Some(grouping(bs, lo as int, i as int, mt).0.last())
            },
            chunk_views(chunks@) == chunks_of_groups(bs, grouping(bs, lo as int, i as int, mt).0, first_id as nat, overlap as nat),
        decreases hi - i,
    {
        let ghost st = grouping(bs, lo as int, i as int, mt);
        assert(chunk_views(chunks@).len() == chunks@.len());
        assert(chunks@.len() == st.0.len());
        let t = fast_estimate_tokens(blocks[i].text.as_str());
        let unsplittable = blocks[i].element_type == ElementType::Table || blocks[i].element_type == ElementType::CodeBlock;
        if unsplittable && t > max_tokens {
            let ghost gs = st.0;
            if start < i {
                proof { lemma_chunks_push(bs, gs, (start as int, i as int), first_id as nat, overlap as nat); }
                let id = first_id + chunks.len();
                push_group_chunk(&mut chunks, blocks, (start, i), prev, overlap, id);
                prev = Some((start, i));
                proof { gs = gs.push((start as int, i as int)); }
            }
            assert(chunk_views(chunks@).len() == chunks@.len());
            assert(chunks@.len() == gs.len() && gs.len() <= i - lo);
            proof { lemma_chunks_push(bs, gs, (i as int, i + 1), first_id as nat, overlap as nat); }
            let id = first_id + chunks.len();
            push_group_chunk(&mut chunks, blocks, (i, i + 1), prev, overlap, id);
            prev = Some((i, i + 1));
            start = i + 1;
            tokens = 0;
        } else if (tokens > max_tokens || t > max_tokens - tokens) && start < i {
            proof { lemma_chunks_push(bs, st.0, (start as int, i as int), first_id as nat, overlap as nat); }
            let id = first_id + chunks.len();
            push_group_chunk(&mut chunks, blocks, (start, i), prev, overlap, id);
            prev = Some((start, i));
            start = i;
            tokens = t;
        } else {
            tokens = tokens + t;
        }
        i += 1;
    }
    let ghost st = grouping(bs, lo as int, hi as int, mt);
    if start < hi {
        proof { lemma_chunks_push(bs, st.0, (start as int, hi as int), first_id as nat, overlap as nat); }
        let id = first_id + chunks.len();
        push_group_chunk(&mut chunks, blocks, (start, hi), prev, overlap, id);
    }
    chunks
}

/// Element-aware chunking: blocks are gathered until the next one would pass
/// `max_tokens`; tables and code blocks are never split, and one that passes
/// `max_tokens` alone becomes a chunk of its own. Each chunk after the first
/// starts with the overlap text of the chunk before it.
pub fn chunk(blocks: &[Block], max_tokens: usize, overlap: usize) -> (r: Result<Vec<Chunk>, Error>)
    ensures
        r matches Ok(chunks) && chunk_views(chunks@) == structure_chunks(block_views(blocks@), max_tokens, overlap),
{
    Ok(chunk_range(blocks, 0, blocks.len(), max_tokens, overlap, 0))
}


/// The grouping state is well formed: the open group starts within `lo..=i`,
/// the closed groups are ranges before it, one at most per block.
pub proof fn lemma_grouping_bounds(bs: Seq<BlockView>, lo: int, i: int, max_tokens: nat)
    requires
        lo <= i,
    ensures
        lo <= grouping(bs, lo, i, max_tokens).1 <= i,
        grouping(bs, lo, i, max_tokens).0.len() <= grouping(bs, lo, i, max_tokens).1 - lo,
        groups_within(grouping(bs, lo, i, max_tokens).0, lo, grouping(bs, lo, i, max_tokens).1),
    decreases i - lo,
{
    if i > lo {
        lemma_grouping_bounds(bs, lo, i - 1, max_tokens);
    }
}

/// The groups of blocks `lo..hi` are non-empty ranges in order that end at `hi`,
/// one at most per block.
pub proof fn lemma_structure_groups_bounds(bs: Seq<BlockView>, lo: int, hi: int, max_tokens: nat)
    requires
        lo <= hi,
    ensures
        structure_groups(bs, lo, hi, max_tokens).len() <= hi - lo,
        groups_within(structure_groups(bs, lo, hi, max_tokens), lo, hi),
{
    lemma_grouping_bounds(bs, lo, hi, max_tokens);
}


/// The joined texts of the blocks of each group.
pub open spec fn group_texts(bs: Seq<BlockView>, gs: Seq<(int, int)>) -> Seq<Seq<char>> {
    gs.map_values(|g: (int, int)| join_lines(texts_of(bs.subrange(g.0, g.1))))
}

/// Joining the texts of groups that cover `lo..end` gives the joined texts of those blocks.
pub proof fn lemma_join_groups(bs: Seq<BlockView>, gs: Seq<(int, int)>, lo: int, end: int)
    requires
        groups_within(gs, lo, end),
        0 <= lo,
        end <= bs.len(),
    ensures
        join_lines(group_texts(bs, gs)) == join_lines(texts_of(bs.subrange(lo, end))),
    decreases gs.len(),
{
    if gs.len() == 0 {
        assert(texts_of(bs.subrange(lo, end)) =~= seq![]);
        assert(group_texts(bs, gs) =~= seq![]);
    } else if gs.len() == 1 {
        assert(group_texts(bs, gs) =~= seq![join_lines(texts_of(bs.subrange(lo, end)))]);
    } else {
        let m = gs.last().0;
        let init = gs.drop_last();
        assert(init.last() == gs[gs.len() - 2]);
        assert(gs[gs.len() - 2].1 == gs[gs.len() - 1].0);
        assert forall|k: int| 0 <= k < init.len() implies #[trigger] init[k].1 <= m by {
            assert(gs[k].1 <= gs[gs.len() - 1].0);
        }
        assert(groups_within(init, lo, m));
        lemma_join_groups(bs, init, lo, m);
        assert(group_texts(bs, gs) =~= group_texts(bs, init).push(join_lines(texts_of(bs.subrange(m, end)))));
        assert(texts_of(bs.subrange(lo, end)) =~= texts_of(bs.subrange(lo, m)) + texts_of(bs.subrange(m, end)));
        assert(gs[0].0 < gs[0].1 && gs[0].1 <= m);
        lemma_join_concat(texts_of(bs.subrange(lo, m)), texts_of(bs.subrange(m, end)));
        lemma_join_concat(group_texts(bs, init), seq![join_lines(texts_of(bs.subrange(m, end)))]);
        assert(group_texts(bs, init) + seq![join_lines(texts_of(bs.subrange(m, end)))] =~= group_texts(bs, gs));
    }
}

/// Element-aware chunking loses and repeats no content: without overlap, the
/// chunks' texts joined with newlines are the blocks' texts joined with newlines.
pub proof fn law_structure_chunks_keep_content(bs: Seq<BlockView>, max_tokens: usize)
    ensures
        join_lines(chunk_texts(structure_chunks(bs, max_tokens, 0))) == join_lines(texts_of(bs)),
{
    let gs = structure_groups(bs, 0, bs.len() as int, max_tokens as nat);
    lemma_structure_groups_bounds(bs, 0, bs.len() as int, max_tokens as nat);
    lemma_join_groups(bs, gs, 0, bs.len() as int);
    assert(bs.subrange(0, bs.len() as int) =~= bs);
    let cs = structure_chunks(bs, max_tokens, 0);
    assert forall|k: int| 0 <= k < gs.len() implies #[trigger] chunk_texts(cs)[k] == group_texts(bs, gs)[k] by {
        if k > 0 {
            assert(overlap_text(bs, gs[k - 1].0, gs[k - 1].1, 0) =~= seq![]);
        }
    }
    assert(chunk_texts(cs) =~= group_texts(bs, gs));
}

/// Without overlap, the element-aware chunks of blocks `lo..hi` joined with
/// newlines are those blocks' texts joined with newlines; there is a chunk
/// when there is a block.
pub proof fn lemma_structure_range_keep_content(bs: Seq<BlockView>, lo: int, hi: int, max_tokens: nat, first_id: nat)
    requires
        0 <= lo <= hi <= bs.len(),
    ensures
        join_lines(chunk_texts(structure_chunks_range(bs, lo, hi, max_tokens, 0, first_id))) == join_lines(
            texts_of(bs.subrange(lo, hi)),
        ),
        lo < hi ==> structure_chunks_range(bs, lo, hi, max_tokens, 0, first_id).len() > 0,
{
    let gs = structure_groups(bs, lo, hi, max_tokens);
    lemma_structure_groups_bounds(bs, lo, hi, max_tokens);
    lemma_join_groups(bs, gs, lo, hi);
    let cs = structure_chunks_range(bs, lo, hi, max_tokens, 0, first_id);
    assert forall|k: int| 0 <= k < gs.len() implies #[trigger] chunk_texts(cs)[k] == group_texts(bs, gs)[k] by {
        if k > 0 {
            assert(overlap_text(bs, gs[k - 1].0, gs[k - 1].1, 0) =~= seq![]);
        }
    }
    assert(chunk_texts(cs) =~= group_texts(bs, gs));
}

/// The source ranges of the element-aware chunks of blocks `lo..hi` are their groups.
pub proof fn lemma_structure_range_sources(bs: Seq<BlockView>, lo: int, hi: int, max_tokens: nat, overlap: nat, first_id: nat)
    requires
        0 <= lo <= hi <= bs.len(),
        bs.len() <= usize::MAX,
    ensures
        source_ranges(structure_chunks_range(bs, lo, hi, max_tokens, overlap, first_id)) == structure_groups(bs, lo, hi, max_tokens),
        groups_within(structure_groups(bs, lo, hi, max_tokens), lo, hi),
{
    let gs = structure_groups(bs, lo, hi, max_tokens);
    lemma_structure_groups_bounds(bs, lo, hi, max_tokens);
    let cs = structure_chunks_range(bs, lo, hi, max_tokens, overlap, first_id);
    assert forall|k: int| 0 <= k < gs.len() implies #[trigger] source_ranges(cs)[k] == gs[k] by {
        assert(lo <= gs[k].0 && gs[k].1 <= hi);
    }
    assert(source_ranges(cs) =~= gs);
}

/// Ranges that cover `lo..mid`, followed by ranges that cover `mid..hi`, cover `lo..hi`.
#[verifier::spinoff_prover]
#[verifier::rlimit(50)]
pub proof fn lemma_groups_concat(a: Seq<(int, int)>, b: Seq<(int, int)>, lo: int, mid: int, hi: int)
    requires
        groups_within(a, lo, mid),
        groups_within(b, mid, hi),
    ensures
        groups_within(a + b, lo, hi),
{
    let c = a + b;
    assert forall|k: int| 0 <= k < c.len() implies lo <= #[trigger] c[k].0 && c[k].0 < c[k].1 && c[k].1 <= hi by {
        if k < a.len() {
            assert(c[k] == a[k]);
            if a.len() > 0 {
                assert(a[k].1 <= a.last().1);
            }
        } else {
            assert(c[k] == b[k - a.len()]);
            if b.len() > 0 {
                assert(b[0].0 <= b[k - a.len()].0);
            }
        }
    }
    assert forall|k: int| 0 <= k < c.len() - 1 implies #[trigger] c[k].1 == c[k + 1].0 by {
        if k + 1 < a.len() {
            assert(c[k] == a[k] && c[k + 1] == a[k + 1]);
        } else if k + 1 == a.len() {
            assert(c[k] == a.last() && c[k + 1] == b[0]);
        } else {
            assert(c[k] == b[k - a.len()] && c[k + 1] == b[k + 1 - a.len()]);
        }
    }
    assert forall|k: int, l: int| 0 <= k < l < c.len() implies #[trigger] c[k].1 <= #[trigger] c[l].0 by {
        if l < a.len() {
            assert(c[k] == a[k] && c[l] == a[l]);
        } else if k >= a.len() {
            assert(c[k] == b[k - a.len()] && c[l] == b[l - a.len()]);
        } else {
            assert(c[k] == a[k] && c[l] == b[l - a.len()]);
            assert(a[k].1 <= a.last().1);
            assert(b[0].0 <= b[l - a.len()].0);
        }
    }
    if c.len() > 0 {
        if a.len() > 0 {
            assert(c[0] == a[0]);
        } else {
            assert(c[0] == b[0]);
        }
        if b.len() > 0 {
            assert(c.last() == b.last());
        } else {
            assert(c.last() == a.last());
        }
    }
}

/// Every block belongs to exactly one chunk: the chunks' source ranges are
/// non-empty, follow one another and cover the document, and each chunk's
/// source blocks are the blocks of its range.
pub proof fn law_structure_chunks_partition(bs: Seq<BlockView>, max_tokens: usize, overlap: usize)
    requires
        bs.len() <= usize::MAX,
    ensures
        groups_within(source_ranges(structure_chunks(bs, max_tokens, overlap)), 0, bs.len() as int),
        forall|k: int| 0 <= k < structure_chunks(bs, max_tokens, overlap).len() ==> {
            let c = #[trigger] structure_chunks(bs, max_tokens, overlap)[k];
            c.source_blocks == bs.subrange(c.source_start as int, c.source_end as int)
                && c.source_blocks.len() > 0
        },
{
    let gs = structure_groups(bs, 0, bs.len() as int, max_tokens as nat);
    lemma_structure_groups_bounds(bs, 0, bs.len() as int, max_tokens as nat);
    let cs = structure_chunks(bs, max_tokens, overlap);
    assert forall|k: int| 0 <= k < gs.len() implies #[trigger] source_ranges(cs)[k] == gs[k] by {
        assert(0 <= gs[k].0 && gs[k].1 <= bs.len());
    }
    assert(source_ranges(cs) =~= gs);
    assert forall|k: int| 0 <= k < cs.len() implies {
        let c = #[trigger] cs[k];
        c.source_blocks == bs.subrange(c.source_start as int, c.source_end as int) && c.source_blocks.len() > 0
    } by {
        assert(0 <= gs[k].0 && gs[k].0 < gs[k].1 && gs[k].1 <= bs.len());
    }
}

/// Chunks are numbered in order: the chunk at position `k` is `chunk-k`, and
/// each counts the tokens of its own text.
pub proof fn law_structure_chunk_ids(bs: Seq<BlockView>, max_tokens: usize, overlap: usize)
    ensures
        forall|k: int| 0 <= k < structure_chunks(bs, max_tokens, overlap).len() ==> {
            let c = #[trigger] structure_chunks(bs, max_tokens, overlap)[k];
            c.id == chunk_id(k as nat) && c.token_count == token_count_spec(c.text)
        },
{
}

/// Only the first chunk starts without an overlap prefix; every later chunk's
/// prefix is the overlap text of the chunk before it (the texts of its last
/// source blocks that reach `overlap` estimated tokens).
pub proof fn law_structure_overlap_prefixes(bs: Seq<BlockView>, max_tokens: usize, overlap: usize)
    requires
        bs.len() <= usize::MAX,
    ensures
        forall|k: int| 0 <= k < structure_chunks(bs, max_tokens, overlap).len() ==>
            (#[trigger] structure_chunks(bs, max_tokens, overlap)[k].overlap_prefix is None <==> k == 0),
        forall|k: int| 0 < k < structure_chunks(bs, max_tokens, overlap).len() ==>
            #[trigger] structure_chunks(bs, max_tokens, overlap)[k].overlap_prefix == Some(overlap_text(
                bs,
                structure_chunks(bs, max_tokens, overlap)[k - 1].source_start as int,
                structure_chunks(bs, max_tokens, overlap)[k - 1].source_end as int,
                overlap as nat,
            )),
{
    let n = bs.len() as int;
    let gs = structure_groups(bs, 0, n, max_tokens as nat);
    lemma_structure_groups_bounds(bs, 0, n, max_tokens as nat);
    let cs = structure_chunks(bs, max_tokens, overlap);
    assert forall|k: int| 0 < k < cs.len() implies #[trigger] cs[k].overlap_prefix == Some(overlap_text(
        bs,
        cs[k - 1].source_start as int,
        cs[k - 1].source_end as int,
        overlap as nat,
    )) by {
        assert(0 <= gs[k - 1].0 && gs[k - 1].1 <= n);
    }
}

/// A table or code block whose estimated tokens pass the budget stays in the group it forms alone.
proof fn lemma_oversized_group(bs: Seq<BlockView>, lo: int, i: int, max_tokens: nat, j: int)
    requires
        lo <= j < i,
        is_unsplittable(bs[j]),
        fast_tokens(bs[j].text) > max_tokens,
    ensures
        grouping(bs, lo, i, max_tokens).0.contains((j, j + 1)),
    decreases i - lo,
{
    let prev = grouping(bs, lo, i - 1, max_tokens);
    if j == i - 1 {
        let d = if prev.1 < j { prev.0.push((prev.1, j)) } else { prev.0 };
        assert(d.push((j, i)).last() == (j, j + 1));
        assert(grouping(bs, lo, i, max_tokens).0 == d.push((j, i)));
        assert(grouping(bs, lo, i, max_tokens).0[d.len() as int] == (j, j + 1));
    } else {
        lemma_oversized_group(bs, lo, i - 1, max_tokens, j);
        let w = choose|w: int| 0 <= w < prev.0.len() && prev.0[w] == (j, j + 1);
        let cur = grouping(bs, lo, i, max_tokens).0;
        assert(prev.0.is_prefix_of(cur) || prev.0 == cur) by {
            assert(prev.0.push((prev.1, i - 1)).take(prev.0.len() as int) =~= prev.0);
            if prev.1 < i - 1 {
                assert(prev.0.push((prev.1, i - 1)).push((i - 1, i)).take(prev.0.len() as int) =~= prev.0);
            } else {
                assert(prev.0.push((i - 1, i)).take(prev.0.len() as int) =~= prev.0);
            }
        }
        assert(cur[w] == (j, j + 1));
    }
}

/// A table or code block that passes `max_tokens` on its own becomes a chunk of its own.
pub proof fn law_oversized_unsplittable_alone(bs: Seq<BlockView>, max_tokens: usize, overlap: usize, j: int)
    requires
        bs.len() <= usize::MAX,
        0 <= j < bs.len(),
        is_unsplittable(bs[j]),
        fast_tokens(bs[j].text) > max_tokens,
    ensures
        exists|k: int| 0 <= k < structure_chunks(bs, max_tokens, overlap).len()
            && (#[trigger] structure_chunks(bs, max_tokens, overlap)[k]).source_start == j
            && structure_chunks(bs, max_tokens, overlap)[k].source_end == j + 1
            && structure_chunks(bs, max_tokens, overlap)[k].source_blocks == seq![bs[j]],
{
    let n = bs.len() as int;
    let mt = max_tokens as nat;
    lemma_oversized_group(bs, 0, n, mt, j);
    let st = grouping(bs, 0, n, mt);
    let w = choose|w: int| 0 <= w < st.0.len() && st.0[w] == (j, j + 1);
    let gs = structure_groups(bs, 0, n, mt);
    assert(gs[w] == (j, j + 1));
    let cs = structure_chunks(bs, max_tokens, overlap);
    assert(bs.subrange(j, j + 1) =~= seq![bs[j]]);
    assert(cs[w].source_start == j && cs[w].source_end == j + 1 && cs[w].source_blocks == seq![bs[j]]);
}


/// Adding the block at `hi` to blocks `k..hi` adds its estimated tokens.
proof fn lemma_suffix_tokens_push(bs: Seq<BlockView>, k: int, hi: int)
    requires
        k <= hi,
    ensures
        suffix_tokens(bs, k, hi + 1) == suffix_tokens(bs, k, hi) + fast_tokens(bs[hi].text),
    decreases hi - k,
{
    if k < hi {
        lemma_suffix_tokens_push(bs, k + 1, hi);
    } else {
        assert(suffix_tokens(bs, hi + 1, hi + 1) == 0);
    }
}

/// The estimated tokens of blocks `a..b` are those of the same blocks taken out as a sequence.
proof fn lemma_suffix_tokens_subrange(bs: Seq<BlockView>, a: int, b: int, k: int)
    requires
        0 <= a <= k <= b <= bs.len(),
    ensures
        suffix_tokens(bs.subrange(a, b), k - a, b - a) == suffix_tokens(bs, k, b),
    decreases b - k,
{
    if k < b {
        lemma_suffix_tokens_subrange(bs, a, b, k + 1);
        assert(bs.subrange(a, b)[k - a] == bs[k]);
    }
}

/// Whether every group of two or more blocks has at most `max_tokens` estimated tokens.
pub open spec fn multi_block_groups_fit(bs: Seq<BlockView>, gs: Seq<(int, int)>, max_tokens: nat) -> bool {
    forall|k: int| 0 <= k < gs.len() && (#[trigger] gs[k]).1 - gs[k].0 >= 2 ==> suffix_tokens(bs, gs[k].0, gs[k].1) <= max_tokens
}

/// The grouping keeps the estimated tokens of the open group, and a group of two
/// or more blocks, closed or open, never passes `max_tokens`.
proof fn lemma_grouping_fits(bs: Seq<BlockView>, lo: int, i: int, max_tokens: nat)
    requires
        lo <= i,
    ensures
        grouping(bs, lo, i, max_tokens).2 == suffix_tokens(bs, grouping(bs, lo, i, max_tokens).1, i),
        grouping(bs, lo, i, max_tokens).1 < i - 1 ==> grouping(bs, lo, i, max_tokens).2 <= max_tokens,
        multi_block_groups_fit(bs, grouping(bs, lo, i, max_tokens).0, max_tokens),
    decreases i - lo,
{
    if i > lo {
        lemma_grouping_fits(bs, lo, i - 1, max_tokens);
        lemma_grouping_bounds(bs, lo, i - 1, max_tokens);
        let st = grouping(bs, lo, i - 1, max_tokens);
        let j = i - 1;
        let t = fast_tokens(bs[j].text);
        lemma_suffix_tokens_push(bs, st.1, j);
        lemma_suffix_tokens_push(bs, j, j);
        let nx = grouping(bs, lo, i, max_tokens);
        if is_unsplittable(bs[j]) && t > max_tokens {
            let closed = if st.1 < j { st.0.push((st.1, j)) } else { st.0 };
            assert(multi_block_groups_fit(bs, closed, max_tokens)) by {
                assert forall|k: int| 0 <= k < closed.len() && (#[trigger] closed[k]).1 - closed[k].0 >= 2 implies
                    suffix_tokens(bs, closed[k].0, closed[k].1) <= max_tokens by {
                    if k < st.0.len() {
                        assert(closed[k] == st.0[k]);
                    }
                }
            }
            assert forall|k: int| 0 <= k < nx.0.len() && (#[trigger] nx.0[k]).1 - nx.0[k].0 >= 2 implies
                suffix_tokens(bs, nx.0[k].0, nx.0[k].1) <= max_tokens by {
                if k < closed.len() {
                    assert(nx.0[k] == closed[k]);
                }
            }
        } else if st.2 + t > max_tokens && st.1 < j {
            assert forall|k: int| 0 <= k < nx.0.len() && (#[trigger] nx.0[k]).1 - nx.0[k].0 >= 2 implies
                suffix_tokens(bs, nx.0[k].0, nx.0[k].1) <= max_tokens by {
                if k < st.0.len() {
                    assert(nx.0[k] == st.0[k]);
                }
            }
        }
    }
}

/// Element-aware chunking fills a chunk of two or more blocks only up to
/// `max_tokens`: the estimated tokens of its source blocks stay within it.
pub proof fn law_structure_chunks_fit(bs: Seq<BlockView>, max_tokens: usize, overlap: usize)
    requires
        bs.len() <= usize::MAX,
    ensures
        forall|k: int| 0 <= k < structure_chunks(bs, max_tokens, overlap).len()
            && (#[trigger] structure_chunks(bs, max_tokens, overlap)[k]).source_blocks.len() >= 2
            ==> suffix_tokens(
                structure_chunks(bs, max_tokens, overlap)[k].source_blocks,
                0,
                structure_chunks(bs, max_tokens, overlap)[k].source_blocks.len() as int,
            ) <= max_tokens,
{
    let n = bs.len() as int;
    let mt = max_tokens as nat;
    lemma_grouping_fits(bs, 0, n, mt);
    lemma_grouping_bounds(bs, 0, n, mt);
    lemma_structure_groups_bounds(bs, 0, n, mt);
    let st = grouping(bs, 0, n, mt);
    let gs = structure_groups(bs, 0, n, mt);
    assert(multi_block_groups_fit(bs, gs, mt)) by {
        assert forall|k: int| 0 <= k < gs.len() && (#[trigger] gs[k]).1 - gs[k].0 >= 2 implies
            suffix_tokens(bs, gs[k].0, gs[k].1) <= mt by {
            if k < st.0.len() {
                assert(gs[k] == st.0[k]);
            }
        }
    }
    let cs = structure_chunks(bs, max_tokens, overlap);
    assert forall|k: int| 0 <= k < cs.len() && (#[trigger] cs[k]).source_blocks.len() >= 2 implies
        suffix_tokens(cs[k].source_blocks, 0, cs[k].source_blocks.len() as int) <= max_tokens by {
        let g = gs[k];
        assert(0 <= g.0 && g.0 < g.1 && g.1 <= n);
        assert(cs[k].source_blocks == bs.subrange(g.0, g.1));
        lemma_suffix_tokens_subrange(bs, g.0, g.1, g.0);
    }
}


/// The source blocks of chunks, one chunk's after another's.
pub open spec fn flat_sources(cs: Seq<ChunkView>) -> Seq<BlockView>
    decreases cs.len(),
{
    if cs.len() == 0 {
        seq![]
    } else {
        flat_sources(cs.drop_last()) + cs.last().source_blocks
    }
}

/// Whether each chunk's source blocks are the blocks of its source range.
pub open spec fn sources_match(bs: Seq<BlockView>, cs: Seq<ChunkView>) -> bool {
    forall|k: int| 0 <= k < cs.len() ==> (#[trigger] cs[k]).source_blocks == bs.subrange(
        cs[k].source_start as int,
        cs[k].source_end as int,
    )
}

proof fn lemma_flat_prefix(bs: Seq<BlockView>, cs: Seq<ChunkView>, k: int)
    requires
        groups_within(source_ranges(cs), 0, bs.len() as int),
        sources_match(bs, cs),
        0 <= k <= cs.len(),
    ensures
        flat_sources(cs.take(k)) == bs.take(if k == 0 { 0 } else { cs[k - 1].source_end as int }),
    decreases k,
{
    let r = source_ranges(cs);
    if k > 0 {
        lemma_flat_prefix(bs, cs, k - 1);
        assert(cs.take(k).drop_last() =~= cs.take(k - 1));
        assert(cs.take(k).last() == cs[k - 1]);
        assert(r[k - 1] == (cs[k - 1].source_start as int, cs[k - 1].source_end as int));
        let prev = if k - 1 == 0 { 0 } else { cs[k - 2].source_end as int };
        if k - 1 > 0 {
            assert(r[k - 2] == (cs[k - 2].source_start as int, cs[k - 2].source_end as int));
            assert(r[k - 2].1 == r[k - 1].0);
        } else {
            assert(r[0].0 == 0);
        }
        let end = cs[k - 1].source_end as int;
        assert(0 <= prev <= end <= bs.len());
        assert(bs.take(prev) + bs.subrange(prev, end) =~= bs.take(end));
    } else {
        assert(cs.take(0) =~= Seq::<ChunkView>::empty());
        assert(bs.take(0) =~= Seq::<BlockView>::empty());
    }
}

/// Chunks whose source ranges cover the blocks in order, each holding the blocks
/// of its range, hand back exactly the blocks when their sources are put end to end.
pub proof fn lemma_flat_sources_cover(bs: Seq<BlockView>, cs: Seq<ChunkView>)
    requires
        groups_within(source_ranges(cs), 0, bs.len() as int),
        sources_match(bs, cs),
    ensures
        flat_sources(cs) == bs,
        cs.len() == 0 <==> bs.len() == 0,
{
    let n = cs.len() as int;
    lemma_flat_prefix(bs, cs, n);
    assert(cs.take(n) =~= cs);
    if n > 0 {
        assert(source_ranges(cs).last() == (cs[n - 1].source_start as int, cs[n - 1].source_end as int));
        assert(bs.take(bs.len() as int) =~= bs);
    } else {
        assert(bs.take(0) =~= bs);
    }
}

/// Element-aware chunking hands back every block once and in order: the chunks'
/// source blocks put end to end are the blocks, so there are chunks exactly when
/// there are blocks; every chunk has a source block.
pub proof fn law_structure_flat_sources(bs: Seq<BlockView>, max_tokens: usize, overlap: usize)
    requires
        bs.len() <= usize::MAX,
    ensures
        flat_sources(structure_chunks(bs, max_tokens, overlap)) == bs,
        structure_chunks(bs, max_tokens, overlap).len() == 0 <==> bs.len() == 0,
        forall|k: int| 0 <= k < structure_chunks(bs, max_tokens, overlap).len() ==>
            (#[trigger] structure_chunks(bs, max_tokens, overlap)[k]).source_blocks.len() > 0,
{
    law_structure_chunks_partition(bs, max_tokens, overlap);
    lemma_flat_sources_cover(bs, structure_chunks(bs, max_tokens, overlap));
}

/// A table or code block over the budget stands alone in exactly one chunk: the
/// chunk whose sources are that block alone, and no other chunk holds it.
pub proof fn law_oversized_in_exactly_one_chunk(bs: Seq<BlockView>, max_tokens: usize, overlap: usize, j: int)
    requires
        bs.len() <= usize::MAX,
        0 <= j < bs.len(),
        is_unsplittable(bs[j]),
        fast_tokens(bs[j].text) > max_tokens,
    ensures
        exists|k: int| 0 <= k < structure_chunks(bs, max_tokens, overlap).len()
            && (#[trigger] structure_chunks(bs, max_tokens, overlap)[k]).source_blocks == seq![bs[j]]
            && structure_chunks(bs, max_tokens, overlap)[k].source_start == j
            && forall|l: int| 0 <= l < structure_chunks(bs, max_tokens, overlap).len()
                && (#[trigger] structure_chunks(bs, max_tokens, overlap)[l]).source_start <= j
                < structure_chunks(bs, max_tokens, overlap)[l].source_end ==> l == k,
{
    let cs = structure_chunks(bs, max_tokens, overlap);
    law_oversized_unsplittable_alone(bs, max_tokens, overlap, j);
    law_structure_chunks_partition(bs, max_tokens, overlap);
    let k = choose|k: int| 0 <= k < cs.len() && (#[trigger] cs[k]).source_start == j && cs[k].source_end == j + 1
        && cs[k].source_blocks == seq![bs[j]];
    let r = source_ranges(cs);
    assert forall|l: int| 0 <= l < cs.len() && (#[trigger] cs[l]).source_start <= j < cs[l].source_end implies l == k by {
        assert(r[l] == (cs[l].source_start as int, cs[l].source_end as int));
        assert(r[k] == (cs[k].source_start as int, cs[k].source_end as int));
        if l < k {
            assert(r[l].1 <= r[k].0);
        } else if l > k {
            assert(r[k].1 <= r[l].0);
        }
    }
}


/// Element-aware chunks in full: there are chunks exactly when there are blocks;
/// chunk `k` is `chunk-k`, counts the tokens of its own text, spans the pages
/// of its source blocks, has no overlap prefix exactly when it is the first, and
/// otherwise takes the overlap text of the chunk before it.
pub proof fn law_structure_chunk_shape(bs: Seq<BlockView>, max_tokens: usize, overlap: usize)
    requires
        bs.len() <= usize::MAX,
    ensures
        structure_chunks(bs, max_tokens, overlap).len() == 0 <==> bs.len() == 0,
        forall|k: int| 0 <= k < structure_chunks(bs, max_tokens, overlap).len() ==> {
            let c = #[trigger] structure_chunks(bs, max_tokens, overlap)[k];
            &&& c.id == chunk_id(k as nat)
            &&& c.token_count == token_count_spec(c.text)
            &&& c.page_start == min_page(c.source_blocks)
            &&& c.page_end == max_page(c.source_blocks)
            &&& (c.overlap_prefix is None <==> k == 0)
            &&& k > 0 ==> c.overlap_prefix == Some(overlap_text(
                bs,
                structure_chunks(bs, max_tokens, overlap)[k - 1].source_start as int,
                structure_chunks(bs, max_tokens, overlap)[k - 1].source_end as int,
                overlap as nat,
            ))
        },
{
    law_structure_flat_sources(bs, max_tokens, overlap);
    law_structure_chunk_ids(bs, max_tokens, overlap);
    law_structure_overlap_prefixes(bs, max_tokens, overlap);
}

} // verus!
