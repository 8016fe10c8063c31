use vstd::prelude::*;
use crate::chunking::{
    chunk_id, estimate_tokens, fast_estimate_tokens, fast_tokens, join_block_texts, join_lines,
    make_chunk_id, max_page, min_page, page_range, texts_of, token_count_spec,
};
use crate::model::{block_views, chunk_views, copy_blocks, Block, BlockView, Chunk, ChunkView};
use crate::strings::{chars_of, push_char};
use crate::Error;

verus! {

/// The inputs fixed-size chunking handles: the window sizes in characters,
/// four per token, fit a `usize`, and a non-empty text gets windows of some width.
pub open spec fn fixed_size_accepts(bs: Seq<BlockView>, max_tokens: usize, overlap: usize) -> bool {
    &&& max_tokens <= usize::MAX / 4
    &&& overlap <= usize::MAX / 4
    &&& (max_tokens > 0 || join_lines(texts_of(bs)).len() == 0)
}

/// How far each window starts after the one before it: the window width less
/// the overlap, or the whole width when the overlap is not smaller.
pub open spec fn window_step(max_chars: nat, overlap_chars: nat) -> nat {
    if max_chars > overlap_chars { (max_chars - overlap_chars) as nat } else { max_chars }
}

/// The window of `full` that starts at `start`, numbered `k`: up to `max_chars`
/// characters, after the `overlap_chars` characters before it as prefix.
pub open spec fn window_chunk(
    bs: Seq<BlockView>,
    full: Seq<char>,
    max_chars: nat,
    overlap_chars: nat,
    k: nat,
    start: nat,
) -> ChunkView {
    let end: int = if start + max_chars < full.len() { (start + max_chars) as int } else { full.len() as int };
    let body = full.subrange(start as int, end);
    let prefix = if start > 0 && overlap_chars > 0 {
        let from = if start >= overlap_chars { start - overlap_chars } else { 0 };
        Some(full.subrange(from, start as int))
    } else {
        None
    };
    let text = match prefix {
        Some(p) => if p.len() > 0 { p + body } else { body },
        None => body,
    };
    ChunkView {
        id: chunk_id(k),
        text,
        token_count: token_count_spec(text),
        source_blocks: bs,
        page_start: min_page(bs),
        page_end: max_page(bs),
        overlap_prefix: prefix,
        source_start: 0,
        source_end: bs.len() as usize,
    }
}

/// The windows from the one numbered `k` at `start` to the end of `full`.
pub open spec fn windows_from(
    bs: Seq<BlockView>,
    full: Seq<char>,
    max_chars: nat,
    overlap_chars: nat,
    k: nat,
    start: nat,
) -> Seq<ChunkView>
    decreases full.len() - start,
{
    let step = window_step(max_chars, overlap_chars);
    if start >= full.len() || step == 0 {
        seq![]
    } else if start + step >= full.len() {
        seq![window_chunk(bs, full, max_chars, overlap_chars, k, start)]
    } else {
        seq![window_chunk(bs, full, max_chars, overlap_chars, k, start)] + windows_from(
            bs,
            full,
            max_chars,
            overlap_chars,
            k + 1,
            start + step,
        )
    }
}

/// The fixed-size chunks of a document: its block texts joined with newlines,
/// one chunk when the estimated tokens fit `max_tokens`, else windows of
/// `4 * max_tokens` characters every `4 * max_tokens - 4 * overlap` characters.
/// Every chunk has all the blocks as sources.
pub open spec fn fixed_chunks(bs: Seq<BlockView>, max_tokens: usize, overlap: usize) -> Seq<ChunkView> {
    let full = join_lines(texts_of(bs));
    if bs.len() == 0 || full.len() == 0 {
        seq![]
    } else if fast_tokens(full) <= max_tokens {
        seq![ChunkView {
            id: chunk_id(0),
            text: full,
            token_count: token_count_spec(full),
            source_blocks: bs,
            page_start: min_page(bs),
            page_end: max_page(bs),
            overlap_prefix: None,
            source_start: 0,
            source_end: bs.len() as usize,
        }]
    } else {
        windows_from(bs, full, 4 * max_tokens as nat, 4 * overlap as nat, 0, 0)
    }
}

/// The characters `a..b` of `v` as a string.
fn string_of_range(v: &Vec<char>, a: usize, b: usize) -> (s: String)
    requires
        a <= b <= v@.len(),
    ensures
        s@ == v@.subrange(a as int, b as int),
{
    let mut s = String::new();
    let mut i: usize = a;
    while i < b
        invariant
            a <= i <= b <= v@.len(),
            s@ == v@.subrange(a as int, i as int),
        decreases b - i,
    {
        push_char(&mut s, v[i]);
        i += 1;
        assert(s@ =~= v@.subrange(a as int, i as int));
    }
    s
}

/// Fixed-size chunking: the block texts are joined and cut by character counts,
/// four characters to a token, with the given overlap; element boundaries are ignored.
pub fn chunk(blocks: &[Block], max_tokens: usize, overlap: usize) -> (r: Result<Vec<Chunk>, Error>)
    requires
        fixed_size_accepts(block_views(blocks@), max_tokens, overlap),
    ensures
        r matches Ok(chunks) && chunk_views(chunks@) == fixed_chunks(block_views(blocks@), max_tokens, overlap),
{
    let ghost bs = block_views(blocks@);
    if blocks.len() == 0 {
        return Ok(Vec::new());
    }
    let full_text = join_block_texts(blocks, 0, blocks.len());
    assert(blocks@.subrange(0, blocks@.len() as int) =~= blocks@);
    let ghost full = full_text@;
    if full_text.as_str().is_empty() {
        return Ok(Vec::new());
    }
    let (page_start, page_end) = page_range(blocks, 0, blocks.len());
    if fast_estimate_tokens(full_text.as_str()) <= max_tokens {
        let token_count = estimate_tokens(full_text.as_str());
        let c = Chunk {
            id: make_chunk_id(0),
            text: full_text,
            token_count,
            source_blocks: copy_blocks(blocks, 0, blocks.len()),
            page_start,
            page_end,
            overlap_prefix: None,
            source_start: 0,
            source_end: blocks.len(),
        };
        let mut v: Vec<Chunk> = Vec::new();
        v.push(c);
        assert(chunk_views(v@) =~= seq![c@]);
        return Ok(v);
    }
    let max_chars = max_tokens * 4;
    let overlap_chars = overlap * 4;
    let chars = chars_of(full_text.as_str());
    let total = chars.len();
    let step = if max_chars > overlap_chars { max_chars - overlap_chars } else { max_chars };
    let ghost mc = max_chars as nat;
    let ghost oc = overlap_chars as nat;
    assert(mc == 4 * max_tokens as nat && oc == 4 * overlap as nat);
    let mut chunks: Vec<Chunk> = Vec::new();
    let mut start: usize = 0;
    let mut done = false;
    while !done
        invariant
            chars@ == full,
            total == full.len(),
            step == window_step(mc, oc),
            step > 0,
            mc == max_chars as nat,
            oc == overlap_chars as nat,
            bs == block_views(blocks@),
            page_start == min_page(bs),
            page_end == max_page(bs),
            start <= total,
            done ==> start >= total,
            chunks@.len() <= start,
            chunk_views(chunks@) + windows_from(bs, full, mc, oc, chunks@.len() as nat, start as nat)
                == fixed_chunks(bs, max_tokens, overlap),
        decreases total - start + if done { 0int } else { 1int },
    {
        if start >= total {
            done = true;
        } else {
            let end = if max_chars < total - start { start + max_chars } else { total };
            let body = string_of_range(&chars, start, end);
            let prefix = if start > 0 && overlap_chars > 0 {
                let from = if start >= overlap_chars { start - overlap_chars } else { 0 };
                Some(string_of_range(&chars, from, start))
            } else {
                None
            };
            let text = match &prefix {
                Some(p) => {
                    if !p.as_str().is_empty() {
                        let mut t = p.clone();
                        t.append(body.as_str());
                        t
                    } else {
                        body
                    }
                },
                None => body,
            };
            let token_count = estimate_tokens(text.as_str());
            let k = chunks.len();
            let c = Chunk {
                id: make_chunk_id(k),
                text,
                token_count,
                source_blocks: copy_blocks(blocks, 0, blocks.len()),
                page_start,
                page_end,
                overlap_prefix: prefix,
                source_start: 0,
                source_end: blocks.len(),
            };
            proof {
                let w = window_chunk(bs, full, mc, oc, k as nat, start as nat);
                assert(block_views(blocks@.subrange(0, blocks@.len() as int)) =~= bs);
                assert(c@.overlap_prefix == w.overlap_prefix);
                assert(c@.text == w.text);
                assert(c@ == w);
            }
            let ghost before = chunk_views(chunks@);
            chunks.push(c);
            assert(chunk_views(chunks@) =~= before.push(c@));
            if step >= total - start {
                assert(before.push(c@) =~= before + windows_from(bs, full, mc, oc, k as nat, start as nat));
                start = total;
                done = true;
            } else {
                assert(before.push(c@) + windows_from(bs, full, mc, oc, k as nat + 1, (start + step) as nat)
                    =~= before + windows_from(bs, full, mc, oc, k as nat, start as nat));
                start = start + step;
            }
        }
    }
    assert(windows_from(bs, full, mc, oc, chunks@.len() as nat, start as nat) =~= seq![]);
    Ok(chunks)
}


/// The windows from the one numbered `k` are numbered in order, every one has
/// all the blocks as sources, and no window text is longer than the window
/// width and the overlap together.
proof fn lemma_windows_shape(bs: Seq<BlockView>, full: Seq<char>, max_chars: nat, overlap_chars: nat, k: nat, start: nat)
    ensures
        forall|j: int| 0 <= j < windows_from(bs, full, max_chars, overlap_chars, k, start).len() ==> {
            let c = #[trigger] windows_from(bs, full, max_chars, overlap_chars, k, start)[j];
            &&& c.id == chunk_id(k + j as nat)
            &&& c.source_blocks == bs
            &&& c.text.len() <= max_chars + overlap_chars
        },
    decreases full.len() - start,
{
    let step = window_step(max_chars, overlap_chars);
    let w = windows_from(bs, full, max_chars, overlap_chars, k, start);
    if start < full.len() && step > 0 {
        let first = window_chunk(bs, full, max_chars, overlap_chars, k, start);
        if start + step < full.len() {
            lemma_windows_shape(bs, full, max_chars, overlap_chars, k + 1, start + step);
            let rest = windows_from(bs, full, max_chars, overlap_chars, k + 1, start + step);
            assert(w == seq![first] + rest);
            assert forall|j: int| 0 <= j < w.len() implies {
                let c = #[trigger] w[j];
                &&& c.id == chunk_id(k + j as nat)
                &&& c.source_blocks == bs
                &&& c.text.len() <= max_chars + overlap_chars
            } by {
                if j > 0 {
                    assert(w[j] == rest[j - 1]);
                    assert(k + 1 + (j - 1) as nat == k + j as nat);
                }
            }
        }
    }
}

/// Fixed-size chunks are numbered in order, take all the blocks as sources,
/// and hold at most `4 * max_tokens + 4 * overlap` characters each.
pub proof fn law_fixed_chunks_shape(bs: Seq<BlockView>, max_tokens: usize, overlap: usize)
    requires
        fixed_size_accepts(bs, max_tokens, overlap),
    ensures
        forall|k: int| 0 <= k < fixed_chunks(bs, max_tokens, overlap).len() ==> {
            let c = #[trigger] fixed_chunks(bs, max_tokens, overlap)[k];
            &&& c.id == chunk_id(k as nat)
            &&& c.source_blocks == bs
            &&& (k > 0 ==> c.text.len() <= 4 * max_tokens + 4 * overlap)
        },
{
    let full = join_lines(texts_of(bs));
    lemma_windows_shape(bs, full, 4 * max_tokens as nat, 4 * overlap as nat, 0, 0);
    let cs = fixed_chunks(bs, max_tokens, overlap);
    assert forall|k: int| 0 <= k < cs.len() implies {
        let c = #[trigger] cs[k];
        &&& c.id == chunk_id(k as nat)
        &&& c.source_blocks == bs
        &&& (k > 0 ==> c.text.len() <= 4 * max_tokens + 4 * overlap)
    } by {
        assert(0 + k as nat == k as nat);
    }
}


/// From `start`, the windows number the ceiling of what is left over the step,
/// and window `i` is numbered `k + i` and starts `i` steps after `start`.
proof fn lemma_windows_count(bs: Seq<BlockView>, full: Seq<char>, max_chars: nat, overlap_chars: nat, k: nat, start: nat)
    requires
        window_step(max_chars, overlap_chars) > 0,
        start <= full.len(),
    ensures
        ({
            let step = window_step(max_chars, overlap_chars);
            let w = windows_from(bs, full, max_chars, overlap_chars, k, start);
            &&& w.len() == (full.len() - start + step - 1) / (step as int)
            &&& forall|i: int| 0 <= i < w.len() ==> #[trigger] w[i] == window_chunk(
                bs,
                full,
                max_chars,
                overlap_chars,
                (k + i) as nat,
                (start + i * step) as nat,
            )
        }),
    decreases full.len() - start,
{
    let step = window_step(max_chars, overlap_chars);
    let n = full.len();
    let w = windows_from(bs, full, max_chars, overlap_chars, k, start);
    if start >= n {
        assert((n - start + step - 1) / (step as int) == 0) by (nonlinear_arith)
            requires
                start == n,
                step > 0,
        ;
    } else if start + step >= n {
        assert((n - start + step - 1) / (step as int) == 1) by (nonlinear_arith)
            requires
                start < n,
                start + step >= n,
                step > 0,
        ;
        assert(w[0] == window_chunk(bs, full, max_chars, overlap_chars, (k + 0) as nat, (start + 0 * step) as nat));
    } else {
        lemma_windows_count(bs, full, max_chars, overlap_chars, k + 1, start + step);
        let rest = windows_from(bs, full, max_chars, overlap_chars, k + 1, start + step);
        assert((n - start + step - 1) / (step as int) == 1 + (n - (start + step) + step - 1) / (step as int)) by (nonlinear_arith)
            requires
                start + step < n,
                step > 0,
        ;
        assert forall|i: int| 0 <= i < w.len() implies #[trigger] w[i] == window_chunk(
            bs,
            full,
            max_chars,
            overlap_chars,
            (k + i) as nat,
            (start + i * step) as nat,
        ) by {
            if i == 0 {
                assert(start + 0 * step == start) by (nonlinear_arith);
            } else {
                assert(w[i] == rest[i - 1]);
                assert(start + step + (i - 1) * step == start + i * step) by (nonlinear_arith);
            }
        }
    }
}

/// Fixed-size chunking of a text that does not fit: with `m = 4 * max_tokens`,
/// `o = 4 * overlap` and the step `m - o` (or `m` when `o >= m`), there are
/// `ceil(n / step)` chunks for a text of `n` characters, and chunk `i` is the
/// window at `i * step`: up to `m` characters, after the `o` characters before
/// it as its overlap prefix when `i > 0` and `o > 0`.
pub proof fn law_fixed_chunks_windows(bs: Seq<BlockView>, max_tokens: usize, overlap: usize)
    requires
        fixed_size_accepts(bs, max_tokens, overlap),
        max_tokens >= 1,
        bs.len() > 0,
        fast_tokens(join_lines(texts_of(bs))) > max_tokens,
    ensures
        ({
            let full = join_lines(texts_of(bs));
            let m = 4 * max_tokens as nat;
            let o = 4 * overlap as nat;
            let step = window_step(m, o);
            let cs = fixed_chunks(bs, max_tokens, overlap);
            &&& step > 0
            &&& cs.len() == (full.len() + step - 1) / (step as int)
            &&& forall|i: int| 0 <= i < cs.len() ==> #[trigger] cs[i] == window_chunk(
                bs,
                full,
                m,
                o,
                i as nat,
                (i * step) as nat,
            )
        }),
{
    let full = join_lines(texts_of(bs));
    let m = 4 * max_tokens as nat;
    let o = 4 * overlap as nat;
    if full.len() == 0 {
        assert(fast_tokens(full) == 0);
    }
    lemma_windows_count(bs, full, m, o, 0, 0);
    let cs = fixed_chunks(bs, max_tokens, overlap);
    assert forall|i: int| 0 <= i < cs.len() implies #[trigger] cs[i] == window_chunk(bs, full, m, o, i as nat, (i * window_step(m, o)) as nat) by {
        assert((0 + i) as nat == i as nat);
        assert((0 + i * window_step(m, o)) as nat == (i * window_step(m, o)) as nat);
    }
}

} // verus!
