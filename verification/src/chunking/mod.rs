use vstd::prelude::*;
use vstd::utf8::encode_utf8;
use crate::cli::ChunkStrategy;
use crate::model::{block_views, chunk_views, copy_blocks, Block, BlockView, Chunk, ChunkView};
use crate::strings::{decimal, push_char, usize_to_decimal};
use crate::Error;

pub mod by_page;
pub mod by_structure;
pub mod by_title;
pub mod fixed_size;

verus! {

/// The number of tokens the cl100k_base byte-pair encoding splits `text` into.
pub uninterp spec fn cl100k_token_count(text: Seq<char>) -> usize;

/// `bpe_openai::cl100k_base().count(text)`: the number of cl100k_base tokens of `text`.
/// The count is a function of the text alone; its value is left to the tokenizer.
#[verifier::external_body]
fn cl100k_count(text: &str) -> (n: usize)
    ensures
        n == cl100k_token_count(text@),
{
    bpe_openai::cl100k_base().count(text)
}

/// The token count of a text: none for the empty text, else its cl100k_base count.
pub open spec fn token_count_spec(text: Seq<char>) -> usize {
    if text.len() == 0 { 0 } else { cl100k_token_count(text) }
}

/// Counts tokens with the cl100k_base tokenizer, the one OpenAI's models use.
pub fn estimate_tokens(text: &str) -> (n: usize)
    ensures
        n == token_count_spec(text@),
{
    if text.is_empty() {
        return 0;
    }
    cl100k_count(text)
}

/// The byte-length estimate of the tokens of a text: one token per five
/// bytes of UTF-8, rounded up.
pub open spec fn fast_tokens(text: Seq<char>) -> nat {
    (byte_len(text) + 4) / 5
}

/// The length of a text in UTF-8 bytes, as `str::len` reports it.
pub open spec fn byte_len(text: Seq<char>) -> nat {
    (encode_utf8(text).len() as usize) as nat
}

/// Estimates tokens from the UTF-8 length: five bytes per token, rounded up.
/// Much faster than the tokenizer; used for chunk boundary decisions.
pub fn fast_estimate_tokens(text: &str) -> (n: usize)
    ensures
        n == fast_tokens(text@),
{
    let len = text.len();
    let q = len / 5;
    assert((len as int + 4) / 5 == if len % 5 == 0 { len as int / 5 } else { len as int / 5 + 1 });
    if len % 5 == 0 { q } else { q + 1 }
}

/// Texts joined with newlines between them.
pub open spec fn join_lines(texts: Seq<Seq<char>>) -> Seq<char>
    decreases texts.len(),
{
    if texts.len() == 0 {
        seq![]
    } else if texts.len() == 1 {
        texts[0]
    } else {
        join_lines(texts.drop_last()) + seq!['\n'] + texts.last()
    }
}

/// The texts of blocks.
pub open spec fn texts_of(blocks: Seq<BlockView>) -> Seq<Seq<char>> {
    blocks.map_values(|b: BlockView| b.text)
}

/// The texts of blocks `lo..hi`, joined with newlines.
pub fn join_block_texts(blocks: &[Block], lo: usize, hi: usize) -> (s: String)
    requires
        lo <= hi <= blocks@.len(),
    ensures
        s@ == join_lines(texts_of(block_views(blocks@.subrange(lo as int, hi as int)))),
{
    let ghost bs = block_views(blocks@);
    let mut s = String::new();
    let mut i: usize = lo;
    while i < hi
        invariant
            lo <= i <= hi <= blocks@.len(),
            bs == block_views(blocks@),
            s@ == join_lines(texts_of(bs.subrange(lo as int, i as int))),
        decreases hi - i,
    {
        let ghost prev = texts_of(bs.subrange(lo as int, i as int));
        let ghost next = texts_of(bs.subrange(lo as int, i + 1));
        assert(next.drop_last() =~= prev);
        assert(next.last() == blocks@[i as int].text@);
        if i > lo {
            push_char(&mut s, '\n');
        }
        s.append(blocks[i].text.as_str());
        i += 1;
    }
    assert(bs.subrange(lo as int, hi as int) =~= block_views(blocks@.subrange(lo as int, hi as int)));
    s
}

/// The identifier of the chunk at position `n`.
pub open spec fn chunk_id(n: nat) -> Seq<char> {
    "chunk-"@ + decimal(n)
}

/// Writes the identifier of the chunk at position `n`.
pub fn make_chunk_id(n: usize) -> (s: String)
    ensures
        s@ == chunk_id(n as nat),
{
    String::from_str("chunk-").concat(usize_to_decimal(n).as_str())
}

/// The smallest page of non-empty blocks.
pub open spec fn min_page(blocks: Seq<BlockView>) -> u32
    decreases blocks.len(),
{
    if blocks.len() <= 1 {
        if blocks.len() == 0 { 0 } else { blocks[0].page }
    } else {
        let m = min_page(blocks.drop_last());
        if blocks.last().page < m { blocks.last().page } else { m }
    }
}

/// The largest page of non-empty blocks.
pub open spec fn max_page(blocks: Seq<BlockView>) -> u32
    decreases blocks.len(),
{
    if blocks.len() <= 1 {
        if blocks.len() == 0 { 0 } else { blocks[0].page }
    } else {
        let m = max_page(blocks.drop_last());
        if blocks.last().page > m { blocks.last().page } else { m }
    }
}

/// The smallest and largest page of blocks `lo..hi`, or `(0, 0)` for no blocks.
pub fn page_range(blocks: &[Block], lo: usize, hi: usize) -> (r: (u32, u32))
    requires
        lo <= hi <= blocks@.len(),
    ensures
        r.0 == min_page(block_views(blocks@.subrange(lo as int, hi as int))),
        r.1 == max_page(block_views(blocks@.subrange(lo as int, hi as int))),
{
    let ghost bs = block_views(blocks@);
    if lo == hi {
        assert(block_views(blocks@.subrange(lo as int, hi as int)).len() == 0);
        return (0, 0);
    }
    let mut mn = blocks[lo].page;
    let mut mx = blocks[lo].page;
    let mut i: usize = lo + 1;
    assert(bs.subrange(lo as int, i as int) =~= seq![bs[lo as int]]);
    while i < hi
        invariant
            lo < i <= hi <= blocks@.len(),
            bs == block_views(blocks@),
            mn == min_page(bs.subrange(lo as int, i as int)),
            mx == max_page(bs.subrange(lo as int, i as int)),
        decreases hi - i,
    {
        assert(bs.subrange(lo as int, i + 1).drop_last() =~= bs.subrange(lo as int, i as int));
        let p = blocks[i].page;
        if p < mn {
            mn = p;
        }
        if p > mx {
            mx = p;
        }
        i += 1;
    }
    assert(bs.subrange(lo as int, hi as int) =~= block_views(blocks@.subrange(lo as int, hi as int)));
    (mn, mx)
}


/// A copy of a chunk.
pub fn copy_chunk(c: &Chunk) -> (r: Chunk)
    ensures
        r@ == c@,
{
    let source_blocks = copy_blocks(c.source_blocks.as_slice(), 0, c.source_blocks.len());
    assert(c.source_blocks@.subrange(0, c.source_blocks@.len() as int) =~= c.source_blocks@);
    Chunk {
        id: c.id.clone(),
        text: c.text.clone(),
        token_count: c.token_count,
        source_blocks,
        page_start: c.page_start,
        page_end: c.page_end,
        overlap_prefix: match &c.overlap_prefix {
            Some(p) => Some(p.clone()),
            None => None,
        },
        source_start: c.source_start,
        source_end: c.source_end,
    }
}


/// Chunks the blocks with the chosen strategy.
pub fn chunk_blocks(blocks: &[Block], strategy: ChunkStrategy, max_tokens: usize, overlap: usize) -> (r: Result<Vec<Chunk>, Error>)
    requires
        strategy == ChunkStrategy::Fixed ==> fixed_size::fixed_size_accepts(block_views(blocks@), max_tokens, overlap),
    ensures
        r matches Ok(chunks) && chunk_views(chunks@) == strategy_chunks(block_views(blocks@), strategy, max_tokens, overlap),
{
    match strategy {
        ChunkStrategy::ByStructure => by_structure::chunk(blocks, max_tokens, overlap),
        ChunkStrategy::ByTitle => by_title::chunk(blocks, max_tokens, overlap),
        ChunkStrategy::ByPage => by_page::chunk(blocks, max_tokens, overlap),
        ChunkStrategy::Fixed => fixed_size::chunk(blocks, max_tokens, overlap),
    }
}

/// The chunks each strategy makes of a document.
pub open spec fn strategy_chunks(bs: Seq<BlockView>, strategy: ChunkStrategy, max_tokens: usize, overlap: usize) -> Seq<ChunkView> {
    match strategy {
        ChunkStrategy::ByStructure => by_structure::structure_chunks(bs, max_tokens, overlap),
        ChunkStrategy::ByTitle => by_title::title_chunks(bs, max_tokens, overlap),
        ChunkStrategy::ByPage => by_page::page_chunks(bs, max_tokens, overlap),
        ChunkStrategy::Fixed => fixed_size::fixed_chunks(bs, max_tokens, overlap),
    }
}


/// Joining two non-empty lists of texts puts a newline between their joins.
pub proof fn lemma_join_concat(a: Seq<Seq<char>>, b: Seq<Seq<char>>)
    requires
        a.len() > 0,
        b.len() > 0,
    ensures
        join_lines(a + b) == join_lines(a) + seq!['\n'] + join_lines(b),
    decreases b.len(),
{
    if b.len() == 1 {
        assert((a + b).drop_last() =~= a);
        assert(join_lines(b) == b[0]);
    } else {
        assert((a + b).drop_last() =~= a + b.drop_last());
        lemma_join_concat(a, b.drop_last());
        assert(join_lines(a + b) == join_lines(a + b.drop_last()) + seq!['\n'] + b.last());
        assert(join_lines(b) == join_lines(b.drop_last()) + seq!['\n'] + b.last());
        assert(join_lines(a + b) =~= join_lines(a) + seq!['\n'] + join_lines(b));
    }
}

/// The texts of chunks.
pub open spec fn chunk_texts(cs: Seq<ChunkView>) -> Seq<Seq<char>> {
    cs.map_values(|c: ChunkView| c.text)
}

/// The source ranges of chunks.
pub open spec fn source_ranges(cs: Seq<ChunkView>) -> Seq<(int, int)> {
    cs.map_values(|c: ChunkView| (c.source_start as int, c.source_end as int))
}

/// The identifiers of chunks.
pub open spec fn chunk_ids(cs: Seq<ChunkView>) -> Seq<Seq<char>> {
    cs.map_values(|c: ChunkView| c.id)
}

} // verus!
