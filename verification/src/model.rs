use vstd::prelude::*;

verus! {

/// The kind of a document element.
#[derive(Debug, Clone, Copy, PartialEq, Eq, Structural)]
pub enum ElementType {
    Title,
    Header,
    NarrativeText,
    ListItem,
    Table,
    Image,
    PageBreak,
    Footer,
    Caption,
    Formula,
    CodeBlock,
    Address,
    EmailBody,
    EmailHeader,
    Unknown,
}

/// Rows of cells and optional header cells of a table.
#[derive(Debug)]
pub struct TableData {
    pub rows: Vec<Vec<String>>,
    pub headers: Option<Vec<String>>,
}

/// A table as sequences of cell texts.
pub struct TableDataView {
    pub rows: Seq<Seq<Seq<char>>>,
    pub headers: Option<Seq<Seq<char>>>,
}

impl View for TableData {
    type V = TableDataView;

    open spec fn view(&self) -> TableDataView {
        TableDataView {
            rows: self.rows.deep_view(),
            headers: match self.headers {
                Some(h) => Some(h.deep_view()),
                None => None,
            },
        }
    }
}

} // verus!

verus! {

/// A document element: the parts of it that the library's logic reads.
/// Position and extraction confidence travel beside it in the application.
#[derive(Debug)]
pub struct Block {
    pub element_type: ElementType,
    pub text: String,
    pub page: u32,
    pub hierarchy: Vec<String>,
    pub table_data: Option<TableData>,
}

/// A block as plain values.
pub struct BlockView {
    pub element_type: ElementType,
    pub text: Seq<char>,
    pub page: u32,
    pub hierarchy: Seq<Seq<char>>,
    pub table_data: Option<TableDataView>,
}

impl View for Block {
    type V = BlockView;

    open spec fn view(&self) -> BlockView {
        BlockView {
            element_type: self.element_type,
            text: self.text@,
            page: self.page,
            hierarchy: self.hierarchy.deep_view(),
            table_data: match self.table_data {
                Some(t) => Some(t@),
                None => None,
            },
        }
    }
}

/// A block of the given kind and text on page `page`, with no hierarchy and no table.
pub open spec fn plain_block(element_type: ElementType, text: Seq<char>, page: u32) -> BlockView {
    BlockView { element_type, text, page, hierarchy: seq![], table_data: None }
}

/// The views of a sequence of blocks.
pub open spec fn block_views(blocks: Seq<Block>) -> Seq<BlockView> {
    blocks.map_values(|b: Block| b@)
}

impl Block {
    /// A block of the given kind and text, on page 0, with no hierarchy or table.
    pub fn new(element_type: ElementType, text: String) -> (b: Block)
        ensures
            b@ == plain_block(element_type, text@, 0),
    {
        let b = Block { element_type, text, page: 0, hierarchy: Vec::new(), table_data: None };
        assert(b.hierarchy.deep_view() =~= seq![]);
        b
    }

    /// A block of the given kind and text on page `page`, with no hierarchy or table.
    pub fn on_page(element_type: ElementType, text: String, page: u32) -> (b: Block)
        ensures
            b@ == plain_block(element_type, text@, page),
    {
        let b = Block { element_type, text, page, hierarchy: Vec::new(), table_data: None };
        assert(b.hierarchy.deep_view() =~= seq![]);
        b
    }
}

/// A copy of a list of strings.
pub fn copy_strings(v: &Vec<String>) -> (r: Vec<String>)
    ensures
        r.deep_view() == v.deep_view(),
{
    let mut r: Vec<String> = Vec::new();
    let mut i: usize = 0;
    while i < v.len()
        invariant
            i <= v@.len(),
            r.deep_view() == v.deep_view().take(i as int),
        decreases v@.len() - i,
    {
        let ghost before = r.deep_view();
        r.push(v[i].clone());
        assert(r.deep_view() =~= before.push(v@[i as int]@));
        i += 1;
        assert(v.deep_view().take(i as int) =~= v.deep_view().take(i - 1).push(v@[i - 1]@));
    }
    assert(v.deep_view().take(i as int) =~= v.deep_view());
    r
}

/// A copy of a table.
pub fn copy_table(t: &TableData) -> (r: TableData)
    ensures
        r@ == t@,
{
    let mut rows: Vec<Vec<String>> = Vec::new();
    let mut i: usize = 0;
    while i < t.rows.len()
        invariant
            i <= t.rows@.len(),
            rows.deep_view() == t.rows.deep_view().take(i as int),
        decreases t.rows@.len() - i,
    {
        let ghost before = rows.deep_view();
        rows.push(copy_strings(&t.rows[i]));
        assert(rows.deep_view() =~= before.push(t.rows@[i as int].deep_view()));
        i += 1;
        assert(t.rows.deep_view().take(i as int) =~= t.rows.deep_view().take(i - 1).push(
            t.rows@[i - 1].deep_view(),
        ));
    }
    assert(t.rows.deep_view().take(i as int) =~= t.rows.deep_view());
    let headers = match &t.headers {
        Some(h) => Some(copy_strings(h)),
        None => None,
    };
    TableData { rows, headers }
}

/// A copy of a block.
pub fn copy_block(b: &Block) -> (r: Block)
    ensures
        r@ == b@,
{
    let table_data = match &b.table_data {
        Some(t) => Some(copy_table(t)),
        None => None,
    };
    Block {
        element_type: b.element_type,
        text: b.text.clone(),
        page: b.page,
        hierarchy: copy_strings(&b.hierarchy),
        table_data,
    }
}

/// Copies of the blocks `lo..hi` of a slice.
pub fn copy_blocks(blocks: &[Block], lo: usize, hi: usize) -> (r: Vec<Block>)
    requires
        lo <= hi <= blocks@.len(),
    ensures
        block_views(r@) == block_views(blocks@.subrange(lo as int, hi as int)),
{
    let mut r: Vec<Block> = Vec::new();
    let mut i: usize = lo;
    while i < hi
        invariant
            lo <= i <= hi <= blocks@.len(),
            block_views(r@) == block_views(blocks@.subrange(lo as int, i as int)),
        decreases hi - i,
    {
        let ghost before = block_views(r@);
        r.push(copy_block(&blocks[i]));
        assert(block_views(r@) =~= before.push(blocks@[i as int]@));
        i += 1;
        assert(block_views(blocks@.subrange(lo as int, i as int)) =~= block_views(
            blocks@.subrange(lo as int, i - 1),
        ).push(blocks@[i - 1]@));
    }
    r
}

/// A chunk of a document, ready for embedding. Its sources are the input
/// blocks `source_start..source_end`; extraction confidence, a property of
/// those blocks, is derived beside it in the application.
#[derive(Debug)]
pub struct Chunk {
    pub id: String,
    pub text: String,
    pub token_count: usize,
    pub source_blocks: Vec<Block>,
    pub page_start: u32,
    pub page_end: u32,
    pub overlap_prefix: Option<String>,
    pub source_start: usize,
    pub source_end: usize,
}

/// A chunk as plain values.
pub struct ChunkView {
    pub id: Seq<char>,
    pub text: Seq<char>,
    pub token_count: usize,
    pub source_blocks: Seq<BlockView>,
    pub page_start: u32,
    pub page_end: u32,
    pub overlap_prefix: Option<Seq<char>>,
    pub source_start: usize,
    pub source_end: usize,
}

impl View for Chunk {
    type V = ChunkView;

    open spec fn view(&self) -> ChunkView {
        ChunkView {
            id: self.id@,
            text: self.text@,
            token_count: self.token_count,
            source_blocks: block_views(self.source_blocks@),
            page_start: self.page_start,
            page_end: self.page_end,
            overlap_prefix: match self.overlap_prefix {
                Some(p) => Some(p@),
                None => None,
            },
            source_start: self.source_start,
            source_end: self.source_end,
        }
    }
}

/// The views of a sequence of chunks.
pub open spec fn chunk_views(chunks: Seq<Chunk>) -> Seq<ChunkView> {
    chunks.map_values(|c: Chunk| c@)
}

} // verus!
