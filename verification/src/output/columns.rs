//! The per-chunk columns of the tabular (Parquet) output.
use vstd::prelude::*;

use crate::format::email::join_with;
use crate::model::{block_views, BlockView, Chunk, ElementType};

verus! {

/// The name of an element kind as its variant is spelled.
pub open spec fn kind_name(et: ElementType) -> Seq<char> {
    match et {
        ElementType::Title => "Title"@,
        ElementType::Header => "Header"@,
        ElementType::NarrativeText => "NarrativeText"@,
        ElementType::ListItem => "ListItem"@,
        ElementType::Table => "Table"@,
        ElementType::Image => "Image"@,
        ElementType::PageBreak => "PageBreak"@,
        ElementType::Footer => "Footer"@,
        ElementType::Caption => "Caption"@,
        ElementType::Formula => "Formula"@,
        ElementType::CodeBlock => "CodeBlock"@,
        ElementType::Address => "Address"@,
        ElementType::EmailBody => "EmailBody"@,
        ElementType::EmailHeader => "EmailHeader"@,
        ElementType::Unknown => "Unknown"@,
    }
}

/// The name of an element kind as its variant is spelled.
pub fn element_type_name(et: ElementType) -> (name: &'static str)
    ensures
        name@ == kind_name(et),
{
    match et {
        ElementType::Title => "Title",
        ElementType::Header => "Header",
        ElementType::NarrativeText => "NarrativeText",
        ElementType::ListItem => "ListItem",
        ElementType::Table => "Table",
        ElementType::Image => "Image",
        ElementType::PageBreak => "PageBreak",
        ElementType::Footer => "Footer",
        ElementType::Caption => "Caption",
        ElementType::Formula => "Formula",
        ElementType::CodeBlock => "CodeBlock",
        ElementType::Address => "Address",
        ElementType::EmailBody => "EmailBody",
        ElementType::EmailHeader => "EmailHeader",
        ElementType::Unknown => "Unknown",
    }
}

/// The kinds of a run of blocks, each repeat of the kind just before left out.
pub open spec fn kind_runs(bs: Seq<BlockView>) -> Seq<ElementType>
    decreases bs.len(),
{
    if bs.len() == 0 {
        seq![]
    } else {
        let before = kind_runs(bs.drop_last());
        let k = bs.last().element_type;
        if bs.len() > 1 && bs[bs.len() - 2].element_type == k { before } else { before.push(k) }
    }
}

/// The element-types column of a chunk: the kind names of its blocks, a kind
/// repeated by the next block written once, joined by commas.
pub open spec fn element_types_column(bs: Seq<BlockView>) -> Seq<char> {
    join_with(kind_runs(bs).map_values(|k: ElementType| kind_name(k)), ","@)
}

/// Whether a chunk holds a table block.
pub open spec fn has_table_column(bs: Seq<BlockView>) -> bool {
    exists|i: int| 0 <= i < bs.len() && bs[i].element_type == ElementType::Table
}

/// The element-types column of a chunk.
pub fn chunk_element_types(c: &Chunk) -> (s: String)
    ensures
        s@ == element_types_column(block_views(c.source_blocks@)),
{
    let ghost bs = block_views(c.source_blocks@);
    let mut names: Vec<String> = Vec::new();
    let mut kinds: Vec<ElementType> = Vec::new();
    let mut i: usize = 0;
    assert(bs.take(0) =~= seq![]);
    while i < c.source_blocks.len()
        invariant
            i <= c.source_blocks@.len(),
            bs == block_views(c.source_blocks@),
            kinds@ == kind_runs(bs.take(i as int)),
            names.deep_view() == kinds@.map_values(|k: ElementType| kind_name(k)),
        decreases c.source_blocks@.len() - i,
    {
        let k = c.source_blocks[i].element_type;
        assert(bs.take(i + 1).drop_last() =~= bs.take(i as int));
        assert(bs[i as int].element_type == k);
        let repeat = i > 0 && c.source_blocks[i - 1].element_type == k;
        proof {
            if i > 0 {
                assert(bs.take(i + 1)[i - 1] == bs[i - 1]);
            }
        }
        if !repeat {
            let ghost before = names.deep_view();
            let ghost kinds_before = kinds@;
            kinds.push(k);
            let n = String::from_str(element_type_name(k));
            assert(n@ == kind_name(k));
            names.push(n);
            assert(names.deep_view() =~= before.push(kind_name(k)));
            assert(kinds@ =~= kinds_before.push(k));
            assert(names.deep_view() =~= kinds@.map_values(|k: ElementType| kind_name(k)));
        }
        i += 1;
    }
    assert(bs.take(i as int) =~= bs);
    crate::format::email::join_strings(&names, ",")
}

/// The has-table column of a chunk.
pub fn chunk_has_table(c: &Chunk) -> (b: bool)
    ensures
        b == has_table_column(block_views(c.source_blocks@)),
{
    let ghost bs = block_views(c.source_blocks@);
    let mut i: usize = 0;
    while i < c.source_blocks.len()
        invariant
            i <= c.source_blocks@.len(),
            bs == block_views(c.source_blocks@),
            forall|j: int| 0 <= j < i ==> bs[j].element_type != ElementType::Table,
        decreases c.source_blocks@.len() - i,
    {
        if c.source_blocks[i].element_type == ElementType::Table {
            assert(bs[i as int].element_type == ElementType::Table);
            return true;
        }
        i += 1;
    }
    false
}

} // verus!
