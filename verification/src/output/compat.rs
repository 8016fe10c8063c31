//! Output in the element schema of Unstructured.io.
use vstd::prelude::*;

use crate::model::{block_views, chunk_views, BlockView, Chunk, ChunkView, ElementType};

verus! {

/// The Unstructured.io type name of each element kind.
pub open spec fn unstructured_type(et: ElementType) -> Seq<char> {
    match et {
        ElementType::Title => "Title"@,
        ElementType::NarrativeText => "NarrativeText"@,
        ElementType::ListItem => "ListItem"@,
        ElementType::Table => "Table"@,
        ElementType::Image => "Image"@,
        ElementType::Header => "Header"@,
        ElementType::Footer => "Footer"@,
        ElementType::CodeBlock => "UncategorizedText"@,
        ElementType::EmailBody => "NarrativeText"@,
        ElementType::EmailHeader => "Header"@,
        ElementType::PageBreak => "UncategorizedText"@,
        ElementType::Caption => "NarrativeText"@,
        ElementType::Formula => "UncategorizedText"@,
        ElementType::Address => "NarrativeText"@,
        ElementType::Unknown => "UncategorizedText"@,
    }
}

/// Map an element kind to its Unstructured.io type name.
pub fn map_element_type(et: &ElementType) -> (name: &'static str)
    ensures
        name@ == unstructured_type(*et),
{
    match et {
        ElementType::Title => "Title",
        ElementType::NarrativeText => "NarrativeText",
        ElementType::ListItem => "ListItem",
        ElementType::Table => "Table",
        ElementType::Image => "Image",
        ElementType::Header => "Header",
        ElementType::Footer => "Footer",
        ElementType::CodeBlock => "UncategorizedText",
        ElementType::EmailBody => "NarrativeText",
        ElementType::EmailHeader => "Header",
        // Everything else maps to UncategorizedText
        ElementType::PageBreak => "UncategorizedText",
        ElementType::Caption => "NarrativeText",
        ElementType::Formula => "UncategorizedText",
        ElementType::Address => "NarrativeText",
        ElementType::Unknown => "UncategorizedText",
    }
}


/// An element of the Unstructured.io schema: its type name, text, page and file name.
pub struct UnstructuredElement {
    pub element_type: &'static str,
    pub text: String,
    pub page_number: u32,
    pub filename: String,
}

/// An element as plain values.
pub struct UnstructuredView {
    pub element_type: Seq<char>,
    pub text: Seq<char>,
    pub page_number: u32,
    pub filename: Seq<char>,
}

impl View for UnstructuredElement {
    type V = UnstructuredView;

    open spec fn view(&self) -> UnstructuredView {
        UnstructuredView {
            element_type: self.element_type@,
            text: self.text@,
            page_number: self.page_number,
            filename: self.filename@,
        }
    }
}

/// The elements of blocks: one per block with text.
pub open spec fn block_elements(bs: Seq<BlockView>, name: Seq<char>) -> Seq<UnstructuredView>
    decreases bs.len(),
{
    if bs.len() == 0 {
        seq![]
    } else {
        let before = block_elements(bs.drop_last(), name);
        let b = bs.last();
        if b.text.len() == 0 {
            before
        } else {
            before.push(UnstructuredView {
                element_type: unstructured_type(b.element_type),
                text: b.text,
                page_number: b.page,
                filename: name,
            })
        }
    }
}

/// The elements of the first `k` chunks: a chunk's blocks with text, or, for a
/// chunk without blocks, its text as narrative on its first page.
pub open spec fn chunk_elements(cs: Seq<ChunkView>, k: int, name: Seq<char>) -> Seq<UnstructuredView>
    decreases k,
{
    if k <= 0 {
        seq![]
    } else {
        let c = cs[k - 1];
        chunk_elements(cs, k - 1, name) + if c.source_blocks.len() == 0 {
            seq![UnstructuredView { element_type: "NarrativeText"@, text: c.text, page_number: c.page_start, filename: name }]
        } else {
            block_elements(c.source_blocks, name)
        }
    }
}

/// The Unstructured.io elements of a file's chunks: one per source block (not per chunk).
pub fn unstructured_elements(chunks: &[Chunk], input_filename: &str) -> (els: Vec<UnstructuredElement>)
    ensures
        els@.map_values(|e: UnstructuredElement| e@) == chunk_elements(chunk_views(chunks@), chunks@.len() as int, input_filename@),
{
    let ghost cv = chunk_views(chunks@);
    let mut els: Vec<UnstructuredElement> = Vec::new();
    let mut i: usize = 0;
    while i < chunks.len()
        invariant
            i <= chunks@.len(),
            cv == chunk_views(chunks@),
            els@.map_values(|e: UnstructuredElement| e@) == chunk_elements(cv, i as int, input_filename@),
        decreases chunks@.len() - i,
    {
        let c = &chunks[i];
        let ghost before = els@.map_values(|e: UnstructuredElement| e@);
        if c.source_blocks.len() == 0 {
            els.push(UnstructuredElement {
                element_type: "NarrativeText",
                text: c.text.clone(),
                page_number: c.page_start,
                filename: String::from_str(input_filename),
            });
            assert(els@.map_values(|e: UnstructuredElement| e@) =~= chunk_elements(cv, i + 1, input_filename@));
        } else {
            let ghost bv = block_views(c.source_blocks@);
            let mut j: usize = 0;
            while j < c.source_blocks.len()
                invariant
                    j <= c.source_blocks@.len(),
                    bv == block_views(c.source_blocks@),
                    els@.map_values(|e: UnstructuredElement| e@) == before + block_elements(bv.take(j as int), input_filename@),
                decreases c.source_blocks@.len() - j,
            {
                assert(bv.take(j + 1).drop_last() =~= bv.take(j as int));
                let b = &c.source_blocks[j];
                if !b.text.as_str().is_empty() {
                    let ghost prev = els@.map_values(|e: UnstructuredElement| e@);
                    let e = UnstructuredElement {
                        element_type: map_element_type(&b.element_type),
                        text: b.text.clone(),
                        page_number: b.page,
                        filename: String::from_str(input_filename),
                    };
                    let ghost ev = e@;
                    els.push(e);
                    assert(els@.map_values(|e: UnstructuredElement| e@) =~= prev.push(ev));
                }
                j += 1;
            }
            assert(bv.take(j as int) =~= bv);
        }
        i += 1;
    }
    els
}

} // verus!
