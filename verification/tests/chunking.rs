use parser_chunker::chunking::{by_page, by_structure, by_title, fixed_size};
use parser_chunker::chunking::{chunk_blocks, estimate_tokens, fast_estimate_tokens};
use parser_chunker::cli::ChunkStrategy;
use parser_chunker::model::{Block, ElementType, TableData};

fn make_block(text: &str, element_type: ElementType, page: u32) -> Block {
    Block::on_page(element_type, text.to_string(), page)
}

fn text_block(text: &str, page: u32) -> Block {
    make_block(text, ElementType::NarrativeText, page)
}

// ---- by_structure ----

#[test]
fn by_structure_test_empty_blocks() {
    let result = by_structure::chunk(&[], 100, 10).unwrap();
    assert!(result.is_empty());
}

#[test]
fn test_single_block_fits() {
    let blocks = vec![make_block("Hello world", ElementType::NarrativeText, 1)];
    let result = by_structure::chunk(&blocks, 100, 0).unwrap();
    assert_eq!(result.len(), 1);
    assert_eq!(result[0].id, "chunk-0");
    assert!(result[0].text.contains("Hello world"));
}

#[test]
fn test_blocks_split_at_max_tokens() {
    let blocks = vec![
        make_block("The quick brown fox jumps over the lazy dog and runs across the field", ElementType::NarrativeText, 1),
        make_block("Another paragraph with completely different words about technology and science", ElementType::NarrativeText, 1),
    ];
    let result = by_structure::chunk(&blocks, 10, 0).unwrap();
    assert_eq!(result.len(), 2);
}

#[test]
fn test_oversized_table_becomes_own_chunk() {
    let blocks = vec![
        make_block("short", ElementType::NarrativeText, 1),
        make_block(&"x".repeat(500), ElementType::Table, 1),
        make_block("after", ElementType::NarrativeText, 1),
    ];
    let result = by_structure::chunk(&blocks, 20, 0).unwrap();
    assert!(result.len() >= 3);
    assert!(result[1].text.contains(&"x".repeat(100)));
    assert_eq!((result[1].source_start, result[1].source_end), (1, 2));
}

#[test]
fn test_overlap_applied() {
    let blocks = vec![
        make_block("The quick brown fox jumps over the lazy dog and runs across the field", ElementType::NarrativeText, 1),
        make_block("Another paragraph with completely different words about technology and science", ElementType::NarrativeText, 1),
    ];
    let result = by_structure::chunk(&blocks, 10, 5).unwrap();
    assert_eq!(result.len(), 2);
    assert!(result[1].overlap_prefix.is_some());
    assert_eq!(
        result[1].overlap_prefix.as_deref(),
        Some("The quick brown fox jumps over the lazy dog and runs across the field")
    );
    assert!(result[1].text.starts_with("The quick brown fox"));
    assert!(result[0].overlap_prefix.is_none());
}

#[test]
fn structure_exact_texts_and_pages() {
    let blocks = vec![text_block("aaaaa", 2), text_block("bbbbb", 3), text_block("ccccc", 5)];
    // Each block is one estimated token; two fit in a chunk of two tokens.
    let result = by_structure::chunk(&blocks, 2, 0).unwrap();
    assert_eq!(result.len(), 2);
    assert_eq!(result[0].text, "aaaaa\nbbbbb");
    assert_eq!((result[0].page_start, result[0].page_end), (2, 3));
    assert_eq!(result[1].text, "ccccc");
    assert_eq!(result[1].id, "chunk-1");
    assert_eq!(result[1].overlap_prefix.as_deref(), Some(""));
}

// ---- by_title ----

#[test]
fn by_title_test_empty_blocks() {
    let result = by_title::chunk(&[], 100, 0).unwrap();
    assert!(result.is_empty());
}

#[test]
fn test_single_section_no_title() {
    let blocks = vec![text_block("Some text", 1), text_block("More text", 1)];
    let result = by_title::chunk(&blocks, 100, 0).unwrap();
    assert_eq!(result.len(), 1);
}

#[test]
fn test_splits_at_title() {
    let blocks = vec![
        make_block("Introduction", ElementType::Title, 1),
        make_block("Intro text", ElementType::NarrativeText, 1),
        make_block("Chapter 1", ElementType::Title, 2),
        make_block("Chapter text", ElementType::NarrativeText, 2),
    ];
    let result = by_title::chunk(&blocks, 1000, 0).unwrap();
    assert_eq!(result.len(), 2);
    assert!(result[0].text.contains("Introduction"));
    assert!(result[1].text.contains("Chapter 1"));
    assert_eq!(result[1].source_blocks[0].hierarchy, vec!["Chapter 1".to_string()]);
}

#[test]
fn test_large_section_subdivided() {
    let blocks = vec![
        make_block("Title", ElementType::Title, 1),
        make_block(&"a".repeat(200), ElementType::NarrativeText, 1),
        make_block(&"b".repeat(200), ElementType::NarrativeText, 1),
    ];
    let result = by_title::chunk(&blocks, 60, 0).unwrap();
    assert!(result.len() > 1);
    for (k, c) in result.iter().enumerate() {
        assert_eq!(c.id, format!("chunk-{}", k));
    }
}

// ---- by_page ----

#[test]
fn by_page_test_empty_blocks() {
    let result = by_page::chunk(&[], 100, 0).unwrap();
    assert!(result.is_empty());
}

#[test]
fn test_single_page() {
    let blocks = vec![text_block("Hello", 1), text_block("World", 1)];
    let result = by_page::chunk(&blocks, 100, 0).unwrap();
    assert_eq!(result.len(), 1);
    assert_eq!(result[0].page_start, 1);
    assert_eq!(result[0].page_end, 1);
}

#[test]
fn test_multiple_pages() {
    let blocks = vec![text_block("Page 1 text", 1), text_block("Page 2 text", 2), text_block("Page 3 text", 3)];
    let result = by_page::chunk(&blocks, 100, 0).unwrap();
    assert_eq!(result.len(), 3);
    assert_eq!(result[0].page_start, 1);
    assert_eq!(result[1].page_start, 2);
    assert_eq!(result[2].page_start, 3);
}

#[test]
fn test_no_cross_page_chunks() {
    let blocks = vec![text_block("Page 1 text", 1), text_block("Page 2 text", 2)];
    let result = by_page::chunk(&blocks, 1000, 0).unwrap();
    for c in &result {
        assert_eq!(c.page_start, c.page_end, "Chunk should not span pages");
    }
}

#[test]
fn test_large_page_subdivided() {
    let blocks = vec![text_block(&"a".repeat(200), 1), text_block(&"b".repeat(200), 1)];
    let result = by_page::chunk(&blocks, 60, 0).unwrap();
    assert!(result.len() > 1);
    for c in &result {
        assert_eq!(c.page_start, 1);
        assert_eq!(c.page_end, 1);
    }
}

// ---- fixed size ----

#[test]
fn fixed_size_test_empty_blocks() {
    let result = fixed_size::chunk(&[], 100, 0).unwrap();
    assert!(result.is_empty());
}

#[test]
fn test_fits_in_one_chunk() {
    let blocks = vec![text_block("Hello world", 1)];
    let result = fixed_size::chunk(&blocks, 100, 0).unwrap();
    assert_eq!(result.len(), 1);
}

#[test]
fn test_splits_into_multiple_chunks() {
    let blocks = vec![text_block(&"a".repeat(200), 1)];
    let result = fixed_size::chunk(&blocks, 20, 0).unwrap();
    assert!(result.len() > 1);
    // 200 characters in windows of 80.
    assert_eq!(result.len(), 3);
    assert_eq!(result[2].text.len(), 40);
}

#[test]
fn test_overlap_present() {
    let blocks = vec![text_block(&"a".repeat(200), 1)];
    let result = fixed_size::chunk(&blocks, 20, 5).unwrap();
    assert!(result.len() > 1);
    assert!(result[1].overlap_prefix.is_some());
    assert_eq!(result[1].overlap_prefix.as_ref().unwrap().len(), 20);
}

#[test]
fn test_ignores_element_boundaries() {
    let blocks = vec![text_block("aaaa", 1), text_block("bbbb", 1), text_block("cccc", 1)];
    let result = fixed_size::chunk(&blocks, 100, 0).unwrap();
    assert_eq!(result.len(), 1);
    assert!(result[0].text.contains("aaaa"));
    assert!(result[0].text.contains("bbbb"));
    assert!(result[0].text.contains("cccc"));
}

// ---- token estimation ----

#[test]
fn test_estimate_tokens_empty() {
    assert_eq!(estimate_tokens(""), 0);
}

#[test]
fn test_estimate_tokens_short() {
    assert_eq!(estimate_tokens("hello"), 1);
}

#[test]
fn test_estimate_tokens_sentence() {
    let count = estimate_tokens("Hello, world!");
    assert!(count > 0 && count < 10, "Expected small token count, got {}", count);
}

#[test]
fn test_estimate_tokens_longer() {
    let text = "a".repeat(100);
    assert!(estimate_tokens(&text) > 0);
}

#[test]
fn test_estimate_tokens_matches_known_values() {
    assert_eq!(estimate_tokens("tiktoken is great!"), 6);
}

#[test]
fn fast_estimate_rounds_up_bytes() {
    assert_eq!(fast_estimate_tokens(""), 0);
    assert_eq!(fast_estimate_tokens("abcde"), 1);
    assert_eq!(fast_estimate_tokens("abcdef"), 2);
    // 'é' takes two bytes.
    assert_eq!(fast_estimate_tokens("ééééé"), 2);
}

// ---- dispatch ----

#[test]
fn test_chunk_table_never_split() {
    let big_table_text = "Col1|Col2\n".to_string() + &"Row data|More data\n".repeat(100);
    let mut table_block = Block::on_page(ElementType::Table, big_table_text, 1);
    table_block.table_data = Some(TableData {
        rows: (0..100).map(|_| vec!["Row data".into(), "More data".into()]).collect(),
        headers: Some(vec!["Col1".into(), "Col2".into()]),
    });
    let blocks = vec![
        text_block("Intro text.", 1),
        table_block,
        text_block("Conclusion text.", 1),
    ];
    let chunks = chunk_blocks(&blocks, ChunkStrategy::ByStructure, 20, 0).unwrap();
    let tc = chunks
        .iter()
        .find(|c| c.source_blocks.iter().any(|b| b.element_type == ElementType::Table))
        .expect("Table should be present in some chunk");
    let n = tc.source_blocks.iter().filter(|b| b.element_type == ElementType::Table).count();
    assert_eq!(n, 1);
    assert_eq!(tc.source_blocks.len(), 1);
}

#[test]
fn test_chunk_no_empty_chunks() {
    let blocks = vec![
        text_block("Some text content.", 1),
        text_block("More text here.", 1),
        text_block("", 1),
        text_block("Final text.", 2),
    ];
    for strategy in [ChunkStrategy::ByStructure, ChunkStrategy::ByTitle, ChunkStrategy::ByPage, ChunkStrategy::Fixed] {
        let chunks = chunk_blocks(&blocks, strategy, 512, 0).unwrap();
        for chunk in &chunks {
            assert!(!chunk.text.trim().is_empty(), "Strategy {:?} produced empty chunk '{}'", strategy, chunk.id);
        }
    }
}

#[test]
fn test_chunk_no_lost_content() {
    let blocks = vec![
        text_block("First paragraph of the document.", 1),
        text_block("Second paragraph with more info.", 1),
        text_block("Third paragraph for good measure.", 2),
    ];
    let chunks = chunk_blocks(&blocks, ChunkStrategy::ByStructure, 512, 0).unwrap();
    let original: String = blocks.iter().map(|b| b.text.as_str()).collect::<Vec<_>>().join("\n");
    let rebuilt: String = chunks.iter().map(|c| c.text.as_str()).collect::<Vec<_>>().join("\n");
    assert_eq!(original, rebuilt);
}

#[test]
fn test_chunk_deterministic() {
    let blocks = vec![
        text_block("Determinism test paragraph one.", 1),
        text_block("Determinism test paragraph two.", 1),
        text_block("Determinism test paragraph three.", 2),
    ];
    let c1 = chunk_blocks(&blocks, ChunkStrategy::ByStructure, 50, 10).unwrap();
    let c2 = chunk_blocks(&blocks, ChunkStrategy::ByStructure, 50, 10).unwrap();
    assert_eq!(c1.len(), c2.len());
    for (a, b) in c1.iter().zip(c2.iter()) {
        assert_eq!(a.text, b.text);
        assert_eq!(a.token_count, b.token_count);
        assert_eq!(a.id, b.id);
    }
}

#[test]
fn test_by_page_never_crosses_pages() {
    let blocks = vec![
        text_block("Page 1 text A.", 1),
        text_block("Page 1 text B.", 1),
        text_block("Page 2 text A.", 2),
        text_block("Page 3 text A.", 3),
        text_block("Page 3 text B.", 3),
    ];
    let chunks = chunk_blocks(&blocks, ChunkStrategy::ByPage, 512, 0).unwrap();
    for chunk in &chunks {
        assert_eq!(chunk.page_start, chunk.page_end);
    }
    assert!(chunks.len() >= 3);
}

#[test]
fn test_by_title_splits_at_headings() {
    let blocks = vec![
        make_block("Title A", ElementType::Title, 1),
        text_block("Body under A.", 1),
        make_block("Title B", ElementType::Title, 1),
        text_block("Body under B.", 1),
        make_block("Title C", ElementType::Title, 2),
        text_block("Body under C.", 2),
    ];
    let chunks = chunk_blocks(&blocks, ChunkStrategy::ByTitle, 512, 0).unwrap();
    assert_eq!(chunks.len(), 3);
    assert!(chunks[0].text.contains("Title A"));
    assert!(chunks[1].text.contains("Title B"));
    assert!(chunks[2].text.contains("Title C"));
}

#[test]
fn test_fixed_size_produces_uniform_chunks() {
    let long_text = "The quick brown fox jumps over the lazy dog. ".repeat(50);
    let blocks = vec![text_block(&long_text, 1)];
    let chunks = chunk_blocks(&blocks, ChunkStrategy::Fixed, 50, 0).unwrap();
    assert!(chunks.len() > 1);
    let sizes: Vec<usize> = chunks.iter().map(|c| c.text.len()).collect();
    for size in &sizes[..sizes.len() - 1] {
        assert_eq!(*size, 200);
    }
}

#[test]
fn chunk_token_count_is_tokenizer_count() {
    let blocks = vec![text_block("The quick brown fox jumps over the lazy dog.", 1)];
    let chunks = chunk_blocks(&blocks, ChunkStrategy::ByStructure, 512, 0).unwrap();
    assert_eq!(chunks[0].token_count, estimate_tokens(&chunks[0].text));
    assert!(chunks[0].token_count > 0);
}
