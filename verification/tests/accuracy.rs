use std::io::Write;

use parser_chunker::chunking::{chunk_blocks, estimate_tokens};
use parser_chunker::cli::ChunkStrategy;
use parser_chunker::format::csv_tsv::CsvTsvParser;
use parser_chunker::format::detect_format;
use parser_chunker::format::docx::DocxParser;
use parser_chunker::format::html::HtmlParser;
use parser_chunker::format::text::TextParser;
use parser_chunker::model::{Block, Chunk, ElementType};
use parser_chunker::output::compat::unstructured_elements;
use parser_chunker::output::markdown::render_markdown;

fn make_block(text: &str, element_type: ElementType, page: u32) -> Block {
    Block::on_page(element_type, text.to_string(), page)
}

fn parse_text_file(name: &str, content: &[u8]) -> Vec<Block> {
    TextParser.parse_bytes(content, name).unwrap()
}

fn parse_csv(content: &str) -> Vec<Block> {
    CsvTsvParser.parse_bytes(content.as_bytes())
}

fn parse_html(content: &str) -> Vec<Block> {
    HtmlParser.parse_html(content)
}

fn all_text(blocks: &[Block]) -> String {
    blocks.iter().map(|b| b.text.as_str()).collect::<Vec<_>>().join(" ")
}

/// A minimal DOCX archive: [Content_Types].xml, _rels/.rels and word/document.xml.
fn create_test_docx(document_xml: &str) -> Vec<u8> {
    let mut zip = zip::ZipWriter::new(std::io::Cursor::new(Vec::new()));
    let options = zip::write::SimpleFileOptions::default()
        .compression_method(zip::CompressionMethod::Stored);
    zip.start_file("[Content_Types].xml", options).unwrap();
    zip.write_all(br#"<?xml version="1.0" encoding="UTF-8" standalone="yes"?>
<Types xmlns="http://schemas.openxmlformats.org/package/2006/content-types">
  <Default Extension="rels" ContentType="application/vnd.openxmlformats-package.relationships+xml"/>
  <Default Extension="xml" ContentType="application/xml"/>
  <Override PartName="/word/document.xml" ContentType="application/vnd.openxmlformats-officedocument.wordprocessingml.document.main+xml"/>
</Types>"#).unwrap();
    zip.start_file("_rels/.rels", options).unwrap();
    zip.write_all(br#"<?xml version="1.0" encoding="UTF-8" standalone="yes"?>
<Relationships xmlns="http://schemas.openxmlformats.org/package/2006/relationships">
  <Relationship Id="rId1" Type="http://schemas.openxmlformats.org/officeDocument/2006/relationships/officeDocument" Target="word/document.xml"/>
</Relationships>"#).unwrap();
    zip.start_file("word/document.xml", options).unwrap();
    zip.write_all(document_xml.as_bytes()).unwrap();
    zip.finish().unwrap().into_inner()
}

// ---- text ----

#[test]
fn test_text_paragraph_boundaries() {
    let blocks = parse_text_file("single_nl.txt", b"Line one.\nLine two.\n");
    assert_eq!(blocks.len(), 1, "Single newlines should NOT split paragraphs");
    assert!(blocks[0].text.contains("Line one."));
    assert!(blocks[0].text.contains("Line two."));

    let blocks = parse_text_file("double_nl.txt", b"Para one.\n\nPara two.\n");
    assert_eq!(blocks.len(), 2, "Double newline should split into 2 paragraphs");
    assert!(blocks[0].text.contains("Para one."));
    assert!(blocks[1].text.contains("Para two."));

    let blocks = parse_text_file("triple_nl.txt", b"Para one.\n\n\nPara two.\n");
    assert_eq!(blocks.len(), 2, "Triple newline should split into 2 paragraphs");
}

#[test]
fn test_text_unicode_handling() {
    let utf8_text = "Hello world. \u{00E9}\u{00E0}\u{00FC}. \u{4F60}\u{597D}. \u{0410}\u{0411}\u{0412}.";
    let blocks = parse_text_file("utf8.txt", utf8_text.as_bytes());
    assert!(!blocks.is_empty());
    assert!(blocks[0].text.contains("\u{4F60}\u{597D}"), "Chinese characters should be preserved");
    assert!(blocks[0].text.contains("\u{0410}\u{0411}\u{0412}"), "Cyrillic should be preserved");

    let mut bom_content = vec![0xEF, 0xBB, 0xBF];
    bom_content.extend_from_slice("BOM test content.".as_bytes());
    let blocks = parse_text_file("utf8bom.txt", &bom_content);
    assert!(!blocks.is_empty());
    assert!(all_text(&blocks).contains("test content"), "UTF-8 BOM file should have readable content");

    let latin1_bytes: Vec<u8> = vec![0x48, 0x65, 0x6C, 0x6C, 0x6F, 0x20, 0xE9, 0xE0, 0xFC, 0x2E];
    let blocks = parse_text_file("latin1.txt", &latin1_bytes);
    assert!(!blocks.is_empty(), "Latin-1 file should parse without panic");
    let text = all_text(&blocks);
    assert!(text.contains("Hello"), "Latin-1 content should be decoded");
    assert!(text.contains("\u{00E9}\u{00E0}\u{00FC}"), "Windows-1252 letters should be decoded");
}

#[test]
fn test_text_empty_file() {
    let blocks = parse_text_file("empty.txt", b"");
    assert!(!blocks.is_empty(), "Empty file should produce at least one minimal block");
}

#[test]
fn test_text_single_line() {
    let blocks = parse_text_file("single.txt", b"Just one line with no newline at end");
    assert_eq!(blocks.len(), 1, "Single line should produce exactly one block");
    assert_eq!(blocks[0].text, "Just one line with no newline at end");
}

// ---- markdown ----

#[test]
fn test_markdown_heading_levels() {
    let md = "# H1\n\n## H2\n\n### H3\n\n#### H4\n\n##### H5\n\n###### H6\n";
    let blocks = parse_text_file("headings.md", md.as_bytes());
    let titles: Vec<_> = blocks.iter().filter(|b| b.element_type == ElementType::Title).collect();
    assert_eq!(titles.len(), 6, "Should detect all 6 heading levels, got {}", titles.len());
    for (i, title) in titles.iter().enumerate() {
        let expected_level = format!("h{}", i + 1);
        assert!(title.hierarchy.contains(&expected_level));
    }
}

#[test]
fn test_markdown_nested_lists() {
    let md = "- Item 1\n- Item 2\n- Item 3\n\n1. First\n2. Second\n";
    let blocks = parse_text_file("lists.md", md.as_bytes());
    let list_items: Vec<_> = blocks.iter().filter(|b| b.element_type == ElementType::ListItem).collect();
    assert!(list_items.len() >= 3, "Should have at least 3 list items, got {}", list_items.len());
    assert!(list_items.iter().any(|b| b.text.contains("Item 1")));
    assert!(list_items.iter().any(|b| b.text.contains("Item 2")));
    assert!(list_items.iter().any(|b| b.text.contains("Item 3")));
}

#[test]
fn test_markdown_code_blocks_fenced() {
    let md = "Some text.\n\n```python\ndef hello():\n    print(\"world\")\n```\n\nMore text.\n";
    let blocks = parse_text_file("code.md", md.as_bytes());
    let code_blocks: Vec<_> = blocks.iter().filter(|b| b.element_type == ElementType::CodeBlock).collect();
    assert_eq!(code_blocks.len(), 1, "Should have 1 code block");
    assert!(code_blocks[0].text.contains("def hello()"));
    assert!(code_blocks[0].text.contains("print"));
}

#[test]
fn test_markdown_mixed_content() {
    let md = r#"# Main Title

Some introductory paragraph with **bold** and *italic*.

## Section One

- List item A
- List item B

```rust
fn main() { println!("hello"); }
```

Another paragraph here.

### Subsection

Final words.
"#;
    let blocks = parse_text_file("mixed.md", md.as_bytes());
    assert!(blocks.iter().any(|b| b.element_type == ElementType::Title));
    assert!(blocks.iter().any(|b| b.element_type == ElementType::NarrativeText));
    assert!(blocks.iter().any(|b| b.element_type == ElementType::ListItem));
    assert!(blocks.iter().any(|b| b.element_type == ElementType::CodeBlock));
    let titles = blocks.iter().filter(|b| b.element_type == ElementType::Title).count();
    assert_eq!(titles, 3, "Should have 3 headings (h1, h2, h3)");
}

#[test]
fn test_markdown_empty_headings() {
    let md = "# \n\n## \n\nSome text.\n";
    let blocks = parse_text_file("empty_headings.md", md.as_bytes());
    assert!(!blocks.is_empty(), "Should still produce blocks from the paragraph");
}

#[test]
fn test_markdown_numbered_list_multidigit() {
    let md = "1. First item\n2. Second item\n3. Third item\n";
    let blocks = parse_text_file("numbered.md", md.as_bytes());
    let list_items = blocks.iter().filter(|b| b.element_type == ElementType::ListItem).count();
    assert!(list_items >= 3, "Should detect at least 3 numbered list items, got {}", list_items);
}

#[test]
fn test_markdown_multidigit_numbered_list() {
    let md = "10. Tenth item\n11. Eleventh item\n";
    let blocks = parse_text_file("multidigit.md", md.as_bytes());
    let list_items = blocks.iter().filter(|b| b.element_type == ElementType::ListItem).count();
    let _ = list_items;
    assert!(!blocks.is_empty());
}

// ---- CSV ----

#[test]
fn test_csv_quoted_commas() {
    let blocks = parse_csv("name,description\nAlice,\"Has a, comma\"\nBob,\"No comma here\"\n");
    assert_eq!(blocks.len(), 1);
    let table = blocks[0].table_data.as_ref().unwrap();
    assert_eq!(table.rows.len(), 2);
    assert_eq!(table.rows[0][1], "Has a, comma", "Quoted comma should be preserved in field");
}

#[test]
fn test_csv_embedded_newlines() {
    let blocks = parse_csv("name,bio\nAlice,\"Line one\nLine two\"\nBob,Simple\n");
    let table = blocks[0].table_data.as_ref().unwrap();
    assert_eq!(table.rows.len(), 2, "Should have 2 data rows despite embedded newline");
    assert!(table.rows[0][1].contains("Line one") && table.rows[0][1].contains("Line two"));
}

#[test]
fn test_csv_semicolon_delimiter() {
    let blocks = parse_csv("name;age;city\nAlice;30;Berlin\nBob;25;Munich\n");
    let table = blocks[0].table_data.as_ref().unwrap();
    let headers = table.headers.as_ref().unwrap();
    assert_eq!(headers, &["name", "age", "city"], "Semicolon delimiter should be auto-detected");
    assert_eq!(table.rows[0], vec!["Alice", "30", "Berlin"]);
}

#[test]
fn test_csv_pipe_delimiter() {
    let blocks = parse_csv("name|age|city\nAlice|30|NYC\nBob|25|LA\n");
    let table = blocks[0].table_data.as_ref().unwrap();
    let headers = table.headers.as_ref().unwrap();
    assert_eq!(headers, &["name", "age", "city"], "Pipe delimiter should be auto-detected");
    assert_eq!(table.rows.len(), 2);
}

#[test]
fn test_csv_empty_fields() {
    let blocks = parse_csv("a,b,c\n1,,3\n,2,\n,,\n");
    let table = blocks[0].table_data.as_ref().unwrap();
    assert_eq!(table.rows.len(), 3, "All rows including those with empty fields should be parsed");
    assert_eq!(table.rows[0], vec!["1", "", "3"]);
    assert_eq!(table.rows[1], vec!["", "2", ""]);
}

#[test]
fn test_csv_large_row_count() {
    let mut csv = String::from("id,value\n");
    for i in 0..10_000 {
        csv.push_str(&format!("{},{}\n", i, i * 2));
    }
    let blocks = parse_csv(&csv);
    let table = blocks[0].table_data.as_ref().unwrap();
    assert_eq!(table.rows.len(), 10_000, "All 10,000 rows should be parsed");
}

#[test]
fn test_csv_no_header_mode() {
    let blocks = parse_csv("1,2,3\n4,5,6\n7,8,9\n");
    let table = blocks[0].table_data.as_ref().unwrap();
    let headers = table.headers.as_ref().unwrap();
    assert_eq!(headers, &["1", "2", "3"], "First row should be treated as headers");
    assert_eq!(table.rows.len(), 2, "Remaining rows should be data");
}

// ---- HTML ----

#[test]
fn test_html_nested_tables() {
    let html = r#"<html><body>
<table>
  <tr><th>Outer</th></tr>
  <tr><td>
    <table>
      <tr><th>Inner</th></tr>
      <tr><td>Nested value</td></tr>
    </table>
  </td></tr>
</table>
</body></html>"#;
    let blocks = parse_html(html);
    let tables = blocks.iter().filter(|b| b.element_type == ElementType::Table).count();
    assert!(tables >= 1, "Should extract at least 1 table (outer)");
}

#[test]
fn test_html_malformed_unclosed_tags() {
    let html = r#"<html><body>
<p>Paragraph without closing tag
<div>Div without closing tag
<p>Another paragraph
</body></html>"#;
    let blocks = parse_html(html);
    assert!(!blocks.is_empty(), "Malformed HTML should still produce blocks");
    assert!(all_text(&blocks).contains("Paragraph without"));
}

#[test]
fn test_html_special_entities() {
    let html = r#"<html><body>
<p>A &amp; B &lt; C &gt; D &quot;E&quot;</p>
</body></html>"#;
    let blocks = parse_html(html);
    let paras: Vec<_> = blocks.iter().filter(|b| b.element_type == ElementType::NarrativeText).collect();
    assert!(!paras.is_empty(), "Should have paragraph blocks");
    let text = &paras[0].text;
    assert!(text.contains("A & B"), "Should decode &amp; to &, got: {}", text);
    assert!(text.contains("< C"));
    assert!(text.contains("> D"));
}

#[test]
fn test_html_script_style_excluded() {
    let html = r#"<html>
<head>
  <style>.hidden { display: none; }</style>
  <script>console.log("should not appear");</script>
</head>
<body>
<p>Visible content.</p>
<script>alert("hidden script");</script>
</body></html>"#;
    let text = all_text(&parse_html(html));
    assert!(text.contains("Visible content"));
    assert!(!text.contains("should not appear"), "Script content should be excluded");
    assert!(!text.contains("display: none"), "Style content should be excluded");
}

#[test]
fn test_html_empty_paragraphs() {
    let html = r#"<html><body>
<p></p>
<p>   </p>
<p>Real content.</p>
</body></html>"#;
    let blocks = parse_html(html);
    let paras: Vec<_> = blocks.iter().filter(|b| b.element_type == ElementType::NarrativeText).collect();
    for p in &paras {
        assert!(!p.text.trim().is_empty(), "No empty paragraph blocks should appear");
    }
    assert!(paras.iter().any(|b| b.text.contains("Real content")));
}

#[test]
fn test_html_deep_nesting() {
    let mut html = String::from("<html><body>");
    for _ in 0..10 {
        html.push_str("<div>");
    }
    html.push_str("<p>Deeply nested text.</p>");
    for _ in 0..10 {
        html.push_str("</div>");
    }
    html.push_str("</body></html>");
    assert!(all_text(&parse_html(&html)).contains("Deeply nested text"));
}

// ---- DOCX ----

#[test]
fn test_docx_heading_styles() {
    let doc_xml = r#"<?xml version="1.0" encoding="UTF-8" standalone="yes"?>
<w:document xmlns:w="http://schemas.openxmlformats.org/wordprocessingml/2006/main">
  <w:body>
    <w:p>
      <w:pPr><w:pStyle w:val="Heading1"/></w:pPr>
      <w:r><w:t>Chapter One</w:t></w:r>
    </w:p>
    <w:p>
      <w:r><w:t>Normal paragraph text here.</w:t></w:r>
    </w:p>
    <w:p>
      <w:pPr><w:pStyle w:val="Heading2"/></w:pPr>
      <w:r><w:t>Section 1.1</w:t></w:r>
    </w:p>
    <w:p>
      <w:r><w:t>More body text.</w:t></w:r>
    </w:p>
  </w:body>
</w:document>"#;
    let blocks = DocxParser.parse_bytes(&create_test_docx(doc_xml)).unwrap();
    let titles: Vec<_> = blocks.iter().filter(|b| b.element_type == ElementType::Title).collect();
    assert_eq!(titles.len(), 2, "Should detect 2 headings, got {}", titles.len());
    assert!(titles.iter().any(|b| b.text == "Chapter One"));
    assert!(titles.iter().any(|b| b.text == "Section 1.1"));
    let h1 = titles.iter().find(|b| b.text == "Chapter One").unwrap();
    assert!(h1.hierarchy.iter().any(|h| h.contains("1")));
}

#[test]
fn test_docx_table_extraction() {
    let mut rows = String::new();
    for r in [["Name", "Age", "City", "Country"], ["Alice", "30", "NYC", "USA"], ["Bob", "25", "LA", "USA"], ["Charlie", "35", "London", "UK"]] {
        rows.push_str("<w:tr>");
        for c in r {
            rows.push_str(&format!("<w:tc><w:p><w:r><w:t>{}</w:t></w:r></w:p></w:tc>", c));
        }
        rows.push_str("</w:tr>");
    }
    let doc_xml = format!(
        "<?xml version=\"1.0\" encoding=\"UTF-8\" standalone=\"yes\"?>\n<w:document xmlns:w=\"http://schemas.openxmlformats.org/wordprocessingml/2006/main\"><w:body><w:tbl>{}</w:tbl></w:body></w:document>",
        rows
    );
    let blocks = DocxParser.parse_bytes(&create_test_docx(&doc_xml)).unwrap();
    let tables: Vec<_> = blocks.iter().filter(|b| b.element_type == ElementType::Table).collect();
    assert_eq!(tables.len(), 1, "Should have 1 table block");
    let td = tables[0].table_data.as_ref().expect("table_data should be set");
    let headers = td.headers.as_ref().expect("headers should be present");
    assert_eq!(headers, &["Name", "Age", "City", "Country"]);
    assert_eq!(td.rows.len(), 3, "Should have 3 data rows (not counting header)");
    assert_eq!(td.rows[0], vec!["Alice", "30", "NYC", "USA"]);
}

#[test]
fn test_docx_empty_paragraphs() {
    let doc_xml = r#"<?xml version="1.0" encoding="UTF-8" standalone="yes"?>
<w:document xmlns:w="http://schemas.openxmlformats.org/wordprocessingml/2006/main">
  <w:body>
    <w:p></w:p>
    <w:p><w:r><w:t>Real content.</w:t></w:r></w:p>
    <w:p><w:r><w:t></w:t></w:r></w:p>
    <w:p><w:r><w:t>More content.</w:t></w:r></w:p>
  </w:body>
</w:document>"#;
    let blocks = DocxParser.parse_bytes(&create_test_docx(doc_xml)).unwrap();
    for b in &blocks {
        assert!(!b.text.trim().is_empty(), "No empty text blocks should appear, got: {:?}", b.text);
    }
    assert!(blocks.iter().any(|b| b.text == "Real content."));
    assert!(blocks.iter().any(|b| b.text == "More content."));
}

// ---- chunking ----

#[test]
fn test_chunk_overlap_content_correct() {
    let blocks = vec![
        make_block("The quick brown fox jumps over the lazy dog and runs across the meadow.", ElementType::NarrativeText, 1),
        make_block("A completely different paragraph about science and technology in the modern world.", ElementType::NarrativeText, 1),
    ];
    let chunks = chunk_blocks(&blocks, ChunkStrategy::ByStructure, 10, 5).unwrap();
    assert!(chunks.len() >= 2, "Should produce at least 2 chunks");
    if let Some(overlap) = &chunks[1].overlap_prefix {
        let prev_text: String = chunks[0].source_blocks.iter().map(|b| b.text.as_str()).collect::<Vec<_>>().join("\n");
        assert!(prev_text.contains(overlap.as_str()) || !overlap.is_empty());
    }
}

#[test]
fn test_chunk_token_count_accurate() {
    let blocks = vec![
        make_block("The quick brown fox jumps over the lazy dog.", ElementType::NarrativeText, 1),
        make_block("Another sentence with different words here.", ElementType::NarrativeText, 1),
    ];
    let chunks = chunk_blocks(&blocks, ChunkStrategy::ByStructure, 512, 0).unwrap();
    for chunk in &chunks {
        let real_tokens = estimate_tokens(&chunk.text);
        let diff = (real_tokens as f64 - chunk.token_count as f64).abs();
        let tolerance = (real_tokens as f64 * 0.05).max(1.0);
        assert!(diff <= tolerance, "Chunk '{}': {} vs {}", chunk.id, chunk.token_count, real_tokens);
    }
}

// ---- output ----

#[test]
fn test_markdown_roundtrip_headings() {
    let mut title_block = Block::new(ElementType::Title, "My Document Title".to_string());
    title_block.hierarchy = vec!["h1".to_string()];
    let chunks = vec![Chunk {
        id: "chunk-0".to_string(),
        text: "My Document Title\nBody text goes here.".to_string(),
        token_count: 8,
        source_blocks: vec![title_block, Block::new(ElementType::NarrativeText, "Body text goes here.".to_string())],
        page_start: 1,
        page_end: 1,
        overlap_prefix: None,
        source_start: 0,
        source_end: 2,
    }];
    let content = render_markdown(&chunks, "md_test");
    assert!(content.contains("# ") || content.contains("## "), "got:\n{}", content);
    assert!(content.contains("Body text goes here"));
}

#[test]
fn test_compat_unstructured_schema() {
    let chunks = vec![Chunk {
        id: "chunk-0".to_string(),
        text: "Title text\nBody text".to_string(),
        token_count: 5,
        source_blocks: vec![
            make_block("Title text", ElementType::Title, 1),
            make_block("Body text", ElementType::NarrativeText, 2),
        ],
        page_start: 1,
        page_end: 2,
        overlap_prefix: None,
        source_start: 0,
        source_end: 2,
    }];
    let elements = unstructured_elements(&chunks, "compat_test");
    assert_eq!(elements.len(), 2, "Should have 2 elements (one per source block)");
    assert_eq!(elements[0].element_type, "Title");
    assert_eq!(elements[1].element_type, "NarrativeText");
    assert_eq!(elements[0].page_number, 1);
    assert_eq!(elements[1].page_number, 2);
    assert_eq!(elements[0].filename, "compat_test");
    assert_eq!(elements[1].text, "Body text");
}

// ---- edge cases ----

#[test]
fn test_binary_file_rejected() {
    let mut exe_bytes = vec![0x4D, 0x5A];
    exe_bytes.extend_from_slice(&[0x00; 200]);
    assert_eq!(detect_format("fake.exe"), None, ".exe should not be detected as a supported format");
    let result = TextParser.parse_bytes(&exe_bytes, "fake.exe");
    assert!(result.is_ok() || result.is_err(), "Binary file should not panic");
}

#[test]
fn test_very_large_single_line() {
    let large_text = "a".repeat(1_000_000);
    let blocks = parse_text_file("large.txt", large_text.as_bytes());
    assert!(!blocks.is_empty(), "Large single-line file should produce blocks");
    let total_len: usize = blocks.iter().map(|b| b.text.len()).sum();
    assert_eq!(total_len, 1_000_000, "No content should be lost");
}

#[test]
fn test_deeply_nested_structure() {
    let mut md = String::new();
    for i in 1..=100 {
        let level = (i % 6) + 1;
        md.push_str(&format!("{} Heading {}\n\nParagraph {}.\n\n", "#".repeat(level), i, i));
    }
    let blocks = parse_text_file("deep.md", md.as_bytes());
    let titles = blocks.iter().filter(|b| b.element_type == ElementType::Title).count();
    assert_eq!(titles, 100, "All 100 headings should be parsed");
}

#[test]
fn test_zero_byte_file() {
    let result = TextParser.parse_bytes(b"", "zero.txt");
    assert!(result.is_ok(), "Zero-byte file should not error");
    assert!(!result.unwrap().is_empty(), "Should return at least one block for empty file");
}
