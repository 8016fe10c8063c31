use parser_chunker::cli::{EXIT_FAILURE, EXIT_PARTIAL, EXIT_SUCCESS};
use parser_chunker::orchestrator::{block_confidences, run_exit_code};
use parser_chunker::output::columns::{chunk_element_types, chunk_has_table};
use parser_chunker::vision::ocr::ctc_decode;
use parser_chunker::format::zip_contents_format;
use std::io::Write;

use parser_chunker::chunking::{chunk_blocks, estimate_tokens};
use parser_chunker::cli::ChunkStrategy;
use parser_chunker::config::{ChunkStrategyConfig, PerDocConfig};
use parser_chunker::format::csv_tsv::CsvTsvParser;
use parser_chunker::format::html::HtmlParser;
use parser_chunker::format::msg::MsgParser;
use parser_chunker::format::rtf::RtfParser;
use parser_chunker::format::text::TextParser;
use parser_chunker::format::{detect_format, detect_format_by_magic, zip_entries_format};
use parser_chunker::model::{Block, Chunk, ElementType, TableData};
use parser_chunker::orchestrator::{
    chunk_document, document_settings, get_parser, route_format, should_use_vision, ParserKind,
};
use parser_chunker::output::markdown::render_markdown;
use parser_chunker::vision::layout::LayoutDetector;
use parser_chunker::Error;

fn make_block(text: &str, element_type: ElementType, page: u32) -> Block {
    Block::on_page(element_type, text.to_string(), page)
}

fn all_text(blocks: &[Block]) -> String {
    blocks.iter().map(|b| b.text.as_str()).collect::<Vec<_>>().join(" ")
}

// ---- parsing ----

#[test]
fn test_parse_plain_text() {
    assert_eq!(get_parser("text"), Some(ParserKind::Text));
    let blocks = TextParser
        .parse_bytes(b"First paragraph line one.\nFirst paragraph line two.\n\nSecond paragraph.\n", "sample.txt")
        .unwrap();
    assert!(blocks.len() >= 2, "Expected at least 2 paragraph blocks, got {}", blocks.len());
    assert!(blocks.iter().all(|b| b.element_type == ElementType::NarrativeText));
    assert!(blocks[0].text.contains("First paragraph"));
    assert!(blocks[1].text.contains("Second paragraph"));
}

#[test]
fn test_parse_markdown() {
    let md = r#"# Main Title

Some introductory text.

## Sub Section

- Item one
- Item two

```rust
fn main() {}
```

Final paragraph.
"#;
    let blocks = TextParser.parse_bytes(md.as_bytes(), "sample.md").unwrap();
    let titles: Vec<_> = blocks.iter().filter(|b| b.element_type == ElementType::Title).collect();
    assert!(titles.len() >= 2, "Expected at least 2 heading blocks, got {}", titles.len());
    assert!(titles.iter().any(|b| b.text.contains("Main Title")));
    assert!(titles.iter().any(|b| b.text.contains("Sub Section")));
    let list_items = blocks.iter().filter(|b| b.element_type == ElementType::ListItem).count();
    assert!(list_items >= 2, "Expected at least 2 list items, got {}", list_items);
    let code_blocks: Vec<_> = blocks.iter().filter(|b| b.element_type == ElementType::CodeBlock).collect();
    assert!(!code_blocks.is_empty(), "Expected at least 1 code block");
    assert!(code_blocks[0].text.contains("fn main()"));
}

#[test]
fn test_parse_csv() {
    assert_eq!(get_parser("csv_tsv"), Some(ParserKind::CsvTsv));
    let blocks = CsvTsvParser.parse_bytes(b"name,age,city\nAlice,30,NYC\nBob,25,LA\nCharlie,35,Chicago\n");
    assert_eq!(blocks.len(), 1, "CSV should produce exactly 1 Table block");
    assert_eq!(blocks[0].element_type, ElementType::Table);
    let table = blocks[0].table_data.as_ref().expect("table_data should be set");
    let headers = table.headers.as_ref().expect("headers should be present");
    assert_eq!(headers, &["name", "age", "city"]);
    assert_eq!(table.rows.len(), 3, "Expected 3 data rows");
    assert_eq!(table.rows[0], vec!["Alice", "30", "NYC"]);
}

#[test]
fn test_parse_tsv_auto_detect() {
    assert_eq!(detect_format("data.tsv"), Some("csv_tsv"), "TSV extension should map to csv_tsv");
    let blocks = CsvTsvParser.parse_bytes(b"col_a\tcol_b\n1\t2\n3\t4\n");
    assert_eq!(blocks.len(), 1);
    let table = blocks[0].table_data.as_ref().unwrap();
    let headers = table.headers.as_ref().unwrap();
    assert_eq!(headers, &["col_a", "col_b"]);
    assert_eq!(table.rows.len(), 2);
}

#[test]
fn test_parse_html_full() {
    let html = r#"<!DOCTYPE html>
<html>
<head><title>Test Page</title></head>
<body>
  <h1>Main Heading</h1>
  <p>A paragraph of text.</p>
  <h2>Sub Heading</h2>
  <ul>
    <li>First item</li>
    <li>Second item</li>
  </ul>
  <table>
    <tr><th>Name</th><th>Value</th></tr>
    <tr><td>A</td><td>1</td></tr>
    <tr><td>B</td><td>2</td></tr>
  </table>
</body>
</html>"#;
    let blocks = HtmlParser.parse_html(html);
    let titles = blocks.iter().filter(|b| b.element_type == ElementType::Title).count();
    assert!(titles >= 2, "Expected title + h1 + h2, got {} title blocks", titles);
    let paras = blocks.iter().filter(|b| b.element_type == ElementType::NarrativeText).count();
    assert!(paras >= 1, "Expected at least 1 paragraph block");
    let items = blocks.iter().filter(|b| b.element_type == ElementType::ListItem).count();
    assert_eq!(items, 2, "Expected 2 list items");
    let tables: Vec<_> = blocks.iter().filter(|b| b.element_type == ElementType::Table).collect();
    assert_eq!(tables.len(), 1, "Expected 1 table block");
    assert_eq!(tables[0].table_data.as_ref().unwrap().rows.len(), 2);
}

#[test]
fn test_parse_rtf_basic() {
    assert_eq!(get_parser("rtf"), Some(ParserKind::Rtf));
    let blocks = RtfParser
        .parse_text(r"{\rtf1\ansi First paragraph content.\par Second paragraph content.}", "doc.rtf")
        .unwrap();
    assert!(!blocks.is_empty(), "RTF parser should produce blocks");
    let text = all_text(&blocks);
    assert!(text.contains("First paragraph"));
    assert!(text.contains("Second paragraph"));
}

#[test]
fn test_parse_xml() {
    let xml = r#"<?xml version="1.0"?>
<root>
  <title>Document Title</title>
  <body>
    <section>
      <para>First paragraph.</para>
      <para>Second paragraph.</para>
    </section>
  </body>
</root>"#;
    assert_eq!(get_parser("xml"), Some(ParserKind::Text));
    let blocks = TextParser.parse_bytes(xml.as_bytes(), "data.xml").unwrap();
    assert!(!blocks.is_empty(), "XML parser should extract text");
    let text = all_text(&blocks);
    assert!(text.contains("Document Title"));
    assert!(text.contains("First paragraph"));
    assert!(text.contains("Second paragraph"));
    assert!(blocks.iter().any(|b| !b.hierarchy.is_empty()), "XML blocks should have hierarchy metadata");
}

// ---- format detection ----

#[test]
fn test_format_detection_extensions() {
    let cases = vec![
        ("report.pdf", Some("pdf")),
        ("doc.docx", Some("docx")),
        ("doc.doc", Some("docx")),
        ("data.xlsx", Some("xlsx")),
        ("data.xls", Some("xlsx")),
        ("data.ods", Some("xlsx")),
        ("slides.pptx", Some("pptx")),
        ("slides.ppt", Some("pptx")),
        ("page.html", Some("html")),
        ("page.htm", Some("html")),
        ("page.xhtml", Some("html")),
        ("page.mhtml", Some("html")),
        ("mail.eml", Some("email")),
        ("mail.msg", Some("msg")),
        ("data.csv", Some("csv_tsv")),
        ("data.tsv", Some("csv_tsv")),
        ("data.tab", Some("csv_tsv")),
        ("readme.txt", Some("text")),
        ("app.log", Some("text")),
        ("config.cfg", Some("text")),
        ("settings.ini", Some("text")),
        ("readme.md", Some("text")),
        ("readme.markdown", Some("text")),
        ("doc.rst", Some("text")),
        ("style.rtf", Some("rtf")),
        ("data.xml", Some("xml")),
        ("data.json", Some("json")),
        ("data.jsonl", Some("json")),
        ("data.yaml", Some("yaml")),
        ("data.yml", Some("yaml")),
        ("book.epub", Some("epub")),
        ("photo.png", Some("image")),
        ("photo.jpg", Some("image")),
        ("photo.jpeg", Some("image")),
        ("photo.gif", Some("image")),
        ("photo.webp", Some("image")),
        ("unknown.xyz", None),
        ("noext", None),
    ];
    for (filename, expected) in cases {
        let result = detect_format(filename);
        assert_eq!(result, expected, "detect_format({}) expected {:?}, got {:?}", filename, expected, result);
    }
}

#[test]
fn format_detection_ignores_ascii_case() {
    assert_eq!(detect_format("REPORT.PDF"), Some("pdf"));
    assert_eq!(detect_format("Notes.Md"), Some("text"));
    assert_eq!(detect_format("dir.with.dots/file"), None);
    assert_eq!(detect_format(".hidden"), None);
}

#[test]
fn test_format_detection_magic_bytes() {
    assert_eq!(detect_format_by_magic(b"%PDF-1.4 fake pdf content", None), Some("pdf"));

    // A ZIP whose entries could not be read defaults to "docx".
    let result = detect_format_by_magic(b"PK\x03\x04 fake zip content with enough bytes to read", None);
    assert!(result == Some("docx") || result == Some("xlsx") || result == Some("pptx"));
    assert_eq!(result, Some("docx"));

    assert_eq!(detect_format_by_magic(b"<!DOCTYPE html><html><body>hello</body></html>", None), Some("html"));
    assert_eq!(detect_format_by_magic(b"{\\rtf1 hello}", None), Some("rtf"));

    let mut png_data = vec![0x89, b'P', b'N', b'G'];
    png_data.extend_from_slice(&[0u8; 50]);
    assert_eq!(detect_format_by_magic(&png_data, None), Some("image"));

    let mut jpg_data = vec![0xFF, 0xD8, 0xFF];
    jpg_data.extend_from_slice(&[0u8; 50]);
    assert_eq!(detect_format_by_magic(&jpg_data, None), Some("image"));

    assert_eq!(detect_format_by_magic(b"{\"key\": \"value\"}", None), Some("json"));
    assert_eq!(detect_format_by_magic(b"<?xml version=\"1.0\"?><root/>", None), Some("xml"));
}

#[test]
fn magic_bytes_of_other_containers() {
    assert_eq!(detect_format_by_magic(b"PK\x03\x04rest", Some("xlsx")), Some("xlsx"));
    assert_eq!(detect_format_by_magic(b"\xd0\xcf\x11\xe0\xa1\xb1\x1a\xe1rest", None), Some("msg"));
    assert_eq!(detect_format_by_magic(b"II\x2a\x00tiff", None), Some("image"));
    assert_eq!(detect_format_by_magic(b"BM", None), None);
    assert_eq!(detect_format_by_magic(b"  [1, 2]", None), Some("json"));
    assert_eq!(detect_format_by_magic(b"plain words", None), None);
    assert_eq!(detect_format_by_magic(b"", None), None);
}

#[test]
fn zip_entry_names_decide_the_format() {
    let names = |v: &[&str]| v.iter().map(|s| s.to_string()).collect::<Vec<String>>();
    assert_eq!(zip_entries_format(&names(&["[Content_Types].xml", "word/document.xml"])), Some("docx"));
    assert_eq!(zip_entries_format(&names(&["XL/workbook.xml"])), Some("xlsx"));
    assert_eq!(zip_entries_format(&names(&["ppt/slides/slide1.xml"])), Some("pptx"));
    assert_eq!(zip_entries_format(&names(&["other/file.txt"])), None);
}

// ---- chunking ----

#[test]
fn test_chunking_by_structure_preserves_tables() {
    let mut table_block = make_block("Col1|Col2\nA|B\nC|D", ElementType::Table, 1);
    table_block.table_data = Some(TableData {
        rows: vec![vec!["A".into(), "B".into()], vec!["C".into(), "D".into()]],
        headers: Some(vec!["Col1".into(), "Col2".into()]),
    });
    let blocks = vec![
        make_block("Intro paragraph with some text content.", ElementType::NarrativeText, 1),
        table_block,
        make_block("Conclusion paragraph with more text.", ElementType::NarrativeText, 1),
    ];
    let chunks = chunk_blocks(&blocks, ChunkStrategy::ByStructure, 512, 0).unwrap();
    for chunk in &chunks {
        let tables: Vec<_> = chunk.source_blocks.iter().filter(|b| b.element_type == ElementType::Table).collect();
        if !tables.is_empty() {
            assert_eq!(tables.len(), 1, "Table should appear as a single block in the chunk");
            assert!(tables[0].table_data.is_some());
        }
    }
}

#[test]
fn test_chunking_by_title_sections() {
    let blocks = vec![
        make_block("Introduction", ElementType::Title, 1),
        make_block("This is the intro section with enough content.", ElementType::NarrativeText, 1),
        make_block("Chapter One", ElementType::Title, 2),
        make_block("Chapter one content goes here with details.", ElementType::NarrativeText, 2),
        make_block("Chapter Two", ElementType::Title, 3),
        make_block("Chapter two content with more details.", ElementType::NarrativeText, 3),
    ];
    let chunks = chunk_blocks(&blocks, ChunkStrategy::ByTitle, 512, 0).unwrap();
    assert_eq!(chunks.len(), 3, "Expected 3 chunks (one per title section), got {}", chunks.len());
    assert!(chunks[0].text.contains("Introduction"));
    assert!(chunks[1].text.contains("Chapter One"));
    assert!(chunks[2].text.contains("Chapter Two"));
}

#[test]
fn test_chunking_by_page_isolation() {
    let blocks = vec![
        make_block("Page 1 content A.", ElementType::NarrativeText, 1),
        make_block("Page 1 content B.", ElementType::NarrativeText, 1),
        make_block("Page 2 content A.", ElementType::NarrativeText, 2),
        make_block("Page 3 content A.", ElementType::NarrativeText, 3),
    ];
    let chunks = chunk_blocks(&blocks, ChunkStrategy::ByPage, 512, 0).unwrap();
    for chunk in &chunks {
        assert_eq!(chunk.page_start, chunk.page_end, "Chunk '{}' crosses pages", chunk.id);
    }
    assert!(chunks.len() >= 3, "Expected at least 3 page-isolated chunks, got {}", chunks.len());
}

#[test]
fn test_chunking_fixed_size_exact() {
    let long_text = "The quick brown fox jumps over the lazy dog and then runs across the meadow to find shelter from the approaching storm while birds fly overhead in the darkening sky above the countryside";
    let blocks = vec![make_block(long_text, ElementType::NarrativeText, 1)];
    let chunks = chunk_blocks(&blocks, ChunkStrategy::Fixed, 20, 0).unwrap();
    assert!(chunks.len() > 1, "got {}", chunks.len());
    for chunk in &chunks {
        assert!(estimate_tokens(&chunk.text) > 0, "Chunk should have non-zero token count");
    }
}

// ---- output and errors ----

#[test]
fn test_output_markdown_headings() {
    let chunks = vec![Chunk {
        id: "chunk-0".to_string(),
        text: "My Title\nSome body text".to_string(),
        token_count: 5,
        source_blocks: vec![
            Block::new(ElementType::Title, "My Title".to_string()),
            Block::new(ElementType::NarrativeText, "Some body text".to_string()),
        ],
        page_start: 1,
        page_end: 1,
        overlap_prefix: None,
        source_start: 0,
        source_end: 2,
    }];
    let content = render_markdown(&chunks, "headings");
    assert!(content.contains("## My Title"), "Title should render as ## heading, got:\n{}", content);
    assert!(content.contains("Some body text"));
    assert!(content.contains("# Chunked Output: headings"));
}

#[test]
fn test_error_codes_present() {
    let errors = [
        Error::UnsupportedFormat("test".into()),
        Error::NotImplemented("test"),
        Error::Io("test".into()),
        Error::Parse("test".into()),
        Error::Serialization("test".into()),
        Error::ConfigError("test".into()),
    ];
    let expected_codes = ["E1001", "E1002", "E2001", "E3001", "E4001", "E5001"];
    for (err, expected_code) in errors.iter().zip(expected_codes.iter()) {
        assert_eq!(err.code(), *expected_code, "Error {:?} should have code {}", err, expected_code);
        let display = err.message();
        assert!(display.contains(expected_code), "Error display '{}' should contain '{}'", display, expected_code);
    }
}

#[test]
fn test_token_estimation_consistency() {
    let text = "The quick brown fox jumps over the lazy dog.";
    let count1 = estimate_tokens(text);
    let count2 = estimate_tokens(text);
    assert_eq!(count1, count2, "Token estimation should be deterministic");
    assert!(count1 > 0, "Non-empty text should have non-zero tokens");
    let short_count = estimate_tokens("hello");
    let long_count = estimate_tokens("hello world this is a longer sentence with more tokens in it");
    assert!(long_count > short_count, "Longer text should produce more tokens");
}

#[test]
fn block_creation() {
    let block = Block::new(ElementType::NarrativeText, "Hello, world.".to_string());
    assert_eq!(block.text, "Hello, world.");
    assert_eq!(block.page, 0);
    assert!(block.table_data.is_none());
    assert!(block.hierarchy.is_empty());
}

#[test]
fn format_detection() {
    assert_eq!(detect_format("test.pdf"), Some("pdf"));
    assert_eq!(detect_format("test.docx"), Some("docx"));
    assert_eq!(detect_format("test.xlsx"), Some("xlsx"));
    assert_eq!(detect_format("test.html"), Some("html"));
    assert_eq!(detect_format("test.csv"), Some("csv_tsv"));
    assert_eq!(detect_format("test.txt"), Some("text"));
    assert_eq!(detect_format("test.unknown"), None);
}

// ---- MSG ----

fn build_msg(subject: Option<&str>, from: Option<&str>, to: Option<&str>, body: Option<&str>) -> Vec<u8> {
    let mut comp = cfb::CompoundFile::create(std::io::Cursor::new(Vec::new())).unwrap();
    let streams = [
        ("/__substg1.0_0037001F", subject),
        ("/__substg1.0_0C1A001F", from),
        ("/__substg1.0_0E04001F", to),
        ("/__substg1.0_1000001F", body),
    ];
    for (path, value) in streams {
        if let Some(v) = value {
            let mut stream = comp.create_stream(path).unwrap();
            let encoded: Vec<u8> = v.encode_utf16().flat_map(|u| u.to_le_bytes()).collect();
            stream.write_all(&encoded).unwrap();
        }
    }
    comp.flush().unwrap();
    comp.into_inner().into_inner()
}

#[test]
fn parse_full_msg() {
    let bytes = build_msg(Some("Test Subject"), Some("Alice"), Some("Bob"), Some("Hello, world!"));
    let blocks = MsgParser.parse_bytes(&bytes).unwrap();
    assert_eq!(blocks.len(), 4);
    assert_eq!(blocks[0].element_type, ElementType::Title);
    assert_eq!(blocks[0].text, "Test Subject");
    assert_eq!(blocks[1].element_type, ElementType::EmailHeader);
    assert_eq!(blocks[1].text, "From: Alice");
    assert_eq!(blocks[2].element_type, ElementType::EmailHeader);
    assert_eq!(blocks[2].text, "To: Bob");
    assert_eq!(blocks[3].element_type, ElementType::EmailBody);
    assert_eq!(blocks[3].text, "Hello, world!");
}

#[test]
fn parse_empty_msg() {
    let blocks = MsgParser.parse_bytes(&build_msg(None, None, None, None)).unwrap();
    assert_eq!(blocks.len(), 1);
    assert_eq!(blocks[0].text, "Empty email");
}

#[test]
fn parse_subject_only() {
    let blocks = MsgParser.parse_bytes(&build_msg(Some("Only Subject"), None, None, None)).unwrap();
    assert_eq!(blocks.len(), 1);
    assert_eq!(blocks[0].element_type, ElementType::Title);
    assert_eq!(blocks[0].text, "Only Subject");
}

#[test]
fn msg_that_is_not_a_compound_file_is_a_parse_error() {
    match MsgParser.parse_bytes(b"not a compound file") {
        Err(Error::Parse(m)) => assert!(m.starts_with("Failed to open MSG compound file: "), "got {}", m),
        other => panic!("expected a parse error, got {:?}", other),
    }
}

// ---- orchestration ----

#[test]
fn test_should_use_vision_empty_blocks() {
    assert!(should_use_vision(&[], false));
}

#[test]
fn test_should_use_vision_low_confidence() {
    let blocks = vec![
        make_block("some text here for testing purposes enough", ElementType::NarrativeText, 0),
        make_block("more text", ElementType::NarrativeText, 0),
    ];
    let confidences = [0.2_f32, 0.1_f32];
    let all_low = confidences.iter().all(|c| *c < 0.3);
    assert!(should_use_vision(&blocks, all_low));
}

#[test]
fn test_should_use_vision_short_text() {
    let blocks = vec![make_block("Hi", ElementType::NarrativeText, 0)];
    assert!(should_use_vision(&blocks, false));
}

#[test]
fn test_should_use_vision_good_blocks() {
    let blocks = vec![make_block(
        "This is a reasonably long paragraph with sufficient content to pass the threshold.",
        ElementType::NarrativeText,
        0,
    )];
    assert!(!should_use_vision(&blocks, false));
}

#[test]
fn vision_threshold_counts_bytes_across_blocks() {
    let forty_nine = "a".repeat(49);
    assert!(should_use_vision(&[make_block(&forty_nine, ElementType::NarrativeText, 1)], false));
    let blocks = vec![
        make_block(&"b".repeat(25), ElementType::NarrativeText, 1),
        make_block(&"c".repeat(25), ElementType::NarrativeText, 1),
    ];
    assert!(!should_use_vision(&blocks, false));
    // "é" is two bytes in UTF-8.
    assert!(!should_use_vision(&[make_block(&"é".repeat(25), ElementType::NarrativeText, 1)], false));
}

#[test]
fn test_per_doc_config_applied() {
    let per_doc = Some(PerDocConfig {
        chunk_strategy: Some(ChunkStrategyConfig::Fixed),
        max_tokens: Some(2048),
        overlap: None,
        format: None,
    });
    let (strategy, max_tokens, overlap) = document_settings(&per_doc, ChunkStrategy::ByStructure, 512, 50);
    assert_eq!(strategy, ChunkStrategy::Fixed);
    assert_eq!(max_tokens, 2048);
    assert_eq!(overlap, 50);
    let blocks = TextParser
        .parse_bytes(b"Hello world. This is a test document with enough content to chunk.", "test.txt")
        .unwrap();
    let chunks = chunk_document(&blocks, strategy, max_tokens, overlap).unwrap();
    assert!(!chunks.is_empty());
    assert_eq!(document_settings(&None, ChunkStrategy::ByPage, 7, 3), (ChunkStrategy::ByPage, 7, 3));
}

#[test]
fn test_process_single_file_txt() {
    let (key, kind) = route_format("test.txt", detect_format("test.txt"), None).unwrap();
    assert_eq!(key, "text");
    assert_eq!(kind, ParserKind::Text);
    let blocks = TextParser
        .parse_bytes(b"Hello world. This is a test document with some content.", "test.txt")
        .unwrap();
    let chunks = chunk_document(&blocks, ChunkStrategy::ByStructure, 512, 50).unwrap();
    assert!(!chunks.is_empty());
}

#[test]
fn routing_reports_missing_formats_and_parsers() {
    match route_format("/tmp/mystery", None, None) {
        Err(Error::UnsupportedFormat(m)) => assert_eq!(m, "Cannot detect format for: /tmp/mystery"),
        other => panic!("unexpected {:?}", other),
    }
    match route_format("/tmp/book.epub", Some("epub"), None) {
        Err(Error::UnsupportedFormat(m)) => {
            assert_eq!(m, "No parser available for format 'epub': /tmp/book.epub")
        }
        other => panic!("unexpected {:?}", other),
    }
    assert_eq!(route_format("x", None, Some("pdf")).unwrap(), ("pdf", ParserKind::Pdf));
    assert_eq!(route_format("x.csv", Some("csv_tsv"), Some("pdf")).unwrap(), ("csv_tsv", ParserKind::CsvTsv));
    assert_eq!(get_parser("yaml"), Some(ParserKind::Text));
    assert_eq!(get_parser("epub"), None);
}

#[test]
fn empty_document_gives_no_chunks() {
    assert!(chunk_document(&[], ChunkStrategy::Fixed, 0, 0).unwrap().is_empty());
}

#[test]
fn test_detect_regions_not_implemented() {
    let detector = LayoutDetector::new();
    let result: Result<Vec<()>, Error> = detector.detect_regions(&[]);
    assert!(result.is_err());
    match result {
        Err(Error::NotImplemented(m)) => assert_eq!(m, "Layout detection model not loaded"),
        _ => panic!("expected NotImplemented"),
    }
}

#[test]
fn exit_codes_follow_the_outcome() {
    assert_eq!(run_exit_code(3, 0, 0, false), EXIT_SUCCESS);
    assert_eq!(run_exit_code(3, 1, 0, false), EXIT_PARTIAL);
    assert_eq!(run_exit_code(3, 1, 0, true), EXIT_FAILURE);
    assert_eq!(run_exit_code(2, 0, 2, false), EXIT_FAILURE);
    assert_eq!(run_exit_code(2, 0, 1, false), EXIT_PARTIAL);
    assert_eq!(run_exit_code(0, 0, 0, true), EXIT_SUCCESS);
}

#[test]
fn parsers_score_their_blocks() {
    let html = vec![
        make_block("Heading", ElementType::Title, 1),
        make_block("Table: 1 columns, 1 rows", ElementType::Table, 1),
    ];
    assert_eq!(block_confidences(ParserKind::Html, &html), Some(vec![95, 100]));
    let email = vec![
        make_block("Subject", ElementType::Title, 1),
        make_block("Date: 2024-01-01", ElementType::EmailHeader, 1),
        make_block("From: a@b", ElementType::EmailHeader, 1),
    ];
    assert_eq!(block_confidences(ParserKind::Email, &email), Some(vec![90, 100, 90]));
    let empty_email = vec![make_block("Empty email", ElementType::NarrativeText, 1)];
    assert_eq!(block_confidences(ParserKind::Email, &empty_email), Some(vec![100]));
    assert_eq!(block_confidences(ParserKind::Msg, &empty_email), Some(vec![100]));
    let slides = vec![make_block("Only", ElementType::NarrativeText, 1)];
    assert_eq!(block_confidences(ParserKind::Pptx, &slides), Some(vec![100]));
    assert_eq!(block_confidences(ParserKind::Rtf, &slides), Some(vec![80]));
    assert_eq!(block_confidences(ParserKind::Image, &slides), Some(vec![0]));
    assert_eq!(block_confidences(ParserKind::Pdf, &slides), None);
}

#[test]
fn tabular_columns_of_a_chunk() {
    let chunk = Chunk {
        id: "chunk-0".to_string(),
        text: String::new(),
        token_count: 0,
        source_blocks: vec![
            make_block("a", ElementType::Title, 1),
            make_block("b", ElementType::NarrativeText, 1),
            make_block("c", ElementType::NarrativeText, 1),
            make_block("d", ElementType::Title, 1),
        ],
        page_start: 1,
        page_end: 1,
        overlap_prefix: None,
        source_start: 0,
        source_end: 4,
    };
    assert_eq!(chunk_element_types(&chunk), "Title,NarrativeText,Title");
    assert!(!chunk_has_table(&chunk));
}

fn argmax_rows(output: &[f32], seq_len: usize, num_classes: usize) -> Vec<usize> {
    (0..seq_len)
        .map(|t| {
            let row = &output[t * num_classes..(t + 1) * num_classes];
            let mut best = 0;
            for (i, v) in row.iter().enumerate() {
                if *v > row[best] {
                    best = i;
                }
            }
            best
        })
        .collect()
}

#[test]
fn test_ctc_greedy_decode_basic() {
    let char_dict = vec!['\0', 'a', 'b', 'c'];
    let output = vec![
        0.0, 5.0, 1.0, 1.0, //
        0.0, 5.0, 1.0, 1.0, //
        5.0, 0.0, 0.0, 0.0, //
        0.0, 1.0, 5.0, 1.0,
    ];
    let (text, kept) = ctc_decode(&argmax_rows(&output, 4, 4), &char_dict);
    assert_eq!(text, "ab");
    assert_eq!(kept, vec![0, 3]);
}

#[test]
fn test_ctc_greedy_decode_empty() {
    let char_dict = vec!['\0', 'a', 'b'];
    let output = vec![5.0, 0.0, 0.0, 5.0, 0.0, 0.0];
    let (text, kept) = ctc_decode(&argmax_rows(&output, 2, 3), &char_dict);
    assert_eq!(text, "");
    assert!(kept.is_empty());
}

#[test]
fn ctc_repeats_split_by_blanks_are_kept() {
    let (text, kept) = ctc_decode(&[1, 0, 1, 1, 7, 2], &['\0', 'a', 'b']);
    assert_eq!(text, "aab");
    assert_eq!(kept, vec![0, 2, 5]);
}

#[test]
fn zip_archives_are_recognized_by_their_entries() {
    let mut zip = zip::ZipWriter::new(std::io::Cursor::new(Vec::new()));
    let options = zip::write::SimpleFileOptions::default();
    zip.start_file("[Content_Types].xml", options).unwrap();
    zip.write_all(b"<Types/>").unwrap();
    zip.start_file("xl/workbook.xml", options).unwrap();
    zip.write_all(b"<workbook/>").unwrap();
    let bytes = zip.finish().unwrap().into_inner();
    assert_eq!(zip_contents_format(&bytes), Some("xlsx"));
    assert_eq!(detect_format_by_magic(&bytes, zip_contents_format(&bytes)), Some("xlsx"));
    assert_eq!(zip_contents_format(b"PK\x03\x04 not really"), None);
}

#[test]
fn rtf_bytes_are_read_lossily() {
    let blocks = RtfParser.parse_bytes(b"{\\rtf1\\ansi Caf\xe9 au lait.}", "menu.rtf").unwrap();
    assert_eq!(blocks.len(), 1);
    assert!(blocks[0].text.contains("Caf\u{FFFD} au lait."), "got {}", blocks[0].text);
    match RtfParser.parse_bytes(b"plain", "menu.rtf") {
        Err(Error::Parse(m)) => assert_eq!(m, "Not a valid RTF file (missing {\\rtf header): menu.rtf"),
        other => panic!("unexpected {:?}", other),
    }
}
