use std::io::Write;

use parser_chunker::format::email::{
    email_message_blocks, format_address, format_group, format_single_addr, strip_html_tags,
    EmailAddr, EmailAddress, EmailGroup, EmailParser, EmailParts,
};
use parser_chunker::format::image::{read_image_dimensions, ImageParser};
use parser_chunker::format::pptx::{extract_paragraphs, extract_slide_number, is_slide_file, PptxParser};
use parser_chunker::format::xlsx::{Sheet, XlsxParser};
use parser_chunker::model::{Block, Chunk, ElementType, TableData};
use parser_chunker::output::markdown::{render_markdown, render_table_markdown};
use parser_chunker::sbom::{build_cyclonedx, escape_json, parse_cargo_lock, Package};
use parser_chunker::Error;

fn zip_of(entries: &[(&str, &str)]) -> Vec<u8> {
    let mut zip = zip::ZipWriter::new(std::io::Cursor::new(Vec::new()));
    let options = zip::write::SimpleFileOptions::default()
        .compression_method(zip::CompressionMethod::Stored);
    for (name, content) in entries {
        zip.start_file(*name, options).unwrap();
        zip.write_all(content.as_bytes()).unwrap();
    }
    zip.finish().unwrap().into_inner()
}

fn addr(name: Option<&str>, address: Option<&str>) -> EmailAddr {
    EmailAddr { name: name.map(|s| s.to_string()), address: address.map(|s| s.to_string()) }
}

// ---- email ----

#[test]
fn email_addresses_are_formatted() {
    assert_eq!(format_single_addr(&addr(Some("Alice"), Some("a@x.org"))), "Alice <a@x.org>");
    assert_eq!(format_single_addr(&addr(None, Some("a@x.org"))), "a@x.org");
    assert_eq!(format_single_addr(&addr(Some("Alice"), None)), "Alice");
    assert_eq!(format_single_addr(&addr(None, None)), "");
    let group = EmailGroup {
        name: Some("Team".to_string()),
        addresses: vec![addr(None, Some("b@x.org")), addr(Some("C"), Some("c@x.org"))],
    };
    assert_eq!(format_group(&group), "Team: b@x.org, C <c@x.org>");
    let list = EmailAddress::List(vec![addr(None, Some("b@x.org")), addr(None, Some("d@x.org"))]);
    assert_eq!(format_address(&list), "b@x.org, d@x.org");
    let groups = EmailAddress::Group(vec![
        group,
        EmailGroup { name: None, addresses: vec![addr(None, Some("e@x.org"))] },
    ]);
    assert_eq!(format_address(&groups), "Team: b@x.org, C <c@x.org>; e@x.org");
}

#[test]
fn html_bodies_lose_their_tags() {
    assert_eq!(strip_html_tags("<p>Hello <b>bold</b>\n\n world</p>"), "Hello bold world");
    assert_eq!(strip_html_tags("   "), "");
    assert_eq!(strip_html_tags("a<br>b"), "a b");
}

#[test]
fn email_parts_become_blocks() {
    let parts = EmailParts {
        subject: Some("Quarterly report".to_string()),
        from: Some(EmailAddress::List(vec![addr(Some("Alice"), Some("alice@x.org"))])),
        to: Some(EmailAddress::List(vec![addr(None, Some("bob@x.org"))])),
        date: Some("2024-01-15T10:30:00Z".to_string()),
        text: None,
        html: Some("<p>Numbers <i>inside</i></p>".to_string()),
        attachments: vec![Some((Some("report.pdf".to_string()), 1234)), Some((None, 7)), None],
    };
    let blocks = email_message_blocks(&parts);
    let texts: Vec<&str> = blocks.iter().map(|b| b.text.as_str()).collect();
    assert_eq!(
        texts,
        vec![
            "Quarterly report",
            "From: Alice <alice@x.org>",
            "To: bob@x.org",
            "Date: 2024-01-15T10:30:00Z",
            "Numbers inside",
            "Attachments (3): report.pdf (1234 bytes), unnamed (7 bytes)",
        ]
    );
    assert_eq!(blocks[0].element_type, ElementType::Title);
    assert_eq!(blocks[1].element_type, ElementType::EmailHeader);
    assert_eq!(blocks[4].element_type, ElementType::EmailBody);
    assert_eq!(blocks[5].element_type, ElementType::NarrativeText);
    assert!(blocks.iter().all(|b| b.page == 1));
}

#[test]
fn empty_email_parts_give_a_placeholder() {
    let parts = EmailParts {
        subject: Some(String::new()),
        from: None,
        to: None,
        date: None,
        text: Some("   \n".to_string()),
        html: None,
        attachments: vec![],
    };
    let blocks = email_message_blocks(&parts);
    assert_eq!(blocks.len(), 1);
    assert_eq!(blocks[0].text, "Empty email");
}

#[test]
fn raw_email_is_parsed() {
    let raw = b"From: Alice <alice@example.com>\r\nTo: Bob <bob@example.com>\r\nSubject: Hello there\r\nDate: Mon, 15 Jan 2024 10:30:00 +0000\r\nContent-Type: text/plain\r\n\r\n  Body line one.\r\nBody line two.\r\n";
    let blocks = EmailParser.parse_bytes(raw).unwrap();
    assert_eq!(blocks[0].element_type, ElementType::Title);
    assert_eq!(blocks[0].text, "Hello there");
    assert_eq!(blocks[1].text, "From: Alice <alice@example.com>");
    assert_eq!(blocks[2].text, "To: Bob <bob@example.com>");
    assert!(blocks[3].text.starts_with("Date: 2024-01-15"), "got {}", blocks[3].text);
    assert_eq!(blocks[4].element_type, ElementType::EmailBody);
    assert_eq!(blocks[4].text, "Body line one.\r\nBody line two.");
    assert_eq!(blocks.len(), 5);
}

#[test]
fn unparseable_email_is_an_error() {
    match EmailParser.parse_bytes(b"") {
        Err(Error::Parse(m)) => assert_eq!(m, "Failed to parse email"),
        Ok(blocks) => assert!(!blocks.is_empty()),
        Err(e) => panic!("unexpected {:?}", e),
    }
}

// ---- PPTX ----

#[test]
fn slide_names_and_numbers() {
    assert!(is_slide_file("ppt/slides/slide1.xml"));
    assert!(is_slide_file("ppt/slides/slide12.xml"));
    assert!(!is_slide_file("ppt/slides/_rels/slide1.xml.rels"));
    assert!(!is_slide_file("ppt/slideLayouts/slideLayout1.xml"));
    assert_eq!(extract_slide_number("ppt/slides/slide12.xml"), 12);
    assert_eq!(extract_slide_number("PPT/Slides/Slide7.XML"), 7);
    assert_eq!(extract_slide_number("ppt/slides/slide.xml"), 0);
    assert_eq!(extract_slide_number("ppt/slides/slide99999999999.xml"), 0);
}

#[test]
fn slide_paragraphs_are_extracted() {
    let xml = r#"<p:sld><p:txBody><a:p><a:r><a:t>Hello </a:t></a:r><a:r><a:t>world</a:t></a:r></a:p><a:p><a:r><a:t>  Second  </a:t></a:r></a:p><a:p></a:p></p:txBody></p:sld>"#;
    let paras = extract_paragraphs(xml).unwrap();
    assert_eq!(paras, vec!["Hello  world", "Second"]);
}

#[test]
fn pptx_slides_in_numeric_order() {
    let slide = |t: &str, b: &str| {
        format!("<p:sld><a:p><a:r><a:t>{}</a:t></a:r></a:p><a:p><a:r><a:t>{}</a:t></a:r></a:p></p:sld>", t, b)
    };
    let s10 = slide("Tenth", "ten body");
    let s2 = slide("Second", "two body");
    let bytes = zip_of(&[
        ("[Content_Types].xml", "<Types/>"),
        ("ppt/slides/slide10.xml", &s10),
        ("ppt/slides/slide2.xml", &s2),
    ]);
    let blocks = PptxParser.parse_bytes(&bytes).unwrap();
    let texts: Vec<(&str, u32, ElementType)> =
        blocks.iter().map(|b| (b.text.as_str(), b.page, b.element_type)).collect();
    assert_eq!(
        texts,
        vec![
            ("Second", 1, ElementType::Title),
            ("two body", 1, ElementType::NarrativeText),
            ("Tenth", 2, ElementType::Title),
            ("ten body", 2, ElementType::NarrativeText),
        ]
    );
}

#[test]
fn pptx_without_slides_is_empty_presentation() {
    let bytes = zip_of(&[("[Content_Types].xml", "<Types/>")]);
    let blocks = PptxParser.parse_bytes(&bytes).unwrap();
    assert_eq!(blocks.len(), 1);
    assert_eq!(blocks[0].text, "Empty presentation");
}

// ---- images ----

fn png(width: u32, height: u32) -> Vec<u8> {
    let mut data = vec![0x89, b'P', b'N', b'G', 0x0D, 0x0A, 0x1A, 0x0A, 0, 0, 0, 0x0D, b'I', b'H', b'D', b'R'];
    data.extend_from_slice(&width.to_be_bytes());
    data.extend_from_slice(&height.to_be_bytes());
    data.extend_from_slice(&[8, 2, 0, 0, 0]);
    data
}

#[test]
fn image_dimensions_are_read_from_headers() {
    assert_eq!(read_image_dimensions(&png(640, 480), "png"), Some((640, 480)));
    let gif = [b'G', b'I', b'F', b'8', b'9', b'a', 0x20, 0x01, 0x10, 0x00];
    assert_eq!(read_image_dimensions(&gif, "gif"), Some((288, 16)));
    let mut bmp = vec![b'B', b'M'];
    bmp.extend_from_slice(&[0u8; 16]);
    bmp.extend_from_slice(&100i32.to_le_bytes());
    bmp.extend_from_slice(&(-50i32).to_le_bytes());
    assert_eq!(read_image_dimensions(&bmp, "bmp"), Some((100, 50)));
    let jpeg = [0xFF, 0xD8, 0xFF, 0xE0, 0x00, 0x04, 0, 0, 0xFF, 0xC0, 0x00, 0x11, 0x08, 0x01, 0x00, 0x02, 0x00, 0x03];
    assert_eq!(read_image_dimensions(&jpeg, "jpg"), Some((512, 256)));
    assert_eq!(read_image_dimensions(&png(1, 1), "webp"), None);
    assert_eq!(read_image_dimensions(b"short", "png"), None);
}

#[test]
fn image_block_describes_the_file() {
    let blocks = ImageParser.parse_bytes("PNG", &png(3, 4), 2048);
    assert_eq!(blocks.len(), 1);
    assert_eq!(blocks[0].element_type, ElementType::Image);
    assert_eq!(
        blocks[0].text,
        "Image (png): 3x4, 2048 bytes \u{2014} OCR not available (ONNX runtime not configured)"
    );
    let blocks = ImageParser.parse_bytes("tiff", b"II*\0", 4);
    assert_eq!(
        blocks[0].text,
        "Image (tiff): unknown dimensions, 4 bytes \u{2014} OCR not available (ONNX runtime not configured)"
    );
}

// ---- spreadsheets ----

fn rows(v: &[&[&str]]) -> Vec<Vec<String>> {
    v.iter().map(|r| r.iter().map(|c| c.to_string()).collect()).collect()
}

#[test]
fn sheets_become_titles_and_tables() {
    let sheets = vec![
        Sheet { name: "Data".to_string(), rows: Ok(rows(&[&["a", "b"], &["1", "2"], &["3", "4"]])) },
        Sheet { name: "Blank".to_string(), rows: Ok(vec![]) },
    ];
    let blocks = XlsxParser.blocks_of_sheets(&sheets).unwrap();
    assert_eq!(blocks.len(), 3);
    assert_eq!(blocks[0].element_type, ElementType::Title);
    assert_eq!(blocks[0].text, "Data");
    assert_eq!(blocks[1].element_type, ElementType::Table);
    assert_eq!(blocks[1].text, "Sheet \"Data\": 2 columns (a, b) and 2 data rows");
    let td = blocks[1].table_data.as_ref().unwrap();
    assert_eq!(td.headers, Some(vec!["a".to_string(), "b".to_string()]));
    assert_eq!(td.rows, rows(&[&["1", "2"], &["3", "4"]]));
    assert_eq!(blocks[2].text, "Blank");
    assert_eq!(blocks[2].page, 2);
}

#[test]
fn sheet_errors_and_empty_workbooks() {
    let sheets = vec![
        Sheet { name: "Ok".to_string(), rows: Ok(vec![]) },
        Sheet { name: "Bad".to_string(), rows: Err("cannot read range".to_string()) },
    ];
    match XlsxParser.blocks_of_sheets(&sheets) {
        Err(Error::Parse(m)) => assert_eq!(m, "cannot read range"),
        other => panic!("unexpected {:?}", other),
    }
    let blocks = XlsxParser.blocks_of_sheets(&vec![]).unwrap();
    assert_eq!(blocks.len(), 1);
    assert_eq!(blocks[0].text, "Empty spreadsheet");
}

// ---- markdown output ----

#[test]
fn tables_render_as_markdown() {
    let mut block = Block::new(ElementType::Table, "t".to_string());
    block.table_data = Some(TableData {
        rows: rows(&[&["1", "2"]]),
        headers: Some(vec!["a".to_string(), "b".to_string()]),
    });
    let mut out = String::new();
    render_table_markdown(&mut out, &block);
    assert_eq!(out, "| a | b |\n| --- | --- |\n| 1 | 2 |\n");
}

#[test]
fn markdown_document_layout() {
    let mut heading = Block::new(ElementType::Title, "Intro".to_string());
    heading.hierarchy = vec!["h1".to_string(), "h2".to_string(), "h3".to_string()];
    let chunks = vec![Chunk {
        id: "chunk-0".to_string(),
        text: "Intro\nBody".to_string(),
        token_count: 2,
        source_blocks: vec![heading, Block::new(ElementType::NarrativeText, "Body".to_string())],
        page_start: 1,
        page_end: 2,
        overlap_prefix: Some("prev".to_string()),
        source_start: 0,
        source_end: 2,
    }];
    let md = render_markdown(&chunks, "doc");
    assert!(md.starts_with("# Chunked Output: doc\n"), "got:\n{}", md);
    assert!(md.contains("### Intro"), "got:\n{}", md);
    assert!(md.contains("Body"));
    assert!(md.contains("prev"));
}

// ---- SBOM ----

#[test]
fn cargo_lock_packages_are_read() {
    let lock = "# generated\nversion = 3\n\n[[package]]\nname = \"app\"\nversion = \"0.1.0\"\n\n[[package]]\nname = \"serde\"\nversion = \"1.0.0\"\nsource = \"registry+https://github.com/rust-lang/crates.io-index\"\nchecksum = \"abc\"\n";
    let pkgs = parse_cargo_lock(lock);
    assert_eq!(pkgs.len(), 2);
    assert_eq!(pkgs[0].name, "app");
    assert_eq!(pkgs[0].version, "0.1.0");
    assert_eq!(pkgs[0].source, None);
    assert_eq!(pkgs[1].name, "serde");
    assert_eq!(pkgs[1].source.as_deref(), Some("registry+https://github.com/rust-lang/crates.io-index"));
}

#[test]
fn json_strings_are_escaped() {
    assert_eq!(escape_json("a\"b\\c\nd\re\tf"), "a\\\"b\\\\c\\nd\\re\\tf");
    assert_eq!(escape_json("plain"), "plain");
}

#[test]
fn sbom_lists_registry_packages_only() {
    let pkgs = vec![
        Package { name: "root".to_string(), version: "0.1.0".to_string(), source: None },
        Package {
            name: "serde".to_string(),
            version: "1.0.0".to_string(),
            source: Some("registry+https://x".to_string()),
        },
        Package { name: "local".to_string(), version: "0.2.0".to_string(), source: Some("path+file:///x".to_string()) },
    ];
    let doc = build_cyclonedx(&pkgs, "2024-01-01T00:00:00Z");
    assert!(doc.contains("\"timestamp\": \"2024-01-01T00:00:00Z\""));
    assert!(doc.contains("\"purl\": \"pkg:cargo/serde@1.0.0\""));
    assert!(!doc.contains("\"name\": \"root\""));
    assert!(!doc.contains("\"name\": \"local\""));
    assert!(doc.contains("pkg:generic/mupdf@0.0.0-placeholder"));
    assert!(doc.ends_with("  ]\n}\n"));
}
