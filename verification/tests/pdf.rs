use parser_chunker::format::pdf_lines::{layout_lines, LayoutKind, LineFacts};
use parser_chunker::format::pdf::{blocks_of_page_texts, extraction_error};
use parser_chunker::Error;
use parser_chunker::format::pdf::{
    classify_as_footer, classify_as_heading, classify_as_list_item, classify_paragraph_fallback,
};
use parser_chunker::model::ElementType;

#[test]
fn classify_footer_works() {
    assert!(classify_as_footer("42"));
    assert!(classify_as_footer("Page 7"));
    assert!(!classify_as_footer("Some text here"));
}

#[test]
fn classify_list_item_works() {
    assert!(classify_as_list_item("- First item"));
    assert!(classify_as_list_item("• Bullet point"));
    assert!(classify_as_list_item("1. Numbered item"));
    assert!(classify_as_list_item("2) Another item"));
    assert!(!classify_as_list_item("Regular text"));
}

#[test]
fn fallback_classify_paragraph() {
    assert_eq!(classify_paragraph_fallback("INTRODUCTION"), ElementType::Title);
    assert_eq!(classify_paragraph_fallback("42"), ElementType::Footer);
    assert_eq!(
        classify_paragraph_fallback("- First item\n- Second item"),
        ElementType::ListItem
    );
}

#[test]
fn fallback_plain_sentence_is_narrative() {
    assert_eq!(
        classify_paragraph_fallback("This is an ordinary sentence of body text."),
        ElementType::NarrativeText
    );
}

#[test]
fn heading_needs_large_or_bold_font() {
    assert!(classify_as_heading("Introduction", true, false));
    assert!(!classify_as_heading("Introduction", false, false));
}

#[test]
fn footer_prefix_ignores_case() {
    assert!(classify_as_footer("PAGE 3 of 9"));
    assert!(classify_as_footer("pAgE xii"));
    assert!(!classify_as_footer("Pages 3"));
}

/// Whether a font size is large enough, relative to the body size, for a heading.
fn large(font_ratio: f32) -> bool {
    font_ratio >= 1.2
}

#[test]
fn classify_short_uppercase_as_title() {
    assert!(classify_as_heading("INTRODUCTION", large(1.3), false));
}

#[test]
fn classify_bold_short_as_heading() {
    assert!(classify_as_heading("Methods and Results", large(1.0), true));
}

#[test]
fn classify_long_text_not_heading() {
    let long = "This is a long paragraph of text that describes something in detail. It has multiple sentences and ends with a period.";
    assert!(!classify_as_heading(long, large(1.0), false));
}

#[test]
fn page_texts_become_classified_blocks() {
    let pages = vec![
        "INTRODUCTION\n\nThis is the body of the first page.\n\n\n- item one".to_string(),
        "   \n  ".to_string(),
        "12".to_string(),
    ];
    let blocks = blocks_of_page_texts(&pages);
    let got: Vec<(ElementType, &str, u32)> = blocks.iter().map(|b| (b.element_type, b.text.as_str(), b.page)).collect();
    assert_eq!(
        got,
        vec![
            (ElementType::Title, "INTRODUCTION", 1),
            (ElementType::NarrativeText, "This is the body of the first page.", 1),
            (ElementType::ListItem, "- item one", 1),
            (ElementType::Footer, "12", 3),
        ]
    );
}

#[test]
fn extraction_errors_name_encryption() {
    match extraction_error("cannot decrypt stream") {
        Error::Parse(m) => assert_eq!(m, "PDF is encrypted or password-protected: cannot decrypt stream"),
        e => panic!("unexpected {:?}", e),
    }
    match extraction_error("bad xref") {
        Error::Parse(m) => assert_eq!(m, "PDF extraction failed: bad xref"),
        e => panic!("unexpected {:?}", e),
    }
}

fn facts(text: &str, heading: bool, wide_gap: bool) -> LineFacts {
    LineFacts {
        text: text.to_string(),
        heading,
        in_table: false,
        table_end: None,
        wide_gap,
    }
}

#[test]
fn page_lines_become_layout_items() {
    let lines = vec![
        facts("Introduction", true, false),
        facts("  para one  ", false, false),
        facts("continues here", false, false),
        facts("- an item", false, false),
        facts("12", false, false),
        facts("   ", false, false),
        facts("after the gap", false, false),
    ];
    let items = layout_lines(&lines);
    let got: Vec<(LayoutKind, usize, usize, String)> =
        items.into_iter().map(|it| (it.kind, it.start, it.end, it.text)).collect();
    assert_eq!(
        got,
        vec![
            (LayoutKind::Title, 0, 1, "Introduction".to_string()),
            (LayoutKind::Paragraph, 1, 3, "para one continues here".to_string()),
            (LayoutKind::ListItem, 3, 4, "- an item".to_string()),
            (LayoutKind::Footer, 4, 5, "12".to_string()),
            (LayoutKind::Paragraph, 6, 7, "after the gap".to_string()),
        ]
    );
}

#[test]
fn wide_gap_ends_a_paragraph_from_its_third_line() {
    let lines = vec![
        facts("first line", false, false),
        facts("second line", false, true),
        facts("third line", false, true),
    ];
    let got: Vec<(LayoutKind, usize, usize)> =
        layout_lines(&lines).into_iter().map(|it| (it.kind, it.start, it.end)).collect();
    assert_eq!(got, vec![(LayoutKind::Paragraph, 0, 2), (LayoutKind::Paragraph, 2, 3)]);
}

#[test]
fn table_region_is_one_item() {
    let mut lines = vec![facts("a  b", false, false), facts("c  d", false, false), facts("tail", false, false)];
    lines[0] = LineFacts { in_table: true, table_end: Some(2), ..facts("a  b", false, false) };
    lines[1].in_table = true;
    let got: Vec<(LayoutKind, usize, usize)> =
        layout_lines(&lines).into_iter().map(|it| (it.kind, it.start, it.end)).collect();
    assert_eq!(got, vec![(LayoutKind::Table, 0, 2), (LayoutKind::Paragraph, 2, 3)]);
}
