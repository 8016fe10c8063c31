use parser_chunker::format::rtf::{extract_rtf_text, RtfParser};
use parser_chunker::model::ElementType;

#[test]
fn test_extract_simple_rtf() {
    let rtf = r"{\rtf1\ansi Hello world}";
    let text = extract_rtf_text(rtf);
    assert_eq!(text, "Hello world");
}

#[test]
fn test_extract_with_par() {
    let rtf = r"{\rtf1\ansi First paragraph.\par Second paragraph.}";
    let text = extract_rtf_text(rtf);
    assert!(text.contains("First paragraph."));
    assert!(text.contains("Second paragraph."));
}

#[test]
fn test_extract_skips_fonttbl() {
    let rtf = r"{\rtf1{\fonttbl{\f0 Times New Roman;}}Hello}";
    let text = extract_rtf_text(rtf);
    assert_eq!(text, "Hello");
}

#[test]
fn test_extract_escapes() {
    let rtf = r"{\rtf1 A \{ B \} C \\ D}";
    let text = extract_rtf_text(rtf);
    assert!(text.contains("A { B } C \\ D"));
}

#[test]
fn test_rtf_parser_parse() {
    let parser = RtfParser;
    let blocks = parser
        .parse_text(r"{\rtf1\ansi Hello world.\par Second paragraph.}", "test.rtf")
        .unwrap();
    assert!(!blocks.is_empty());
    let all_text: String = blocks.iter().map(|b| b.text.as_str()).collect::<Vec<_>>().join(" ");
    assert!(all_text.contains("Hello world"));
    assert!(all_text.contains("Second paragraph"));
    assert!(blocks.iter().all(|b| b.element_type == ElementType::NarrativeText));
}

#[test]
fn test_rtf_parser_not_rtf() {
    let parser = RtfParser;
    let result = parser.parse_text("Not an RTF file", "test.rtf");
    assert!(result.is_err());
}

#[test]
fn hex_escape_decodes_latin1() {
    let text = extract_rtf_text(r"{\rtf1 caf\'e9}");
    assert_eq!(text, "café");
}

#[test]
fn ignorable_destination_groups_are_skipped() {
    let rtf = r"{\rtf1{\*\generator Foo;}Hello}";
    assert_eq!(extract_rtf_text(rtf), "Hello");
}

#[test]
fn nested_ignorable_destination_is_skipped_whole() {
    let rtf = r"{\rtf1 A{\*\bkmkstart x{\b inner}}B}";
    assert_eq!(extract_rtf_text(rtf), "AB");
}

#[test]
fn newline_runs_are_cut_to_two_and_trimmed() {
    let rtf = r"{\rtf1 \par\par\par Hi\par\par\par\par there\par\par}";
    assert_eq!(extract_rtf_text(rtf), "Hi\n\nthere");
}
