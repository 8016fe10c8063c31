use parser_chunker::vision::table::{parse_otsl_string, OtslToken, TableRecognizer};
use parser_chunker::Error;

fn otsl_to_html(otsl: &str, contents: &[&str]) -> Result<String, Error> {
    let tokens = parse_otsl_string(otsl)?;
    TableRecognizer::decode_otsl(&tokens, contents)
}

#[test]
fn test_simple_2x3_table() {
    let html = otsl_to_html("C C C NL C C C NL", &["A", "B", "C", "D", "E", "F"]).unwrap();
    assert!(html.contains("<td>A</td>"));
    assert!(html.contains("<td>F</td>"));
    assert!(!html.contains("colspan"));
    assert!(!html.contains("rowspan"));
}

#[test]
fn test_horizontal_merge_colspan() {
    let html = otsl_to_html("C L C NL C C C NL", &["Merged", "Right", "D", "E", "F"]).unwrap();
    assert!(html.contains("<td colspan=\"2\">Merged</td>"));
    assert!(html.contains("<td>Right</td>"));
}

#[test]
fn test_vertical_merge_rowspan() {
    let html = otsl_to_html("C C NL U C NL", &["Tall", "B", "D"]).unwrap();
    assert!(html.contains("<td rowspan=\"2\">Tall</td>"));
}

#[test]
fn test_cross_merge_2x2_block() {
    let html = otsl_to_html(
        "C L C NL U X C NL C C C NL",
        &["Big", "R1C3", "R2C3", "R3C1", "R3C2", "R3C3"],
    )
    .unwrap();
    assert!(html.contains("<td colspan=\"2\" rowspan=\"2\">Big</td>"));
}

#[test]
fn test_full_width_header_colspan_3() {
    let html = otsl_to_html("C L L NL C C C NL", &["Header", "A", "B", "C"]).unwrap();
    assert!(html.contains("<td colspan=\"3\">Header</td>"));
}

#[test]
fn test_triple_rowspan() {
    let html = otsl_to_html("C C NL U C NL U C NL", &["Tall3", "B1", "B2", "B3"]).unwrap();
    assert!(html.contains("<td rowspan=\"3\">Tall3</td>"));
}

#[test]
fn test_unknown_token_error() {
    let result = parse_otsl_string("C Z C NL");
    assert!(result.is_err());
    let err = result.unwrap_err().message();
    assert!(err.contains("Unknown OTSL token"));
}

#[test]
fn test_large_merged_block() {
    let html = otsl_to_html(
        "C L L NL U X X NL C C C NL",
        &["BigBlock", "R3C1", "R3C2", "R3C3"],
    )
    .unwrap();
    assert!(html.contains("<td colspan=\"3\" rowspan=\"2\">BigBlock</td>"));
}

#[test]
fn test_recognize_structure_not_implemented() {
    let recognizer = TableRecognizer::new();
    let result = recognizer.recognize_structure(&[]);
    assert!(result.is_err());
}

#[test]
fn test_decode_otsl_to_table_data() {
    let tokens = parse_otsl_string("C C NL C C NL").unwrap();
    let data = TableRecognizer::decode_otsl_to_table_data(&tokens, &["A", "B", "C", "D"]).unwrap();
    assert_eq!(data.rows.len(), 2);
    assert_eq!(data.rows[0], vec!["A", "B"]);
    assert_eq!(data.rows[1], vec!["C", "D"]);
    assert_eq!(data.headers, Some(vec!["A".to_string(), "B".to_string()]));
}

#[test]
fn whole_table_html_is_exact() {
    let html = otsl_to_html("C L NL C C NL", &["Wide", "x", "y"]).unwrap();
    assert_eq!(
        html,
        "<table>\n  <tr>\n    <td colspan=\"2\">Wide</td>\n  </tr>\n  <tr>\n    <td>x</td>\n    <td>y</td>\n  </tr>\n</table>"
    );
}

#[test]
fn tokens_parse_in_order() {
    let tokens = parse_otsl_string("C L U X NL").unwrap();
    assert_eq!(
        tokens,
        vec![OtslToken::C, OtslToken::L, OtslToken::U, OtslToken::X, OtslToken::NL]
    );
}

#[test]
fn missing_contents_give_empty_cells() {
    let html = otsl_to_html("C C NL", &["only"]).unwrap();
    assert!(html.contains("<td>only</td>\n    <td></td>"));
}

#[test]
fn recognizer_error_says_not_implemented() {
    let err = TableRecognizer::new().recognize_structure(&[1, 2, 3]).unwrap_err();
    assert_eq!(err.code(), "E1002");
}

#[test]
fn up_merge_extends_the_cell_directly_above() {
    let tokens = parse_otsl_string("C C NL C U NL").unwrap();
    let html = TableRecognizer::decode_otsl(&tokens, &["A", "B", "C"]).unwrap();
    assert!(html.contains("<td rowspan=\"2\">B</td>"));
    assert!(html.contains("<td>A</td>"));
    assert!(html.contains("<td>C</td>"));
}

#[test]
fn up_merge_under_a_colspan_extends_its_origin() {
    // The U in column 2 sits under an L that continues B's colspan, so B grows.
    let tokens = parse_otsl_string("C C L NL C C U NL").unwrap();
    let html = TableRecognizer::decode_otsl(&tokens, &["A", "B", "C", "D"]).unwrap();
    assert!(html.contains("<td colspan=\"2\" rowspan=\"2\">B</td>"));
    assert!(html.contains("<td>A</td>"));
}
