use parser_chunker::model::ElementType;
use parser_chunker::output::compat::map_element_type;

#[test]
fn test_element_type_mapping() {
    assert_eq!(map_element_type(&ElementType::Title), "Title");
    assert_eq!(map_element_type(&ElementType::NarrativeText), "NarrativeText");
    assert_eq!(map_element_type(&ElementType::ListItem), "ListItem");
    assert_eq!(map_element_type(&ElementType::Table), "Table");
    assert_eq!(map_element_type(&ElementType::Image), "Image");
    assert_eq!(map_element_type(&ElementType::Header), "Header");
    assert_eq!(map_element_type(&ElementType::Footer), "Footer");
    assert_eq!(map_element_type(&ElementType::CodeBlock), "UncategorizedText");
    assert_eq!(map_element_type(&ElementType::EmailBody), "NarrativeText");
    assert_eq!(map_element_type(&ElementType::EmailHeader), "Header");
}
