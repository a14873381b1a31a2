use langextract::data::{
    AlignmentStatus, AnnotatedDocument, AttributeValue, CharInterval, Document, ExampleData,
    Extraction,
};
use langextract::tokenizer::TokenType;

#[test]
fn test_char_interval_creation() {
    let interval = CharInterval::new(Some(0), Some(5));
    assert_eq!(interval.start_pos, Some(0));
    assert_eq!(interval.end_pos, Some(5));
}

#[test]
fn test_document_id_generation() {
    let mut doc = Document::new("Hello World".to_string(), None, None);
    let id1 = doc.document_id();
    assert!(id1.starts_with("doc_"));
    let id2 = doc.document_id();
    assert_eq!(id1, id2);
}

#[test]
fn test_document_id_setter() {
    let mut doc = Document::new("Hello".to_string(), None, None);
    doc.set_document_id(Some("custom_id".to_string()));
    assert_eq!(doc.document_id(), "custom_id".to_string());
}

#[test]
fn test_tokenized_text_lazy_init() {
    let mut doc = Document::new("Hello World".to_string(), None, None);
    assert!(doc.tokenized_text.is_none());

    let tokens = doc.tokenized_text().tokens.clone();
    assert!(!tokens.is_empty());
    assert_eq!(tokens[0].index, 0);
    assert_eq!(tokens[0].token_type, TokenType::Word);
    assert_eq!(tokens[0].char_interval.start_pos, 0);
    assert_eq!(tokens[0].char_interval.end_pos, 5);
}

#[test]
fn test_annotated_document_generation() {
    let mut ann_doc = AnnotatedDocument::new(None, None, Some("Test Text".to_string()));
    let id = ann_doc.document_id();
    assert!(id.starts_with("doc_"));
}

#[test]
fn test_extraction_with_attributes() {
    let attributes = vec![
        ("key1".to_string(), AttributeValue::Single("value1".to_string())),
        (
            "key2".to_string(),
            AttributeValue::Multiple(vec!["v1".to_string(), "v2".to_string()]),
        ),
    ];

    let extraction = Extraction::new(
        "class1".to_string(),
        "text1".to_string(),
        None,
        None,
        Some(AlignmentStatus::MatchExact),
        Some(1),
        Some(2),
        Some("description".to_string()),
        Some(attributes),
    );

    assert_eq!(extraction.extraction_class, "class1");
    assert_eq!(extraction.extraction_text, "text1");
    assert_eq!(extraction.alignment_status, Some(AlignmentStatus::MatchExact));
}

#[test]
fn test_example_data_creation() {
    let extraction = Extraction::new(
        "class".to_string(),
        "text".to_string(),
        None,
        None,
        None,
        None,
        None,
        None,
        None,
    );
    let example = ExampleData::new("Example text".to_string(), vec![extraction]);
    assert_eq!(example.text, "Example text");
    assert_eq!(example.extractions.len(), 1);
}

#[test]
fn test_alignment_status_conversion() {
    let status_str = AlignmentStatus::MatchExact.to_status_string();
    assert_eq!(&status_str, "match_exact");

    let status = AlignmentStatus::from_status_string("match_fuzzy").unwrap();
    assert_eq!(status, AlignmentStatus::MatchFuzzy);
}
