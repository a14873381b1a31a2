use langextract::annotation::{
    assemble_annotations, document_chunk_iterator, extractions_overlap,
    merge_non_overlapping_extractions, AlignOptions,
};
use langextract::data::{CharInterval, Document, Extraction};
use langextract::resolver::Resolver;

fn extraction_with_chars(class: &str, start: usize, end: usize) -> Extraction {
    Extraction::new(
        class.to_string(),
        "text".to_string(),
        None,
        Some(CharInterval::new(Some(start), Some(end))),
        None,
        None,
        None,
        None,
        None,
    )
}

fn extraction_without_chars(class: &str) -> Extraction {
    Extraction::new(
        class.to_string(),
        "text".to_string(),
        None,
        None,
        None,
        None,
        None,
        None,
        None,
    )
}

#[test]
fn overlap_is_strict() {
    let a = extraction_with_chars("x", 0, 5);
    let b = extraction_with_chars("x", 5, 8);
    let c = extraction_with_chars("x", 4, 8);
    assert!(!extractions_overlap(&a, &b));
    assert!(extractions_overlap(&a, &c));
}

#[test]
fn missing_interval_never_overlaps() {
    let a = extraction_without_chars("x");
    let b = extraction_with_chars("x", 0, 100);
    assert!(!extractions_overlap(&a, &b));
    assert!(!extractions_overlap(&b, &a));
}

#[test]
fn first_pass_wins_merge() {
    let pass1 = vec![extraction_with_chars("x", 0, 5)];
    let pass2 = vec![extraction_with_chars("x", 3, 8), extraction_with_chars("x", 10, 15)];
    let merged = merge_non_overlapping_extractions(&vec![pass1, pass2]);
    assert_eq!(merged.len(), 2);
    assert_eq!(merged[0].char_interval, Some(CharInterval::new(Some(0), Some(5))));
    assert_eq!(merged[1].char_interval, Some(CharInterval::new(Some(10), Some(15))));
}

#[test]
fn identical_passes_merge_to_one() {
    let pass = vec![extraction_with_chars("x", 0, 5), extraction_with_chars("y", 7, 9)];
    let passes = vec![pass.clone(), pass.clone(), pass.clone()];
    let merged = merge_non_overlapping_extractions(&passes);
    assert_eq!(merged.len(), 2);
    assert_eq!(merged[0].extraction_class, "x");
    assert_eq!(merged[1].extraction_class, "y");
}

#[test]
fn merge_of_no_passes_is_empty() {
    let merged = merge_non_overlapping_extractions(&Vec::new());
    assert!(merged.is_empty());
}

#[test]
fn duplicate_document_ids_are_rejected() {
    let d1 = Document::new("one".to_string(), Some("same".to_string()), None);
    let d2 = Document::new("two".to_string(), Some("same".to_string()), None);
    let result = document_chunk_iterator(vec![d1, d2], 100, true);
    assert!(result.is_err());
}

#[test]
fn empty_document_yields_empty_annotation() {
    let doc = Document::new("".to_string(), Some("empty".to_string()), None);
    let chunks = document_chunk_iterator(vec![doc.clone()], 100, true).unwrap();
    assert!(chunks.is_empty());
    let resolver = Resolver::new(true, None, None, true);
    let options = AlignOptions {
        enable_fuzzy_alignment: false,
        fuzzy_alignment_threshold_permille: 750,
        accept_match_lesser: false,
        suppress_parse_errors: false,
    };
    let annotated =
        assemble_annotations(vec![doc], chunks, Vec::new(), &resolver, options).unwrap();
    assert_eq!(annotated.len(), 1);
    assert_eq!(annotated[0].extractions.as_ref().unwrap().len(), 0);
}

#[test]
fn single_pass_assembly_aligns_extractions() {
    let text = "Alice went to the market.";
    let doc = Document::new(text.to_string(), Some("d1".to_string()), None);
    let chunks = document_chunk_iterator(vec![doc.clone()], 1000, true).unwrap();
    assert_eq!(chunks.len(), 1);
    let resolver = Resolver::new(true, None, None, true);
    let options = AlignOptions {
        enable_fuzzy_alignment: false,
        fuzzy_alignment_threshold_permille: 750,
        accept_match_lesser: false,
        suppress_parse_errors: false,
    };
    let outputs = vec!["```yaml\nperson: Alice\n```".to_string()];
    let annotated = assemble_annotations(vec![doc], chunks, outputs, &resolver, options).unwrap();
    assert_eq!(annotated.len(), 1);
    let exts = annotated[0].extractions.as_ref().unwrap();
    assert_eq!(exts.len(), 1);
    assert_eq!(exts[0].extraction_class, "person");
    assert_eq!(exts[0].extraction_text, "Alice");
    let ci = exts[0].char_interval.unwrap();
    assert_eq!(ci.start_pos, Some(0));
    assert_eq!(ci.end_pos, Some(5));
}

#[test]
fn empty_model_output_is_fatal() {
    let text = "Alice went to the market.";
    let doc = Document::new(text.to_string(), Some("d1".to_string()), None);
    let chunks = document_chunk_iterator(vec![doc.clone()], 1000, true).unwrap();
    let resolver = Resolver::new(true, None, None, true);
    let options = AlignOptions {
        enable_fuzzy_alignment: false,
        fuzzy_alignment_threshold_permille: 750,
        accept_match_lesser: false,
        suppress_parse_errors: false,
    };
    let outputs = vec!["".to_string()];
    assert!(assemble_annotations(vec![doc], chunks, outputs, &resolver, options).is_err());
}
