use langextract::prompting::{
    ExampleData, Extraction, FormatType, PromptTemplateStructured, QAPromptGenerator,
};

#[test]
fn test_format_example_as_text_yaml() {
    let ex = ExampleData {
        text: "Find Bob".to_string(),
        extractions: vec![Extraction {
            extraction_class: "name".to_string(),
            extraction_text: "Bob".to_string(),
            attributes: None,
        }],
    };

    let tpl = PromptTemplateStructured {
        description: "Desc".to_string(),
        examples: vec![ExampleData {
            text: "Find Bob".to_string(),
            extractions: vec![Extraction {
                extraction_class: "name".to_string(),
                extraction_text: "Bob".to_string(),
                attributes: None,
            }],
        }],
    };

    let qa_gen = QAPromptGenerator::new(tpl);

    let formatted = qa_gen.format_example_as_text(&ex);
    assert!(formatted.contains("```yaml"));
    assert!(formatted.contains("Q: Find Bob"));
    assert!(formatted.contains("A: "));
    assert!(formatted.contains("name:"));
}

#[test]
fn test_render_composes_prompt() {
    let tpl = PromptTemplateStructured {
        description: "This is a desc".to_string(),
        examples: vec![ExampleData {
            text: "Who is Alice?".to_string(),
            extractions: vec![Extraction {
                extraction_class: "person".to_string(),
                extraction_text: "Alice".to_string(),
                attributes: None,
            }],
        }],
    };

    let mut qa_gen = QAPromptGenerator::new(tpl);
    qa_gen.format_type = FormatType::JSON;

    let out = qa_gen.render_with_context("What is being asked?", Some("Some extra context"));
    assert!(out.contains("This is a desc"));
    assert!(out.contains("Some extra context"));
    assert!(out.contains("Q: What is being asked?"));
    assert!(out.contains("A:"));
}

#[test]
fn format_name_parsing() {
    assert_eq!(FormatType::from_format_string("yaml"), Some(FormatType::YAML));
    assert_eq!(FormatType::from_format_string("json"), Some(FormatType::JSON));
    assert_eq!(FormatType::from_format_string("xml"), None);
}

#[test]
fn rendered_example_round_trips_through_resolver() {
    let tpl = PromptTemplateStructured {
        description: "Desc".to_string(),
        examples: Vec::new(),
    };
    let qa_gen = QAPromptGenerator::new(tpl);
    let ex = ExampleData {
        text: "Find Bob".to_string(),
        extractions: vec![Extraction {
            extraction_class: "name".to_string(),
            extraction_text: "Bob".to_string(),
            attributes: None,
        }],
    };
    let formatted = qa_gen.format_example_as_text(&ex);
    let answer = formatted.split("A: ").nth(1).unwrap();
    let resolver = langextract::resolver::Resolver::new(
        true,
        Some("_index".to_string()),
        Some("_attributes".to_string()),
        true,
    );
    let parsed = resolver.parse_extractions_from_string(answer).unwrap();
    assert_eq!(parsed.len(), 1);
    assert_eq!(parsed[0].extraction_class, "name");
    assert_eq!(parsed[0].extraction_text, "Bob");
}
