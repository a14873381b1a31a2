use langextract::inference::InferenceOutputError;
use langextract::progress::format_extraction_progress;
use langextract::resolver::Resolver;
use langextract::visualization::{get_category_icon, get_chinese_category_name};

#[test]
fn test_inference_output_error() {
    let error = InferenceOutputError::new("Test error message".to_string());
    assert_eq!(error.message, "Test error message");
    assert!(!error.message.is_empty());
}

#[test]
fn test_format_extraction_progress() {
    assert_eq!(
        format_extraction_progress(Some("model-1"), None, None),
        format!("\x1b[94m\x1b[1mLangExtract\x1b[0m: model=\x1b[92mmodel-1\x1b[0m")
    );

    assert_eq!(
        format_extraction_progress(None, Some(100), Some(1000)),
        format!("\x1b[94m\x1b[1mLangExtract\x1b[0m: Processing, current=\x1b[92m100\x1b[0m chars, processed=\x1b[92m1000\x1b[0m chars")
    );
}

#[test]
fn test_get_chinese_category_name() {
    assert_eq!(get_chinese_category_name("characters"), "人物角色");
    assert_eq!(get_chinese_category_name("locations"), "地点场所");
    assert_eq!(get_chinese_category_name("objects"), "物品器具");
    assert_eq!(get_chinese_category_name("clothing"), "服饰装扮");
    assert_eq!(get_chinese_category_name("emotions"), "情感状态");
    assert_eq!(get_chinese_category_name("nature"), "自然景物");
    assert_eq!(get_chinese_category_name("unknown"), "其他");
}

#[test]
fn test_get_category_icon() {
    assert_eq!(get_category_icon("characters"), "👤");
    assert_eq!(get_category_icon("locations"), "🏛️");
    assert_eq!(get_category_icon("objects"), "📿");
    assert_eq!(get_category_icon("clothing"), "👘");
    assert_eq!(get_category_icon("emotions"), "💭");
    assert_eq!(get_category_icon("nature"), "🌸");
    assert_eq!(get_category_icon("unknown"), "🔸");
}

#[test]
fn test_getting_started_resolver_configuration() {
    let resolver = Resolver::new(true, None, None, true);
    let llm_response = "```yaml\n- Alice\n- Bob\n- Charlie\n```";
    let extractions = resolver
        .parse_extractions_from_string(llm_response)
        .unwrap_or_else(|e| panic!("Failed to parse LLM response: {:?}", e));
    assert!(extractions.len() == 3, "Expected 3 extractions, got {}", extractions.len());
    let texts: Vec<&str> = extractions.iter().map(|e| e.extraction_text.as_str()).collect();
    assert!(texts.contains(&"Alice"), "Missing Alice");
    assert!(texts.contains(&"Bob"), "Missing Bob");
    assert!(texts.contains(&"Charlie"), "Missing Charlie");
    let group = extractions[0].group_index;
    assert!(
        extractions.iter().all(|e| e.group_index == group),
        "All extractions should be in the same group"
    );
    println!("✅ Getting started resolver configuration test passed!");
    println!("   Found {} extractions: {:?}", extractions.len(), texts);
}

#[test]
fn test_getting_started_wrong_configuration() {
    let resolver = Resolver::new(false, None, None, false);
    let llm_response = "```yaml\n- Alice\n- Bob\n- Charlie\n```";
    match resolver.parse_extractions_from_string(llm_response) {
        Ok(extractions) => {
            println!("Unexpected success with wrong config, got {} extractions", extractions.len());
            panic!("Unexpected success with wrong config, got {} extractions", extractions.len());
        }
        Err(e) => {
            println!("Expected failure with wrong config: {:?}", e);
        }
    }
}

#[test]
fn test_json_configuration_works() {
    let resolver = Resolver::new(true, None, None, false);
    let llm_response = "```json\n[\"Alice\", \"Bob\", \"Charlie\"]\n```";
    let extractions = resolver
        .parse_extractions_from_string(llm_response)
        .unwrap_or_else(|e| panic!("JSON parsing should work: {:?}", e));
    assert_eq!(extractions.len(), 3);
    let texts: Vec<&str> = extractions.iter().map(|e| e.extraction_text.as_str()).collect();
    assert!(texts.contains(&"Alice"));
    assert!(texts.contains(&"Bob"));
    assert!(texts.contains(&"Charlie"));
}

#[test]
fn test_simple_name_extraction_workflow() {
    let resolver = Resolver::new(true, None, None, true);
    let llm_response = "```yaml\n- Alice\n- Bob\n- Charlie\n```";
    let extractions = resolver
        .parse_extractions_from_string(llm_response)
        .unwrap_or_else(|e| panic!("Failed to parse LLM response: {:?}", e));
    assert!(extractions.len() == 3, "Expected 3 extractions, got {}", extractions.len());
    println!("Debug: Raw extractions in order:");
    for (i, e) in extractions.iter().enumerate() {
        println!(
            "  extraction[{}] = text:'{}', class:'{}', index:{}, group:{}",
            i, e.extraction_text, e.extraction_class, e.extraction_index, e.group_index
        );
    }
    let texts: Vec<&str> = extractions.iter().map(|e| e.extraction_text.as_str()).collect();
    assert!(texts.contains(&"Alice"));
    assert!(texts.contains(&"Bob"));
    assert!(texts.contains(&"Charlie"));
    assert!(extractions.iter().all(|e| e.extraction_class.starts_with("text")));
    println!("✅ Successfully parsed {} names from LLM response", extractions.len());
    for (i, e) in extractions.iter().enumerate() {
        println!("  {}. {} (class: {}, index: {})", i + 1, e.extraction_text, e.extraction_class, e.extraction_index);
    }
}

#[test]
fn test_structured_format_still_works() {
    let resolver = Resolver::new(true, None, None, true);
    let llm_response = "```yaml\nextractions:\n  - Alice\n  - Bob\n  - Charlie\n```";
    let extractions = resolver
        .parse_extractions_from_string(llm_response)
        .unwrap_or_else(|e| panic!("Failed to parse structured response: {:?}", e));
    assert_eq!(extractions.len(), 3);
    let texts: Vec<&str> = extractions.iter().map(|e| e.extraction_text.as_str()).collect();
    assert!(texts.contains(&"Alice"));
    assert!(texts.contains(&"Bob"));
    assert!(texts.contains(&"Charlie"));
}

#[test]
fn test_json_simple_array_format() {
    let resolver = Resolver::new(true, None, None, false);
    let llm_response = "```json\n[\"Alice\", \"Bob\", \"Charlie\"]\n```";
    let extractions = resolver
        .parse_extractions_from_string(llm_response)
        .unwrap_or_else(|e| panic!("Failed to parse JSON response: {:?}", e));
    assert_eq!(extractions.len(), 3);
    let texts: Vec<&str> = extractions.iter().map(|e| e.extraction_text.as_str()).collect();
    assert!(texts.contains(&"Alice"));
    assert!(texts.contains(&"Bob"));
    assert!(texts.contains(&"Charlie"));
}
