use langextract::resolver::{tokenize, AlignmentStatus, Extraction, Resolver};

fn default_resolver() -> Resolver {
    Resolver::new(
        true,
        Some("_index".to_string()),
        Some("_attributes".to_string()),
        false,
    )
}

#[test]
fn test_parse_json_string() {
    let resolver = Resolver::new(
        false,
        Some("_index".to_string()),
        Some("_attributes".to_string()),
        false,
    );
    let json = r#"{
        "extractions": [
            {"person": "Alice", "person_index": 1},
            {"location": "Paris", "location_index": 2}
        ]
    }"#;
    let res = resolver.parse_extractions_from_string(json).unwrap();
    assert_eq!(res.len(), 2);
    assert_eq!(res[0].extraction_class, "person");
    assert_eq!(res[0].extraction_text, "Alice");
    assert_eq!(res[1].extraction_class, "location");
}

#[test]
fn test_parse_yaml_fenced() {
    let resolver = Resolver::new(true, Some("_index".to_string()), Some("_attributes".to_string()), true);
    let yaml_fenced = "```yaml\nextractions:\n  - person: Bob\n    person_index: 1\n```";
    let res = resolver.parse_extractions_from_string(yaml_fenced).unwrap();
    assert_eq!(res.len(), 1);
    assert_eq!(res[0].extraction_class, "person");
    assert_eq!(res[0].extraction_text, "Bob");
}

#[test]
fn test_extract_ordering_and_attributes() {
    let resolver = Resolver::new(
        false,
        Some("_index".to_string()),
        Some("_attributes".to_string()),
        false,
    );
    let json = r#"{
        "extractions":[
            {"name":"X", "name_index":5, "name_attributes": {"role":"admin"}},
            {"name":"Y", "name_index":2}
        ]
    }"#;
    let res = resolver.parse_extractions_from_string(json).unwrap();
    assert_eq!(res.len(), 2);
    assert_eq!(res[0].extraction_text, "Y");
    assert_eq!(res[1].extraction_text, "X");
    assert!(res[1].attributes.is_some());
}

#[test]
fn test_alignment_exact() {
    let resolver = Resolver::new(false, None, None, false);
    let ex = Extraction::new("person".to_string(), "Alice went".to_string(), 1, 0, None);
    let source = "Alice went to the market.";
    let aligned = resolver.align(&vec![ex], source, 0, Some(0), true, 750, true);

    assert_eq!(aligned.len(), 1);
    let a = &aligned[0];
    assert!(a.token_interval.is_some());
    assert!(a.char_interval.is_some());
    assert_eq!(a.alignment_status, Some(AlignmentStatus::MatchExact));
}

#[test]
fn test_alignment_fuzzy() {
    let resolver = Resolver::new(false, None, None, false);
    let ex = Extraction::new("event".to_string(), "running races".to_string(), 1, 0, None);
    let source = "the race involved many runners and running race participants";
    let aligned = resolver.align(&vec![ex], source, 0, Some(0), true, 300, true);
    assert_eq!(aligned.len(), 1);
}

#[test]
fn fuzzy_alignment_reports_status_and_interval() {
    let resolver = Resolver::new(false, None, None, false);
    let ex = Extraction::new("event".to_string(), "running races".to_string(), 1, 0, None);
    let source = "the race involved many runners and running race participants";
    let aligned = resolver.align(&vec![ex], source, 0, Some(0), true, 300, true);
    assert_eq!(aligned[0].alignment_status, Some(AlignmentStatus::MatchFuzzy));
    let ti = aligned[0].token_interval.unwrap();
    assert!(ti.start_index < ti.end_index);
}

#[test]
fn exact_alignment_char_interval() {
    let resolver = Resolver::new(false, None, None, false);
    let ex = Extraction::new("person".to_string(), "Alice went".to_string(), 1, 0, None);
    let aligned = resolver.align(&vec![ex], "Alice went to the market.", 0, Some(0), false, 750, false);
    assert_eq!(aligned[0].alignment_status, Some(AlignmentStatus::MatchExact));
    let ci = aligned[0].char_interval.unwrap();
    assert_eq!(ci.start_pos, 0);
    assert_eq!(ci.end_pos, 10);
}

#[test]
fn exact_alignment_ignores_case() {
    let resolver = Resolver::new(false, None, None, false);
    let ex = Extraction::new("person".to_string(), "ALICE WENT".to_string(), 1, 0, None);
    let aligned = resolver.align(&vec![ex], "alice went home", 0, Some(0), false, 750, false);
    assert_eq!(aligned[0].alignment_status, Some(AlignmentStatus::MatchExact));
}

#[test]
fn test_tokenizer() {
    let tokenized = tokenize("Hello world! 测试");
    assert_eq!(tokenized.tokens.len(), 3);
    assert_eq!(tokenized.tokens[0].text, "Hello");
    assert_eq!(tokenized.tokens[1].text, "world!");
    assert_eq!(tokenized.tokens[2].text, "测试");
}

#[test]
fn test_empty_input() {
    let resolver = Resolver::default();
    let result = resolver.parse_extractions_from_string("");
    assert!(result.is_err());
}

#[test]
fn test_invalid_json() {
    let resolver = Resolver::new(false, None, None, false);
    let result = resolver.parse_extractions_from_string("invalid json");
    assert!(result.is_err());
}

#[test]
fn test_parse_simple_yaml_array() {
    let resolver = Resolver::new(true, None, None, true);
    let yaml = "```yaml\n- Alice\n- Bob\n- Charlie\n```";
    let result = resolver.parse_extractions_from_string(yaml).unwrap();
    assert_eq!(result.len(), 3);

    let texts: Vec<&str> = result.iter().map(|e| e.extraction_text.as_str()).collect();
    assert!(texts.contains(&"Alice"));
    assert!(texts.contains(&"Bob"));
    assert!(texts.contains(&"Charlie"));

    for extraction in &result {
        assert!(extraction.extraction_class.starts_with("text"));
    }
}

#[test]
fn test_parse_simple_json_array() {
    let resolver = Resolver::new(true, None, None, false);
    let json = "```json\n[\"Alice\", \"Bob\", \"Charlie\"]\n```";
    let result = resolver.parse_extractions_from_string(json).unwrap();
    assert_eq!(result.len(), 3);

    let texts: Vec<&str> = result.iter().map(|e| e.extraction_text.as_str()).collect();
    assert!(texts.contains(&"Alice"));
    assert!(texts.contains(&"Bob"));
    assert!(texts.contains(&"Charlie"));

    for extraction in &result {
        assert!(extraction.extraction_class.starts_with("text"));
    }
}

#[test]
fn test_parse_nested_category_format() {
    let resolver = Resolver::new(true, None, None, true);
    let yaml = "```yaml\ncharacters:\n  - 宝玉\n  - 袭人\n  - 林姑娘\n  - 黛玉\nlocations:\n  - 怡红院\n  - 潇湘馆\nobjects:\n  - 月白缎子袍子\n  - 丝绦\n  - 紫金冠\n  - 云头履\n```";
    let result = resolver.parse_extractions_from_string(yaml).unwrap();
    assert!(result.len() > 0);

    let texts: Vec<&str> = result.iter().map(|e| e.extraction_text.as_str()).collect();
    assert!(texts.contains(&"宝玉"));
    assert!(texts.contains(&"袭人"));
    assert!(texts.contains(&"怡红院"));
    assert!(texts.contains(&"潇湘馆"));
    assert!(texts.contains(&"月白缎子袍子"));

    let classes: Vec<&str> = result.iter().map(|e| e.extraction_class.as_str()).collect();
    assert!(classes.iter().any(|c| c.starts_with("characters")));
    assert!(classes.iter().any(|c| c.starts_with("locations")));
    assert!(classes.iter().any(|c| c.starts_with("objects")));
}

#[test]
fn whitespace_only_fenced_reply_is_parse_error() {
    let resolver = Resolver::new(true, None, None, true);
    let result = resolver.parse_extractions_from_string("```yaml\n   \n```");
    assert!(result.is_err());
}

#[test]
fn suppressed_parse_errors_give_empty_list() {
    let resolver = Resolver::new(false, None, None, false);
    let result = resolver.resolve("invalid json", true).unwrap();
    assert!(result.is_empty());
}

#[test]
fn non_integer_index_is_rejected() {
    let resolver = default_resolver();
    let reply = "```json\n{\"extractions\": [{\"person\": \"Alice\", \"person_index\": \"one\"}]}\n```";
    assert!(resolver.parse_extractions_from_string(reply).is_err());
}

#[test]
fn non_mapping_attributes_are_rejected() {
    let resolver = default_resolver();
    let reply = "```json\n{\"extractions\": [{\"person\": \"Alice\", \"person_attributes\": 3}]}\n```";
    assert!(resolver.parse_extractions_from_string(reply).is_err());
}

#[test]
fn extractions_key_must_hold_a_list() {
    let resolver = default_resolver();
    let reply = "```json\n{\"extractions\": \"Alice\"}\n```";
    assert!(resolver.parse_extractions_from_string(reply).is_err());
}

#[test]
fn scalar_reply_is_rejected() {
    let resolver = Resolver::new(false, None, None, false);
    assert!(resolver.parse_extractions_from_string("42").is_err());
}

#[test]
fn missing_fence_is_parse_error() {
    let resolver = default_resolver();
    assert!(resolver.parse_extractions_from_string("{\"extractions\": []}").is_err());
}

#[test]
fn resolver_output_is_sorted_by_index_then_group() {
    let resolver = Resolver::new(
        false,
        Some("_index".to_string()),
        Some("_attributes".to_string()),
        false,
    );
    let json = r#"{
        "extractions":[
            {"b":"second", "b_index":2},
            {"a":"first", "a_index":1},
            {"c":"third", "c_index":2}
        ]
    }"#;
    let res = resolver.parse_extractions_from_string(json).unwrap();
    assert_eq!(res.len(), 3);
    for w in res.windows(2) {
        assert!(
            w[0].extraction_index < w[1].extraction_index
                || (w[0].extraction_index == w[1].extraction_index
                    && w[0].group_index <= w[1].group_index)
        );
    }
    assert_eq!(res[0].extraction_text, "first");
}

#[test]
fn fenced_yaml_with_indexes_orders_extractions() {
    let resolver = default_resolver_yaml();
    let reply = "```yaml\nextractions:\n  - person: Alice\n    person_index: 1\n  - person: Bob\n    person_index: 2\n```";
    let res = resolver.parse_extractions_from_string(reply).unwrap();
    assert_eq!(res.len(), 2);
    assert_eq!(res[0].extraction_text, "Alice");
    assert_eq!(res[1].extraction_text, "Bob");
    assert_eq!(res[0].extraction_class, "person");
    assert_eq!(res[1].extraction_class, "person");
}

fn default_resolver_yaml() -> Resolver {
    Resolver::new(
        true,
        Some("_index".to_string()),
        Some("_attributes".to_string()),
        true,
    )
}
