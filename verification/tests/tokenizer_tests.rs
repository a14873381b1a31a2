use langextract::tokenizer::{find_sentence_range, tokenize, tokens_text, TokenInterval, TokenType};

#[test]
fn test_tokenize_basic() {
    let text = "Dr. Smith went to Paris.";
    let tokenized = tokenize(text);

    assert!(!tokenized.tokens.is_empty());
    let first = tokens_text(
        &tokenized,
        &TokenInterval { start_index: 0, end_index: 1 },
    )
    .unwrap();
    assert_eq!(first, "Dr");
    assert_eq!(tokenized.tokens[0].token_type, TokenType::Word);
}

#[test]
fn test_tokens_text_reconstruct() {
    let text = "Hello world!";
    let tokenized = tokenize(text);

    let interval = TokenInterval {
        start_index: 0,
        end_index: tokenized.tokens.len() - 1,
    };
    let reconstructed = tokens_text(&tokenized, &interval).unwrap();
    assert_eq!(reconstructed, "Hello world");
}

#[test]
fn test_find_sentence_range() {
    let text = "Hello world! This is Rust.";
    let tokenized = tokenize(text);

    let range1 = find_sentence_range(&tokenized.text, &tokenized.tokens, 0).unwrap();
    let sentence1 = tokens_text(&tokenized, &range1).unwrap();
    assert_eq!(sentence1, "Hello world!");

    let range2 = find_sentence_range(&tokenized.text, &tokenized.tokens, range1.end_index).unwrap();
    let sentence2 = tokens_text(&tokenized, &range2).unwrap();
    assert_eq!(sentence2, "This is Rust.");
}

#[test]
fn test_invalid_token_interval() {
    let text = "Hello world!";
    let tokenized = tokenize(text);

    let invalid_interval = TokenInterval { start_index: 5, end_index: 2 };

    let result = tokens_text(&tokenized, &invalid_interval);
    assert!(result.is_err());
}

#[test]
fn test_chinese_tokenization() {
    let text = "宝玉今日穿了一件月白缎子袍子，腰系丝绦，头戴紫金冠。";
    let tokenized = tokenize(text);

    assert!(!tokenized.tokens.is_empty());

    let mut found_chinese_word = false;
    for token in &tokenized.tokens {
        let token_text = tokens_text(
            &tokenized,
            &TokenInterval { start_index: token.index, end_index: token.index + 1 },
        )
        .unwrap();
        if token.token_type == TokenType::Word
            && token_text.chars().any(|c| c >= '\u{4e00}' && c <= '\u{9fff}')
        {
            found_chinese_word = true;
            break;
        }
    }
    assert!(found_chinese_word, "Should find at least one Chinese word token");

    let punctuation_tokens: Vec<_> = tokenized
        .tokens
        .iter()
        .filter(|t| t.token_type == TokenType::Punctuation)
        .collect();
    assert!(!punctuation_tokens.is_empty(), "Should find punctuation tokens");
}

#[test]
fn test_mixed_chinese_english_tokenization() {
    let text = "Hello世界! This is测试.";
    let tokenized = tokenize(text);

    assert!(!tokenized.tokens.is_empty());

    let token_str = |i: usize| {
        tokens_text(
            &tokenized,
            &TokenInterval { start_index: i, end_index: i + 1 },
        )
        .unwrap()
    };

    let has_english = tokenized.tokens.iter().any(|t| {
        t.token_type == TokenType::Word
            && token_str(t.index).chars().all(|c| c.is_ascii_alphabetic())
    });

    let has_chinese = tokenized.tokens.iter().any(|t| {
        t.token_type == TokenType::Word
            && token_str(t.index).chars().any(|c| c >= '\u{4e00}' && c <= '\u{9fff}')
    });

    assert!(has_english, "Should find English words");
    assert!(has_chinese, "Should find Chinese words");
}

#[test]
fn cjk_char_positions_are_code_points() {
    let tokenized = tokenize("宝玉今日");
    assert_eq!(tokenized.tokens.len(), 1);
    assert_eq!(tokenized.tokens[0].char_interval.start_pos, 0);
    assert_eq!(tokenized.tokens[0].char_interval.end_pos, 4);
    assert_eq!(tokenized.tokens[0].token_type, TokenType::Word);
}

#[test]
fn abbreviation_does_not_end_sentence() {
    let text = "Dr. Smith went to Paris.";
    let tokenized = tokenize(text);
    let range = find_sentence_range(&tokenized.text, &tokenized.tokens, 0).unwrap();
    let sentence = tokens_text(&tokenized, &range).unwrap();
    assert_eq!(sentence, "Dr. Smith went to Paris.");
}

#[test]
fn empty_text_has_no_tokens() {
    let tokenized = tokenize("");
    assert_eq!(tokenized.tokens.len(), 0);
}

#[test]
fn acronym_token_kind() {
    let tokenized = tokenize("result was N/A today");
    let kinds: Vec<_> = tokenized.tokens.iter().map(|t| t.token_type).collect();
    assert!(kinds.contains(&TokenType::Acronym));
}

#[test]
fn number_token_kind() {
    let tokenized = tokenize("take 42 steps");
    assert_eq!(tokenized.tokens[1].token_type, TokenType::Number);
    assert_eq!(tokenized.tokens[1].char_interval.start_pos, 5);
    assert_eq!(tokenized.tokens[1].char_interval.end_pos, 7);
}

#[test]
fn newline_flag_is_set() {
    let tokenized = tokenize("one\ntwo");
    assert!(!tokenized.tokens[0].first_token_after_newline);
    assert!(tokenized.tokens[1].first_token_after_newline);
}
