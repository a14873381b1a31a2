use langextract::chunking::{
    create_token_interval, get_char_interval, get_token_interval_text, make_batches_of_textchunk,
    sanitize, tokens_text, ChunkIterator, SentenceIterator,
};
use langextract::tokenizer::{tokenize, TokenInterval};

#[test]
fn test_create_token_interval_valid() {
    let interval = create_token_interval(0, 2).unwrap();
    assert_eq!(interval.start_index, 0);
    assert_eq!(interval.end_index, 2);
}

#[test]
#[should_panic]
fn test_create_token_interval_invalid() {
    create_token_interval(2, 2).unwrap();
}

#[test]
fn test_sanitize() {
    let input = "Hello,\n   world!\tThis is   Rust.";
    let sanitized = sanitize(input).unwrap();
    assert_eq!(sanitized, "Hello, world! This is Rust.");
}

#[test]
fn test_get_token_interval_text() {
    let text = "Hello world!";
    let tokenized_text = tokenize(text);
    let interval = TokenInterval { start_index: 0, end_index: 2 };
    let result = tokens_text(&tokenized_text, &interval).unwrap();
    assert!(!result.is_empty());
}

#[test]
fn test_get_char_interval() {
    let text = "Hello world!";
    let tokenized_text = tokenize(text);
    let interval = TokenInterval { start_index: 0, end_index: 2 };
    let char_interval = get_char_interval(&tokenized_text, &interval).unwrap();
    assert!(char_interval.start_pos.is_some());
    assert!(char_interval.end_pos.is_some());
}

#[test]
fn test_sentence_iterator() {
    let text = "Hello world!";
    let tokenized_text = tokenize(text);
    let mut iter = SentenceIterator::new(&tokenized_text, 0).unwrap();
    let first = iter.next_interval().unwrap();
    assert_eq!(first.start_index, 0);
}

#[test]
fn test_chunk_iterator_basic() {
    let text = "Hello world!";
    let tokenized_text = tokenize(text);
    let mut chunk_iter = ChunkIterator::new(&tokenized_text, 100, None);
    let mut chunks = Vec::new();
    while let Some(chunk) = chunk_iter.next_chunk() {
        chunks.push(chunk);
    }
    assert!(!chunks.is_empty());
}

#[test]
fn test_make_batches_of_textchunk() {
    let text = "Hello world!";
    let tokenized_text = tokenize(text);
    let mut chunk_iter = ChunkIterator::new(&tokenized_text, 100, None);
    let mut chunks = Vec::new();
    while let Some(chunk) = chunk_iter.next_chunk() {
        chunks.push(chunk);
    }
    let batches = make_batches_of_textchunk(chunks, 1);
    assert!(!batches.is_empty());
}

#[test]
fn single_chunk_covers_short_text() {
    let text = "Hello world!";
    let tokenized_text = tokenize(text);
    let total_tokens = tokenized_text.tokens.len();
    let mut chunk_iter = ChunkIterator::new(&tokenized_text, 1000, None);
    let mut chunk = chunk_iter.next_chunk().unwrap();
    assert_eq!(chunk.token_interval.start_index, 0);
    assert_eq!(chunk.token_interval.end_index, total_tokens);
    assert!(chunk_iter.next_chunk().is_none());
    let sanitized = chunk.sanitized_chunk_text().unwrap();
    assert_eq!(sanitized, "Hello world!");
}

#[test]
fn over_budget_token_is_its_own_chunk() {
    let text = "Supercalifragilistic word";
    let tokenized_text = tokenize(text);
    let mut chunk_iter = ChunkIterator::new(&tokenized_text, 5, None);
    let chunk = chunk_iter.next_chunk().unwrap();
    assert_eq!(chunk.token_interval.start_index, 0);
    assert_eq!(chunk.token_interval.end_index, 1);
}

#[test]
fn chunks_respect_budget() {
    let text = "One two three. Four five six. Seven eight nine.";
    let tokenized_text = tokenize(text);
    let mut chunk_iter = ChunkIterator::new(&tokenized_text, 20, None);
    while let Some(mut chunk) = chunk_iter.next_chunk() {
        let iv = chunk.token_interval;
        let ci = chunk.char_interval().unwrap();
        let span = ci.end_pos.unwrap() - ci.start_pos.unwrap();
        assert!(span <= 20 || iv.end_index == iv.start_index + 1);
    }
}

#[test]
fn sanitize_rejects_blank_text() {
    assert!(sanitize("   \t\n ").is_err());
}

#[test]
fn interval_text_rejects_empty_interval() {
    let tokenized = tokenize("Hello world!");
    let bad = TokenInterval { start_index: 1, end_index: 1 };
    assert!(get_token_interval_text(&tokenized, &bad).is_err());
}

#[test]
fn chunk_text_retokenizes_to_interval_length() {
    let text = "Hello world! This is Rust. 你好 world N/A 42.";
    let tokenized = tokenize(text);
    let mut chunk_iter = ChunkIterator::new(&tokenized, 15, None);
    while let Some(mut chunk) = chunk_iter.next_chunk() {
        let iv = chunk.token_interval;
        let chunk_text = chunk.chunk_text().unwrap();
        let retokenized = tokenize(&chunk_text);
        assert_eq!(retokenized.tokens.len(), iv.end_index - iv.start_index);
    }
}
