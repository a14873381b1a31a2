//! Structured information extraction from long text, driven by a large
//! language model: tokenizing, sentence-aware chunking, prompt rendering,
//! tolerant resolution of model replies, word alignment back to the source,
//! and multi-pass assembly of annotated documents.

pub mod text;
pub mod annotation;
pub mod chunking;
pub mod data;
pub mod error;
pub mod tokenizer;
pub mod inference;
pub mod progress;
pub mod prompting;
pub mod resolver;
pub mod schema;
pub mod visualization;
pub mod wire;
