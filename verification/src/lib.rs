//! A multilingual subword tokenization library.
//!
//! The pipeline turns a raw input string into model-ready token id
//! sequences: the text is cut at special-token literals, cleaned of
//! control characters, CJK ideographs are isolated, whitespace is
//! split away, non-special words are lowercased and stripped of
//! accents, punctuation is split off, and the resulting pieces are
//! mapped to vocabulary ids, truncated to a maximum length and
//! framed.

pub mod unicode;
pub mod vocab;
pub mod text;
pub mod split;
pub mod truncation;
pub mod tokenizer;

pub use vocab::Vocab;
pub use vocab::VocabularyError;
pub use truncation::TruncationStrategy;
pub use truncation::TokenizationError;
pub use tokenizer::BaseTokenizer;
