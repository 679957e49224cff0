//! Full-text inverted index: tokenization, posting encoding, segment
//! building and merging, relevance scoring and ranked top-k retrieval.

pub mod posting;
pub mod codec;
pub mod error;
pub mod tokenizer;
pub mod index;
pub mod builder;
pub mod merger;
pub mod scorer;
pub mod query;
pub mod iter;
