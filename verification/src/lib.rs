//! Word-embedding support library: a streaming corpus tokenizer, a
//! frequency vocabulary with an open-addressed hash index and a weighted
//! unigram sampling table, and the small codecs its file formats use.

pub mod codec;
pub mod rng;
pub mod tokenizer;
pub mod training;
pub mod vocab;
