//! A small TF-IDF relevance engine: lexical tokenization, per-document term
//! frequency accounting, smoothed inverse-document-frequency weights held as
//! exact integer ratios, scoring, ranking, and a lossless textual encoding of
//! a built index.

pub mod assoc;
pub mod codec;
pub mod inverse_doc_frequency;
pub mod rank;
pub mod term_frequency;
pub mod text;
pub mod tokenizer;
pub mod utils;
