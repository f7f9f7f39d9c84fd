//! Evaluation of keyword extraction against reference keyphrases.
//!
//! The library holds the verified logic of the evaluation pipeline: flattening
//! tokenised documents, ordering scored terms, building the reference token
//! sets and computing precision, recall and F1 as exact ratios.

pub mod document;
pub mod evaluator;
pub mod keywords;
pub mod measure;
pub mod ranking;

pub use document::{HulthDocument, HulthToken, Sentence};
pub use evaluator::evaluate_document;
pub use keywords::{reference_key, reference_tokens, HulthDocumentKeywords};
pub use measure::{contains_text, evaluate, f1, EvalError, Measures, Ratio};
pub use ranking::{cmp_score, rank, RankedTerm, Score};
