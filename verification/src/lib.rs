//! Keyboard layout analysis: layouts, n-gram corpora and typing-effort penalties.

pub mod layout;
pub mod text;
pub mod penalty;
pub mod corpus_manager;
pub mod corpus_laws;
pub mod evaluator_penalty;
pub mod evaluator;
pub mod positions;
pub mod letters;
