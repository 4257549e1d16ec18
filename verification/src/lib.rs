//! Decision logic of a code-search index, with its behaviour stated as contracts.

pub mod config;
pub mod digest;
pub mod index;
pub mod json;
pub mod llm;
pub mod order;
pub mod path;
pub mod text;
pub mod types;
