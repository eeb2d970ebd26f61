//! LR parser generator and compiler front-end building blocks.
pub mod cfg;
pub mod text;
pub mod grammar_text;
pub mod counting;
pub mod analysis;
pub mod lr;
pub mod parser;
pub mod token_mapper;
pub mod semantic;
pub mod laws;
