//! Building blocks of the semantic analysis: dependency ordering, name and label
//! supply, DAG nodes and node numbering.
pub mod dependency;
pub mod ir;
pub mod tac;
pub mod quadruple;
pub mod basic_block;
pub mod dag;
pub mod context;
pub mod store;
pub mod warmup;
