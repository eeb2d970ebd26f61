//! LR(0), SLR(1), LR(1) and LALR(1) parser construction.
pub mod item;
pub mod lookahead;
pub mod first;
pub mod follow;
pub mod closure;
pub mod goto;
pub mod augmented;
pub mod item_set;
pub mod states;
pub mod action;
pub mod conflict;
pub mod grammar_type;
pub mod table;
pub mod core_set;
pub mod error;
pub mod stack;
pub mod validator;
pub mod token_mapper;
pub mod parser;
pub mod builder;
pub mod all_items;
pub mod table_builders;
pub mod display;
pub mod sorting;
pub mod report_text;
pub mod print_text;
