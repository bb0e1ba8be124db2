//! An incremental Pratt parser for any grammar given as a table.

pub mod checks;
pub mod cursor;
pub mod rules;
pub mod shown;
pub mod table;
pub mod token_store;
pub mod kept;
pub mod lexing;
pub mod measured;
pub mod document;
pub mod relex;
pub mod rope;
pub mod ast;
pub mod grammar;
pub mod chain;
pub mod bench_support;
pub mod cache;
pub mod cached;
pub mod pratt_core;
pub mod incremental;
pub mod parser;
pub mod verify;
pub mod walk;
pub mod host;
pub mod host_grammar;
pub mod host_moves;
pub mod host_reparse;
