//! A hand-written operator-expression language: lexer, Pratt parser,
//! precedence-bounded incremental reparse, error recovery and evaluation.

pub mod arithmetic;
pub mod assemble;
pub mod ast;
pub mod awaited;
pub mod bench_support;
pub mod cache;
pub mod cache_order;
pub mod cached;
pub mod chain_wb;
pub mod contexts;
pub mod counted;
pub mod edit;
pub mod exchange;
pub mod expand;
pub mod frontier;
pub mod full_parens;
pub mod grammar;
pub mod incremental;
pub mod kept;
pub mod lexer;
pub mod lexical;
pub mod locality;
pub mod meaning;
pub mod measured;
pub mod mended;
pub mod mirror;
pub mod naming;
pub mod op;
pub mod own_text;
pub mod parser;
pub mod placement;
pub mod pratt_core;
pub mod precedence;
pub mod preference;
pub mod read_back;
pub mod recovered;
pub mod recovery;
pub mod region;
pub mod relocate;
pub mod repair;
pub mod replay;
pub mod resume;
pub mod respell;
pub mod reuse;
pub mod roslyn_style;
pub mod semantics_ctx;
pub mod shape;
pub mod spelling;
pub mod splice;
pub mod splice_general;
pub mod subtrees;
pub mod unparse;
pub mod walk;
