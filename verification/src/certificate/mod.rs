//! The reuse predicate and the repair cost algebra on a one-byte-token
//! calculator grammar, small enough to be stated whole.

pub mod incremental;
pub mod lexer;
pub mod parser;
pub mod recovery;
pub mod rules;
