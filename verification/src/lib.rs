//! Edit-incremental Pratt parsing, verified.

pub mod ascii;
pub mod certificate;
pub mod expr;
pub mod generator;
pub mod index;
pub mod runtime;
pub mod text;
