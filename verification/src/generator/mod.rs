//! From a grammar specification to the tables and sources of a parser.

pub mod declared;
pub mod defaults;
pub mod emit;
pub mod emitted;
pub mod emitted_host;
pub mod emitter;
pub mod grown;
pub mod host_model;
pub mod named;
pub mod resolve;
pub mod sample;
pub mod spec;
pub mod symbols;
pub mod templates;
pub mod text;
pub mod written;
