//! Texts that the sources of a parser are put together from.

use vstd::prelude::*;

verus! {

pub const MANIFEST_1: &'static str = "# GENERATED by incremental-pratt-gen from grammars/";

pub const MANIFEST_2: &'static str = ".toml\n[package]\nname = \"ip_";

pub const MANIFEST_3: &'static str = "\"\n\
    version = \"0.1.0\"\n\
    edition = \"2021\"\n\
    \n\
    [lib]\n\
    name = \"ipgrammar\"\n\
    path = \"src/lib.rs\"\n\
    \n\
    [[bin]]\n\
    name = \"bench\"\n\
    path = \"src/bin/bench.rs\"\n\
    \n\
    [dependencies]\n\
    rustc-hash = \"2\"\n\
    ropey = \"1\"\n\
    \n\
    [dev-dependencies]\n\
    proptest = \"1\"\n\
    \n\
    [profile.release]\n\
    debug = true\n\
    \n\
    [lints.rust]\n\
    unexpected_cfgs = { level = \"allow\", check-cfg = ['cfg(kani)'] }\n";

pub const CERTIFICATE_MANIFEST_1: &'static str = "# GENERATED Creusot certificate crate for grammar `";

pub const CERTIFICATE_MANIFEST_2: &'static str = "`.\n\
    # Verify with: cargo creusot   (expects `Proved (N files)`)\n\
    [package]\n\
    name = \"ip_";

pub const CERTIFICATE_MANIFEST_3: &'static str = "_creusot\"\n\
    version = \"0.1.0\"\n\
    edition = \"2021\"\n\
    \n\
    [lib]\n\
    name = \"ipgrammar_creusot\"\n\
    path = \"src/lib.rs\"\n\
    \n\
    [dependencies]\n\
    creusot-std = { git = \"https://github.com/creusot-rs/creusot\", rev = \"";

pub const CERTIFICATE_MANIFEST_4: &'static str = "\" }\n\
    \n\
    [lints.rust]\n\
    unexpected_cfgs = { level = \"allow\", check-cfg = ['cfg(creusot)'] }\n";

pub const LEXER_1: &'static str = "//! GENERATED lexer for grammar `";

pub const LEXER_2: &'static str = "`.\n\
    //!\n\
    //! `lex_token` returns the first token at or after a byte offset,\n\
    //! skipping whitespace and unknown bytes (longest-match on operators).\n\
    //! The parser pulls tokens on demand via `crate::cursor::Lexer`, so a\n\
    //! reused subtree's interior is never lexed.\n\
    \n\
    #[derive(Debug, Clone, Copy, PartialEq, Eq, Hash)]\n";

pub const KINDS_HEAD: &'static str = "pub enum TokenKind {\n";

pub const KINDS_TAIL: &'static str = "    Eof,\n}\n";

pub const LEXER_3: &'static str = "\n\
    #[derive(Debug, Clone, Copy, PartialEq, Eq)]\n\
    pub struct Token {\n\
    \x20   pub kind: TokenKind,\n\
    \x20   pub start: u32,\n\
    \x20   pub end: u32,\n\
    }\n\
    \n\
    impl Token {\n\
    \x20   pub fn text<'a>(&self, src: &'a str) -> &'a str {\n\
    \x20       &src[self.start as usize..self.end as usize]\n\
    \x20   }\n\
    }\n\
    \n\
    use crate::cursor::ByteSource;\n\
    \n\
    fn matches_at<B: ByteSource + ?Sized>(src: &B, i: usize, prefix: &[u8]) -> bool {\n\
    \x20   if i + prefix.len() > src.byte_len() { return false; }\n\
    \x20   let mut k = 0;\n\
    \x20   while k < prefix.len() { if src.byte_at(i + k) != prefix[k] { return false; } k += 1; }\n\
    \x20   true\n\
    }\n\
    \n\
    /// First token at or after byte `at`; `Eof` at end of input.\n\
    /// Generic over the byte source so it serves both a `&[u8]` slice\n\
    /// (parser) and a rope (incremental document) unchanged.\n";

pub const LEX_HEAD: &'static str = "pub fn lex_token<B: ByteSource + ?Sized>(src: &B, at: usize) -> Token {\n    let mut i = at;\n    loop {\n        while i < src.byte_len() && matches!(src.byte_at(i), b' ' | b'\\t' | b'\\n' | b'\\r') { i += 1; }\n        if i >= src.byte_len() { let n = src.byte_len() as u32; return Token { kind: TokenKind::Eof, start: n, end: n }; }\n        let b = src.byte_at(i);\n";

pub const LEX_TAIL: &'static str = "        // Unknown byte: skip and keep scanning.\n        i += 1;\n    }\n}\n";

pub const LEXER_4: &'static str = "\n\
    /// Corpus for the soundness oracle and bench (single-token pieces).\n";

pub const PIECES_HEAD: &'static str = "pub const PIECES: &[&str] = &[";

pub const LEXER_5: &'static str = "];\n\
    /// A minimal valid expression and a growth suffix that keeps it valid.\n\
    pub const SEED_EXPR: &str = ";

pub const LEXER_6: &'static str = ";\npub const GROW: &str = ";

pub const LEXER_7: &'static str = ";\n\
    /// Building blocks for a balanced nested bench source.\n\
    pub const ATOM: &str = ";

pub const LEXER_8: &'static str = ";\npub const INFIX: &str = ";

pub const LEXER_9: &'static str = ";\npub const POPEN: &str = ";

pub const LEXER_10: &'static str = ";\npub const PCLOSE: &str = ";

pub const LEXER_11: &'static str = ";\n";

pub const LEXER_ARM_1: &'static str = "            if matches_at(src, i, ";

pub const LEXER_ARM_2: &'static str = ") { return Token { kind: TokenKind::";

pub const LEXER_ARM_3: &'static str = ", start: i as u32, end: (i + ";

pub const LEXER_ARM_4: &'static str = ") as u32 }; }\n";

pub const OPERATORS_1: &'static str = "//! GENERATED operator tables for grammar `";

pub const OPERATORS_2: &'static str = "`.\n\
    \n\
    use crate::lexer::TokenKind;\n\
    \n";

pub const FLOORS: &'static str = "pub const MIN_PREC: u32 = 0;\n\
    pub const LBP_NONE: u32 = 0;\n";

pub const OPERATORS_3: &'static str = "\n\
    #[derive(Debug, Clone, Copy, PartialEq, Eq)]\n\
    pub enum OperatorClass { Strong, Weak, AssociativityConflict }\n\
    \n\
    /// Left-binding power (infix + postfix operators); 0 otherwise.\n";

pub const LBP_HEAD: &'static str = "pub fn lbp(kind: TokenKind) -> u32 {\n    match kind {\n";

pub const LBP_TAIL: &'static str = "        _ => LBP_NONE,\n    }\n}\n";

pub const OPERATORS_4: &'static str = "\n\
    /// Right-binding power for infix operators (min_prec of the right operand).\n";

pub const RBP_HEAD: &'static str = "pub fn rbp(kind: TokenKind) -> u32 {\n    match kind {\n";

pub const RBP_TAIL: &'static str = "        _ => lbp(kind),\n    }\n}\n";

pub const OPERATORS_5: &'static str = "\n\
    /// min_prec passed to a prefix operator's operand parse.\n";

pub const PREFIX_HEAD: &'static str = "pub fn prefix_rbp(kind: TokenKind) -> u32 {\n    match kind {\n";

pub const PREFIX_TAIL: &'static str = "        _ => 0,\n    }\n}\n";

pub const OPERATORS_6: &'static str = "\n\
    /// AOPP conflict class of an infix operator.\n";

pub const CLASS_HEAD: &'static str = "pub fn operator_class(kind: TokenKind) -> OperatorClass {\n    match kind {\n";

pub const CLASS_TAIL: &'static str = "        _ => OperatorClass::Strong,\n    }\n}\n";

pub const OPERATORS_7: &'static str = "\n";

pub const ATOM_HEAD: &'static str = "pub fn is_atom(kind: TokenKind) -> bool { matches!(kind, ";

pub const TEST_TAIL: &'static str = ") }\n";

pub const PREFIX_TEST_HEAD: &'static str = "pub fn is_prefix_op(kind: TokenKind) -> bool { matches!(kind, ";

pub const POSTFIX_TEST_HEAD: &'static str = "pub fn is_postfix_op(kind: TokenKind) -> bool { matches!(kind, ";

pub const OPEN_HEAD: &'static str = "pub fn is_open_paren(kind: TokenKind) -> bool { matches!(kind, TokenKind::";

pub const CLOSE_HEAD: &'static str = "pub fn close_paren_kind() -> TokenKind { TokenKind::";

pub const CLOSE_TAIL: &'static str = " }\n";

pub const OPERATORS_8: &'static str = "pub fn is_associativity_conflict(kind: TokenKind) -> bool {\n\
    \x20   matches!(operator_class(kind), OperatorClass::AssociativityConflict)\n\
    }\n\
    \n\
    fn matches_at(src: &[u8], i: usize, prefix: &[u8]) -> bool {\n\
    \x20   src.len() >= i + prefix.len() && &src[i..i + prefix.len()] == prefix\n\
    }\n\
    \n\
    /// Left-binding power of the first non-whitespace token at or after\n\
    /// `pos` in `src` (byte level; for the verification harness).\n";

pub const POWER_HEAD: &'static str = "pub fn next_token_lbp(src: &[u8], mut pos: usize) -> u32 {\n    while pos < src.len() && matches!(src[pos], b' ' | b'\\t' | b'\\n' | b'\\r') { pos += 1; }\n    if pos >= src.len() { return LBP_NONE; }\n";

pub const POWER_TAIL: &'static str = "    LBP_NONE\n}\n";

pub const POWER_ARM_1: &'static str = "    if matches_at(src, pos, ";

pub const POWER_ARM_2: &'static str = ") { return ";

pub const POWER_ARM_3: &'static str = "; }\n";

pub const HOST_1: &'static str = "//! GENERATED statement grammar for `";

pub const HOST_2: &'static str = "`.\n\
    //!\n\
    //! Consumed by the grammar-independent `crate::host` interpreter +\n\
    //! incremental-reuse engine. Only this table is grammar-specific.\n\
    \n\
    use crate::host::{Alt, Grammar, Production, Term};\n\
    \n";

pub const GRAMMAR_HEAD: &'static str = "pub const GRAMMAR: Grammar = Grammar {\n    start: ";

pub const HOST_3: &'static str = ",\n    keywords: &[";

pub const HOST_4: &'static str = "],\n    punct_bytes: &[";

pub const HOST_5: &'static str = "],\n    prods: &[\n";

pub const GRAMMAR_TAIL: &'static str = "    ],\n};\n";

pub const HOST_6: &'static str = "\n\
    /// A valid program covering every statement alternative, for the\n\
    /// generic host round-trip oracle.\n";

pub const SAMPLE_HEAD: &'static str = "pub const SAMPLE_PROGRAM: &str = ";

pub const HOST_7: &'static str = ";\n";

pub const DISPLAY_1: &'static str = "//! GENERATED display text for grammar `";

pub const DISPLAY_2: &'static str = "`.\n\
    \n\
    use crate::lexer::TokenKind;\n\
    \n";

pub const TEXT_HEAD: &'static str = "pub fn token_text(t: TokenKind) -> &'static str {\n    match t {\n";

pub const TEXT_TAIL: &'static str = "        TokenKind::Eof => \"<eof>\",\n    }\n}\n";

pub const LEXER_INT: &'static str = "            if b.is_ascii_digit() {\n\
    \x20               let mut j = i + 1;\n\
    \x20               while j < src.byte_len() && src.byte_at(j).is_ascii_digit() { j += 1; }\n\
    \x20               return Token { kind: TokenKind::Int, start: i as u32, end: j as u32 };\n\
    \x20           }\n";

pub const LEXER_IDENT: &'static str = "            if b == b'_' || b.is_ascii_alphabetic() {\n\
    \x20               let mut j = i + 1;\n\
    \x20               while j < src.byte_len() && (src.byte_at(j) == b'_' || src.byte_at(j).is_ascii_alphanumeric()) { j += 1; }\n\
    \x20               return Token { kind: TokenKind::Ident, start: i as u32, end: j as u32 };\n\
    \x20           }\n";

pub const CREUSOT_REV: &'static str = "34e1aecf46060e9479b803a85476022eeeed4728";

} // verus!
