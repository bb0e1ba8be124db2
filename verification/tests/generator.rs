//! Specifications: what is wrong with them, and what is made of them.

use incremental_pratt::generator::emitter::Emitter;
use incremental_pratt::generator::resolve::{build_host_model, resolve_host};
use incremental_pratt::generator::spec::{
    Atoms, Host, HostProd, Infix, Paren, Postfix, Prefix, Spec,
};
use incremental_pratt::generator::symbols::{sym_to_variant, symbols_of};
use incremental_pratt::generator::text::split_words;
use incremental_pratt::runtime::host_grammar::Term;
use incremental_pratt::runtime::table::OperatorClass;

fn infix(sym: &str, lbp: u32, assoc: &str, class: &str) -> Infix {
    Infix {
        sym: sym.to_string(),
        lbp,
        assoc: assoc.to_string(),
        class: class.to_string(),
    }
}

fn small() -> Spec {
    Spec {
        name: "small".to_string(),
        atoms: Atoms { int: true, ident: false },
        paren: Paren { open: "(".to_string(), close: ")".to_string() },
        prefix: vec![Prefix { sym: "-".to_string(), rbp: 80 }],
        postfix: vec![],
        infix: vec![infix("+", 10, "left", "assoc"), infix("**", 20, "right", "weak")],
        host: None,
    }
}

fn host(prods: &[(&str, &[&str])]) -> Spec {
    let mut spec = small();
    spec.host = Some(Host {
        start: "program".to_string(),
        keywords: vec![],
        prods: prods
            .iter()
            .map(|(n, alts)| HostProd {
                name: n.to_string(),
                alts: alts.iter().map(|a| a.to_string()).collect(),
            })
            .collect(),
    });
    spec
}

fn fault(spec: Spec) -> String {
    Emitter::new(spec).err().unwrap()
}

#[test]
fn powers_and_classes() {
    assert_eq!(infix("+", 10, "left", "weak").rbp(), 10);
    assert_eq!(infix("^", 10, "right", "weak").rbp(), 9);
    assert_eq!(infix("^", 0, "right", "weak").rbp(), 0);
    for c in ["assoc", "assoc_conflict", "associativity_conflict"] {
        assert_eq!(infix("+", 1, "left", c).class_variant(), "AssociativityConflict");
    }
    assert_eq!(infix("+", 1, "left", "strong").class_variant(), "Strong");
    assert_eq!(infix("+", 1, "left", "other").class_variant(), "Weak");
}

#[test]
fn names_of_kinds() {
    assert_eq!(sym_to_variant("+"), "Plus");
    assert_eq!(sym_to_variant("<="), "LtEq");
    assert_eq!(sym_to_variant("&&"), "AmpAmp");
    assert_eq!(sym_to_variant("(){}[]"), "LParenRParenLBraceRBraceLBracketRBracket");
    assert_eq!(sym_to_variant("-a"), "MinusTok97");
    assert_eq!(sym_to_variant("in"), "Tok105Tok110");
    assert_ne!(sym_to_variant("in"), sym_to_variant("is"));
    assert_eq!(sym_to_variant(""), "");
}

#[test]
fn symbols_in_order() {
    let syms = symbols_of(&small());
    let texts: Vec<&str> = syms.iter().map(|s| s.text.as_str()).collect();
    assert_eq!(texts, vec!["(", ")", "**", "+", "-"]);
    assert!(syms[0].roles.open_paren);
    assert!(syms[1].roles.close_paren);
    let r = syms[2].roles.infix.as_ref().unwrap();
    assert_eq!((r.lbp, r.rbp, r.class), (20, 19, OperatorClass::Weak));
    assert_eq!(syms[4].roles.prefix_rbp, Some(80));
    assert_eq!(syms[4].roles.infix.is_none(), true);
}

#[test]
fn words() {
    assert_eq!(split_words("  'let'\tident\u{3000}x\n"), vec!["'let'", "ident", "x"]);
    assert!(split_words(" \n").is_empty());
}

#[test]
fn tables() {
    let t = Emitter::new(small()).unwrap().table();
    assert_eq!(t.syms.len(), 5);
    assert_eq!(t.syms[2].text, b"**".to_vec());
    assert_eq!((t.open, t.close), (0, 1));
    assert!(t.int && !t.ident);
    assert!(t.has_one_byte_context());
}

#[test]
fn tables_that_do_not_fit() {
    let mut spec = small();
    spec.postfix.push(Postfix { sym: "!".to_string(), lbp: 90 });
    spec.infix.push(infix("!==", 5, "left", "weak"));
    assert!(!Emitter::new(spec).unwrap().table().has_one_byte_context());
}

#[test]
fn faults_of_operators() {
    let mut spec = small();
    spec.postfix.push(Postfix { sym: "+".to_string(), lbp: 90 });
    assert_eq!(fault(spec), "symbol \"+\" declared as both infix and postfix");
    let mut spec = small();
    spec.atoms = Atoms::default();
    assert_eq!(fault(spec), "grammar must enable at least one atom kind (int or ident)");
}

#[test]
fn faults_of_statement_grammars() {
    assert_eq!(fault(host(&[])), "host grammar has no productions");
    assert_eq!(
        fault(host(&[("prog", &["expr"])])),
        "host grammar references undefined production \"program\""
    );
    assert_eq!(
        fault(host(&[("program", &["  "])])),
        "production \"program\" has an empty alternative"
    );
    assert_eq!(
        fault(host(&[("program", &["''"])])),
        "empty literal in production \"program\""
    );
    assert_eq!(
        fault(host(&[("program", &["stmt*"])])),
        "host grammar references undefined production \"stmt\""
    );
    assert_eq!(
        fault(host(&[("program", &["other"])])),
        "host grammar references undefined production \"other\""
    );
    assert_eq!(
        fault(host(&[("program", &["expr '+'"])])),
        "terminator \"+\" in production \"program\" collides with an expression token byte"
    );
    assert_eq!(
        fault(host(&[("program", &["expr 'x1'"])])),
        "terminator \"x1\" in production \"program\" collides with an expression token byte"
    );
    assert_eq!(
        fault(host(&[("program", &["s*"]), ("s", &["expr"])])),
        "expr/repetition in production \"s\" must be followed by a literal terminator"
    );
    assert_eq!(
        fault(host(&[("program", &["expr ident"])])),
        "expr/repetition in production \"program\" must be followed by a literal terminator"
    );
    assert_eq!(
        fault(host(&[("program", &["'a' ident", "'a'"])])),
        "production \"program\" is ambiguous: two alternatives both start with \"a\""
    );
    assert_eq!(
        fault(host(&[("program", &["x", "'a'"]), ("x", &["'b'", "'a' 'b'"])])),
        "production \"program\" is ambiguous: two alternatives both start with \"a\""
    );
    assert_eq!(
        fault(host(&[("program", &["ident ';'", "expr ';'"])])),
        "production \"program\" has 2 alternatives with no leading literal (need <=1 for LL(1) dispatch)"
    );
}

#[test]
fn default_statements() {
    let spec = small();
    let syms = symbols_of(&spec);
    let g = build_host_model(&spec, &syms).unwrap();
    assert_eq!(g.prods.len(), 2);
    assert_eq!(g.start, 0);
    assert_eq!(g.keywords, vec!["let".to_string()]);
    assert_eq!(g.punct_bytes, b";={}".to_vec());
    assert!(matches!(g.prods[0].alts[0].terms[0], Term::Rep(1)));
    assert_eq!(g.prods[1].alts.len(), 3);
    assert!(matches!(&g.prods[1].alts[0].terms[0], Term::Tok(s) if s == "let"));
    assert!(matches!(g.prods[1].alts[0].terms[1], Term::Ident));
    assert!(matches!(g.prods[1].alts[0].terms[3], Term::Expr));
    assert!(matches!(g.prods[1].alts[1].terms[1], Term::Rep(1)));
    assert!(g.is_grounded());
}

#[test]
fn keywords_are_gathered() {
    let spec = host(&[("program", &["'let' ident 'in' expr ';'"])]);
    let syms = symbols_of(&spec);
    let g = resolve_host(&spec, &syms, spec.host.as_ref().unwrap()).unwrap();
    assert_eq!(g.keywords, vec!["let".to_string(), "in".to_string()]);
    assert_eq!(g.punct_bytes, b";".to_vec());
}

#[test]
fn grammars_that_do_not_end() {
    // A production that leads to itself, and a repetition of what can be empty.
    let spec = host(&[("program", &["a"]), ("a", &["program ';'"])]);
    let syms = symbols_of(&spec);
    let g = build_host_model(&spec, &syms).unwrap();
    assert!(!g.is_grounded());
    let spec = host(&[("program", &["a*"]), ("a", &["b* ';'"]), ("b", &["c* ';'"]), ("c", &["'c'"])]);
    let syms = symbols_of(&spec);
    assert!(build_host_model(&spec, &syms).unwrap().is_grounded());
}

#[test]
fn display_source() {
    let e = Emitter::new(small()).unwrap();
    assert_eq!(
        e.gen_grammar_text(),
        "//! GENERATED display text for grammar `small`.\n\n\
         use crate::lexer::TokenKind;\n\n\
         pub fn token_text(t: TokenKind) -> &'static str {\n\
         \x20   match t {\n\
         \x20       TokenKind::Int => \"<int>\",\n\
         \x20       TokenKind::LParen => \"(\",\n\
         \x20       TokenKind::RParen => \")\",\n\
         \x20       TokenKind::StarStar => \"**\",\n\
         \x20       TokenKind::Plus => \"+\",\n\
         \x20       TokenKind::Minus => \"-\",\n\
         \x20       TokenKind::Eof => \"<eof>\",\n\
         \x20   }\n}\n"
    );
}

#[test]
fn manifest_sources() {
    let e = Emitter::new(small()).unwrap();
    let m = e.gen_cargo_toml();
    assert!(m.starts_with("# GENERATED by incremental-pratt-gen from grammars/small.toml\n[package]\nname = \"ip_small\"\n"));
    assert!(m.ends_with("unexpected_cfgs = { level = \"allow\", check-cfg = ['cfg(kani)'] }\n"));
    let c = e.gen_creusot_cargo_toml();
    assert!(c.contains("name = \"ip_small_creusot\"\n"));
    assert!(c.contains("rev = \"34e1aecf46060e9479b803a85476022eeeed4728\" }"));
}

#[test]
fn operator_source() {
    let e = Emitter::new(small()).unwrap();
    let s = e.gen_op();
    assert!(s.contains("        TokenKind::StarStar => 20,\n        TokenKind::Plus => 10,\n        _ => LBP_NONE,\n"));
    assert!(s.contains("        TokenKind::StarStar => 19,\n        TokenKind::Plus => 10,\n        _ => lbp(kind),\n"));
    assert!(s.contains("        TokenKind::Minus => 80,\n        _ => 0,\n"));
    assert!(s.contains("        TokenKind::Plus => OperatorClass::AssociativityConflict,\n"));
    assert!(s.contains("is_atom(kind: TokenKind) -> bool { matches!(kind, TokenKind::Int) }"));
    assert!(s.contains("is_postfix_op(kind: TokenKind) -> bool { matches!(kind, _ if false) }"));
    assert!(s.contains("matches!(kind, TokenKind::LParen)"));
    // The longer symbol first.
    let long = s.find("if matches_at(src, pos, b\"**\") { return 20; }").unwrap();
    let short = s.find("if matches_at(src, pos, b\"+\") { return 10; }").unwrap();
    assert!(long < short);
}

#[test]
fn lexer_source() {
    let e = Emitter::new(small()).unwrap();
    let s = e.gen_lexer();
    assert!(s.contains("pub enum TokenKind {\n    Int,\n    LParen,\n    RParen,\n    StarStar,\n    Plus,\n    Minus,\n    Eof,\n}"));
    assert!(s.contains("if matches_at(src, i, b\"**\") { return Token { kind: TokenKind::StarStar, start: i as u32, end: (i + 2) as u32 }; }\n"));
    assert!(s.contains("b.is_ascii_digit()"));
    assert!(!s.contains("TokenKind::Ident"));
    assert!(s.contains("pub const PIECES: &[&str] = &[\"1\", \"2\", \"7\", \"(\", \")\", \"**\", \"+\", \"-\", \" \"];\n"));
    assert!(s.contains("pub const GROW: &str = \"**(1**2)\";\n"));
    assert!(s.ends_with("pub const PCLOSE: &str = \")\";\n"));
}

#[test]
fn statement_source() {
    let e = Emitter::new(small()).unwrap();
    assert_eq!(e.sample_program(), "let a = 1 ; { let a = 1 ; } 1 ; ");
    let s = e.gen_host_grammar();
    assert!(s.contains("    start: 0,\n    keywords: &[\"let\"],\n    punct_bytes: &[59u8, 61u8, 123u8, 125u8],\n"));
    assert!(s.contains("    Production { name: \"program\", alts: &[\n        Alt { terms: &[Term::Rep(1)] },\n    ] },\n"));
    assert!(s.contains("        Alt { terms: &[Term::Tok(\"let\"), Term::Ident, Term::Tok(\"=\"), Term::Expr, Term::Tok(\";\")] },\n"));
    assert!(s.ends_with("pub const SAMPLE_PROGRAM: &str = \"let a = 1 ; { let a = 1 ; } 1 ; \";\n"));
}

#[test]
fn certificate_source() {
    let mut spec = small();
    assert!(!Emitter::new(small()).unwrap().all_single_byte());
    spec.infix[1].sym = "*".to_string();
    let e = Emitter::new(spec).unwrap();
    assert!(e.all_single_byte());
    let s = e.gen_creusot_lib("a /*@GRAMMAR@*/ b /*@LBP_OF_BYTE_LOGIC@*/ c /*@NEXT_TOKEN_LBP_OP@*/ /*@GRAMMAR@*/");
    assert_eq!(
        s,
        "a small b if b == 42u8 { 20 } else if b == 43u8 { 10 } else { 0 } c \
         42u8 => return 20,\n            43u8 => return 10,\n             small"
    );
}

#[test]
fn samples_that_do_not_end() {
    let spec = host(&[("program", &["'a' program"])]);
    assert!(!Emitter::new(spec).unwrap().can_sample());
    let spec = host(&[("program", &["x ';'"]), ("x", &["'a' x", "'b'"])]);
    let e = Emitter::new(spec).unwrap();
    assert!(e.can_sample());
    assert_eq!(e.sample_program(), "b ; ");
}
