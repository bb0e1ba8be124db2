//! Grammars from specifications: what is reparsed, relexed or spliced is what
//! comes from scratch.

use incremental_pratt::expr::bench_support::Lcg;
use incremental_pratt::expr::edit::Edit;
use incremental_pratt::generator::emitter::Emitter;
use incremental_pratt::generator::spec::{
    Atoms, Host, HostProd, Infix, Paren, Postfix, Prefix, Spec,
};
use incremental_pratt::runtime::cursor::tokenize;
use incremental_pratt::runtime::document::IncrementalDocument;
use incremental_pratt::runtime::host::parse_program;
use incremental_pratt::runtime::host_reparse::reparse_program;
use incremental_pratt::runtime::incremental::incremental_parse;
use incremental_pratt::runtime::parser::parse;
use incremental_pratt::runtime::relex::relex;
use incremental_pratt::runtime::table::{Table, Token, TokenKind};
use incremental_pratt::runtime::token_store::{TokenSpec, TokenStore};

fn infix(sym: &str, lbp: u32, assoc: &str, class: &str) -> Infix {
    Infix {
        sym: sym.to_string(),
        lbp,
        assoc: assoc.to_string(),
        class: class.to_string(),
    }
}

fn calc() -> Spec {
    Spec {
        name: "calc".to_string(),
        atoms: Atoms { int: true, ident: false },
        paren: Paren { open: "(".to_string(), close: ")".to_string() },
        prefix: vec![Prefix { sym: "-".to_string(), rbp: 80 }],
        postfix: vec![Postfix { sym: "!".to_string(), lbp: 90 }],
        infix: vec![
            infix("+", 50, "left", "assoc"),
            infix("-", 50, "left", "weak"),
            infix("*", 60, "left", "assoc"),
            infix("^", 70, "right", "weak"),
        ],
        host: None,
    }
}

fn c_expr() -> Spec {
    Spec {
        name: "c_expr".to_string(),
        atoms: Atoms { int: true, ident: true },
        paren: Paren { open: "(".to_string(), close: ")".to_string() },
        prefix: vec![
            Prefix { sym: "-".to_string(), rbp: 80 },
            Prefix { sym: "!".to_string(), rbp: 80 },
        ],
        postfix: vec![],
        infix: vec![
            infix("||", 10, "left", "assoc"),
            infix("&&", 20, "left", "assoc"),
            infix("==", 30, "left", "weak"),
            infix("!=", 30, "left", "weak"),
            infix("<", 40, "left", "weak"),
            infix("<=", 40, "left", "weak"),
            infix("+", 50, "left", "assoc"),
            infix("*", 60, "left", "assoc"),
        ],
        host: None,
    }
}

fn stmt_lang() -> Spec {
    let mut spec = calc();
    spec.name = "stmt_lang".to_string();
    spec.host = Some(Host {
        start: "program".to_string(),
        keywords: vec!["let".to_string()],
        prods: vec![
            HostProd { name: "program".to_string(), alts: vec!["stmt*".to_string()] },
            HostProd {
                name: "stmt".to_string(),
                alts: vec![
                    "'let' ident '=' expr ';'".to_string(),
                    "'print' expr ';'".to_string(),
                    "'def' ident block".to_string(),
                    "block".to_string(),
                    "expr ';'".to_string(),
                ],
            },
            HostProd { name: "block".to_string(), alts: vec!["'{' stmt* '}'".to_string()] },
        ],
    });
    spec
}

/// An expression, what it grows by, and single tokens.
fn corpus(spec: &Spec) -> (String, String, Vec<String>) {
    let op = spec.infix[0].sym.clone();
    let grow = format!("{}{}1{}2{}", op, spec.paren.open, op, spec.paren.close);
    let mut pieces = vec!["1".to_string(), "2".to_string(), "7".to_string(), " ".to_string()];
    pieces.push(spec.paren.open.clone());
    pieces.push(spec.paren.close.clone());
    for x in &spec.infix {
        pieces.push(x.sym.clone());
    }
    for x in &spec.prefix {
        pieces.push(x.sym.clone());
    }
    for x in &spec.postfix {
        pieces.push(x.sym.clone());
    }
    if spec.atoms.ident {
        pieces.push("a".to_string());
    }
    ("1".to_string(), grow, pieces)
}

fn structured(spec: &Spec, target: usize) -> String {
    let (mut s, grow, _) = corpus(spec);
    while s.len() < target {
        s.push_str(&grow);
    }
    s
}

fn build(pieces: &[String], n: usize, rng: &mut Lcg) -> String {
    let mut s = String::new();
    for _ in 0..n {
        s.push_str(&pieces[rng.range(pieces.len())]);
    }
    s
}

fn random_edit(len: usize, repl: String, rng: &mut Lcg) -> Edit {
    let a = rng.range(len + 1) as u32;
    let b = rng.range(len + 1) as u32;
    Edit { start: a.min(b), end: a.max(b), replacement: repl }
}

fn fit(t: &Table) {
    assert!(t.has_one_byte_context());
}

#[test]
fn host_recursive_reuse_demo() {
    for spec in [calc(), c_expr(), stmt_lang()] {
        let a = structured(&spec, 20);
        let b = structured(&spec, 30);
        let c = structured(&spec, 20);
        let d = structured(&spec, 20);
        let e = Emitter::new(spec).unwrap();
        let t = e.table();
        let g = &e.host;
        fit(&t);
        assert!(g.is_grounded());
        let src = format!("let x = {a}; {{ let y = {b}; {c}; }} {d};");
        let prog = parse_program(&t, g, &src).expect("program parses");

        let (eos, _eoe) = prog.first_expr_span(&t).expect("has an expression");
        assert_eq!(eos, 7);
        let pos = (src.find(&b).expect("inner expr present")) as u32;
        let orig = &src[pos as usize..pos as usize + 1];
        let repl = if orig == "1" { "2" } else { "1" }.to_string();
        let edit = Edit { start: pos, end: pos + 1, replacement: repl };

        let (inc, new_src, stats) = reparse_program(&t, g, &prog, &src, &edit).expect("reparse ok");
        let fresh = parse_program(&t, g, &new_src).expect("fresh ok");

        assert_eq!(inc.unparse(&t), fresh.unparse(&t), "incremental != fresh");
        assert!(!stats.fell_back, "statement-contained edit should not fall back");
        assert!(
            stats.reuse_depth >= 2,
            "edit two blocks deep should reuse at depth >= 2, got {}",
            stats.reuse_depth
        );
        assert!(stats.stmts_reused > 0, "untouched statements should be reused wholesale");
        assert!(stats.exprs_reused > 0, "expression subtrees should be reused");
    }
}

#[test]
fn host_sample_roundtrip() {
    for spec in [calc(), c_expr(), stmt_lang()] {
        let e = Emitter::new(spec).unwrap();
        assert!(e.can_sample());
        let src = e.sample_program();
        let t = e.table();
        let g = &e.host;
        let prog = parse_program(&t, g, &src).expect("synthesized sample program parses");
        let (eos, _eoe) = prog.first_expr_span(&t).expect("sample has an expression");

        let fresh0 = parse_program(&t, g, &src).unwrap();
        assert_eq!(prog.unparse(&t), fresh0.unparse(&t));

        // The expression starts with the blank before it.
        let pos = eos + 1;
        let orig = &src[pos as usize..pos as usize + 1];
        let repl = if orig == "1" { "2" } else { "b" };
        let edit = Edit { start: pos, end: pos + 1, replacement: repl.to_string() };

        let (inc, new_src, stats) = reparse_program(&t, g, &prog, &src, &edit).expect("reparse ok");
        let fresh = parse_program(&t, g, &new_src).expect("fresh ok");
        assert_eq!(inc.unparse(&t), fresh.unparse(&t), "incremental != fresh on sample");
        assert!(!stats.fell_back, "edit inside an expression should not fall back");
    }
}

#[test]
fn relex_window_is_local() {
    for spec in [calc(), c_expr()] {
        let (seed, grow, _) = corpus(&spec);
        let t = Emitter::new(spec).unwrap().table();
        let mut prev_window = 0;
        for reps in [200usize, 800, 3200] {
            let src: String = std::iter::repeat(grow.as_str()).take(reps).collect::<String>();
            let src = format!("{}{}", seed, src);
            let total = tokenize(&t, &src).len();

            let mid = (src.len() / 2) as u32;
            let edit = Edit {
                start: mid,
                end: mid + 1,
                replacement: src[mid as usize..mid as usize + 1].to_string(),
            };
            let new_src = edit.apply(&src);

            let mut store = TokenStore::from_tokens(&tokenize(&t, &src));
            let window = relex(&t, &mut store, &src, &new_src, &edit);

            assert_eq!(
                store.to_vec(),
                tokenize(&t, &new_src),
                "relex != full tokenize at reps={}",
                reps
            );
            assert!(
                window < 16,
                "relex window {} not local at reps={} (total tokens {})",
                window, reps, total
            );
            if prev_window != 0 {
                assert!(
                    window <= prev_window + 2,
                    "relex window grew with file size: {} -> {}",
                    prev_window, window
                );
            }
            prev_window = window;
        }
    }
}

#[test]
fn random_and_structured_sources() {
    let mut rng = Lcg::new(11);
    for spec in [calc(), c_expr()] {
        let (_, _, pieces) = corpus(&spec);
        let base = structured(&spec, 120);
        let t = Emitter::new(spec).unwrap().table();
        fit(&t);
        let mut compared = 0;
        for i in 0..600 {
            let old_src = if i % 2 == 0 { base.clone() } else { build(&pieces, 9, &mut rng) };
            let n = rng.range(5);
            let repl = build(&pieces, n, &mut rng);
            let edit = random_edit(old_src.len(), repl, &mut rng);
            let Ok(old_tree) = parse(&t, &old_src) else { continue };
            let new_src = edit.apply(&old_src);
            let inc = incremental_parse(&t, &old_tree, &old_src, &edit);
            match parse(&t, &new_src) {
                Ok(fresh) => {
                    let (inc_tree, inc_src, _) = inc.expect("incremental failed");
                    assert_eq!(inc_src, new_src);
                    assert_eq!(inc_tree.unparse_normalized(&t), fresh.unparse_normalized(&t));
                    compared += 1;
                }
                Err(x) => assert_eq!(inc.err(), Some(x)),
            }
        }
        assert!(compared > 20, "only {} sources parsed", compared);
    }
}

#[test]
fn relex_and_document_match_full() {
    let mut rng = Lcg::new(5);
    for spec in [calc(), c_expr()] {
        let (_, _, pieces) = corpus(&spec);
        let t = Emitter::new(spec).unwrap().table();
        for _ in 0..400 {
            let n = rng.range(30);
            let old_src = build(&pieces, n, &mut rng);
            let n = rng.range(5);
            let repl = build(&pieces, n, &mut rng);
            let edit = random_edit(old_src.len(), repl, &mut rng);
            let new_src = edit.apply(&old_src);

            let mut store = TokenStore::from_tokens(&tokenize(&t, &old_src));
            relex(&t, &mut store, &old_src, &new_src, &edit);
            assert_eq!(store.to_vec(), tokenize(&t, &new_src));

            let mut doc = IncrementalDocument::new(&t, &old_src);
            doc.edit(edit.start as usize, edit.end as usize, &edit.replacement);
            assert_eq!(doc.text(), new_src);
            assert_eq!(doc.byte_len(), new_src.len());
            assert_eq!(doc.tokens(), tokenize(&t, &new_src));
        }
    }
}

#[test]
fn relex_at_the_end_of_a_word() {
    let t = Emitter::new(c_expr()).unwrap().table();
    let mut doc = IncrementalDocument::new(&t, "a");
    doc.edit(1, 1, "b");
    assert_eq!(doc.tokens(), tokenize(&t, "ab"));
    assert_eq!(
        doc.tokens(),
        vec![
            Token { kind: TokenKind::Ident, start: 0, end: 2 },
            Token { kind: TokenKind::Eof, start: 2, end: 2 },
        ]
    );
    doc.edit(0, 2, "");
    assert_eq!(doc.text(), "");
    assert_eq!(doc.tokens(), vec![Token { kind: TokenKind::Eof, start: 0, end: 0 }]);
}

#[test]
fn store_matches_reference() {
    let mut rng = Lcg::new(3);
    for _ in 0..60 {
        let mut store = TokenStore::new();
        let mut model: Vec<TokenSpec> = Vec::new();
        for _ in 0..12 {
            let k = rng.range(4);
            let mut new = Vec::new();
            for _ in 0..k {
                new.push(TokenSpec {
                    kind: TokenKind::Eof,
                    gap: rng.range(4) as u32,
                    width: 1 + rng.range(5) as u32,
                });
            }
            let a = rng.range(model.len() + 1);
            let b = rng.range(model.len() + 1);
            let (lo, hi) = (a.min(b), a.max(b));
            store.splice(lo, hi, &new);
            model.splice(lo..hi, new.iter().copied());
            assert_eq!(store.len(), model.len());
            assert_eq!(store.is_empty(), model.is_empty());
        }
        let mut toks = Vec::new();
        let mut off = 0u32;
        for s in &model {
            let start = off + s.gap;
            let end = start + s.width;
            toks.push(Token { kind: s.kind, start, end });
            off = end;
        }
        assert_eq!(store.to_vec(), toks);
        assert_eq!(store.byte_len(), off as u64);
        for byte in 0..=store.byte_len() {
            let want = toks.iter().position(|t| (t.end as u64) > byte).unwrap_or(toks.len());
            assert_eq!(store.index_at_byte(byte), want, "byte {}", byte);
        }
        for i in 0..model.len() {
            assert_eq!(store.get(i), Some(toks[i]));
            assert_eq!(store.spec_at(i), Some(model[i]));
        }
        assert_eq!(store.get(model.len()), None);
    }
}

fn program(spec: &Spec, depth: usize, rng: &mut Lcg) -> String {
    let mut out = String::new();
    for i in 0..1 + rng.range(3) {
        let size = 1 + rng.range(24);
        let x = structured(spec, size);
        match rng.range(4) {
            0 => out.push_str(&format!("let v{} = {}; ", i, x)),
            1 if depth > 0 => {
                let inner = program(spec, depth - 1, rng);
                out.push_str(&format!("{{ {}}} ", inner));
            }
            _ => out.push_str(&format!("{}; ", x)),
        }
    }
    out
}

#[test]
fn host_chains_match_fresh() {
    let mut rng = Lcg::new(17);
    for spec in [calc(), c_expr(), stmt_lang()] {
        let (_, _, mut pieces) = corpus(&spec);
        for x in [";", "{", "}", "let ", "print", "p", "=", "v0"] {
            pieces.push(x.to_string());
        }
        let mut kept = 0;
        for _ in 0..40 {
            let mut src = program(&spec, 2, &mut rng);
            let e = Emitter::new(clone_of(&spec)).unwrap();
            let t = e.table();
            let g = &e.host;
            let mut prog = parse_program(&t, g, &src).expect("program parses");
            for _ in 0..12 {
                let n = rng.range(3);
                let repl = build(&pieces, n, &mut rng);
                let at = rng.range(src.len() + 1);
                let end = (at + rng.range(4)).min(src.len());
                let edit = Edit { start: at as u32, end: end as u32, replacement: repl };
                let new_src = edit.apply(&src);
                let inc = reparse_program(&t, g, &prog, &src, &edit);
                match parse_program(&t, g, &new_src) {
                    Ok(fresh) => {
                        let (p, s, stats) = inc.expect("incremental failed where fresh succeeded");
                        assert_eq!(s, new_src);
                        assert_eq!(p.unparse(&t), fresh.unparse(&t));
                        assert_eq!(p.root.width, fresh.root.width);
                        assert_eq!(p.first_expr_span(&t), fresh.first_expr_span(&t));
                        if !stats.fell_back {
                            kept += 1;
                        }
                        prog = p;
                        src = s;
                    }
                    Err(x) => {
                        assert_eq!(format!("{:?}", inc.err()), format!("{:?}", Some(x)));
                    }
                }
            }
        }
        assert!(kept > 30, "{} reparses kept something", kept);
    }
}

fn clone_of(spec: &Spec) -> Spec {
    match spec.name.as_str() {
        "calc" => calc(),
        "c_expr" => c_expr(),
        _ => stmt_lang(),
    }
}

#[test]
fn a_keyword_that_merges_with_an_expression() {
    let e = Emitter::new(stmt_lang()).unwrap();
    let t = e.table();
    let g = &e.host;
    let src = "print -1;";
    let prog = parse_program(&t, g, src).unwrap();
    let edit = Edit { start: 5, end: 7, replacement: String::new() };
    let new_src = edit.apply(src);
    assert_eq!(new_src, "print1;");
    let inc = reparse_program(&t, g, &prog, src, &edit).map(|r| r.0.unparse(&t));
    let fresh = parse_program(&t, g, &new_src).map(|p| p.unparse(&t));
    assert_eq!(format!("{:?}", inc), format!("{:?}", fresh));
}

#[test]
fn faults_of_programs() {
    let e = Emitter::new(stmt_lang()).unwrap();
    let t = e.table();
    let g = &e.host;
    let fault = |s: &str| format!("{:?}", parse_program(&t, g, s).err().unwrap());
    assert_eq!(fault("let = 1;"), "Expected(\"identifier\", 4)");
    assert_eq!(fault("let print = 1;"), "Expected(\"identifier\", 4)");
    assert_eq!(fault("let x 1;"), "Expected(\"=\", 6)");
    assert_eq!(fault("{ 1; "), "Expected(\"}\", 5)");
    assert_eq!(fault("let x = ;"), "Expr(UnexpectedEof)");
    assert_eq!(fault("def f 1;"), "Expected(\"statement\", 6)");
    assert_eq!(parse_program(&t, g, "").unwrap().unparse(&t), "");
    assert_eq!(
        parse_program(&t, g, "def f { let x = 1+2*3; print x0; }").is_ok(),
        true
    );
}
