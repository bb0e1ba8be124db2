//! What holds of all inputs, on some.

use std::sync::Arc;

use incremental_pratt::certificate::incremental as certified;
use incremental_pratt::certificate::lexer::{lex, next_token_lbp, Token};
use incremental_pratt::certificate::parser::batch_parse;
use incremental_pratt::certificate::recovery as costs;
use incremental_pratt::expr::ast::{IdSource, Node, NodeKind};
use incremental_pratt::expr::bench_support::{
    clustered_offset, gen_base_source, gen_edit, gen_expr, make_edit, pick_edit_kind, EditKind, Lcg,
    Style,
};
use incremental_pratt::expr::cache::ReuseCache;
use incremental_pratt::expr::edit::Edit;
use incremental_pratt::expr::incremental::{
    incremental_parse, incremental_parse_with_cache, incremental_parse_with_cache_recovering,
};
use incremental_pratt::expr::lexer::{tokenize, TokenKind};
use incremental_pratt::expr::parser::{parse, parse_with_ids, ParseError};
use incremental_pratt::expr::recovery::{
    global_optimal_repair, global_optimal_repair_bounded, local_optimal_repair,
    local_optimal_repair_bounded, recover_parse,
};
use incremental_pratt::expr::repair::{Repair, RepairCosts};
use incremental_pratt::expr::roslyn_style::roslyn_style_parse;
use incremental_pratt::expr::semantics_ctx::{eval_ctx_fresh, ContextEvaluator, Env};
use incremental_pratt::generator::emitter::Emitter;
use incremental_pratt::generator::spec::{Atoms, Infix, Paren, Postfix, Prefix, Spec};
use incremental_pratt::runtime::incremental as table_reuse;
use incremental_pratt::runtime::parser as table;
use incremental_pratt::runtime::pratt_core::ReparseStats;
use incremental_pratt::runtime::table::Table;

/// Every expression reparsed, by every way of reusing, is the one parsed from
/// scratch.
#[test]
fn reparse_matches_fresh() {
    let mut rng = Lcg::new(42);
    let mut compared = 0;
    for i in 0..300u64 {
        let size = 8 + rng.range(120);
        let style = match i % 3 {
            0 => Style::Full,
            1 => Style::Core,
            _ => Style::Source,
        };
        let src = gen_expr(style, size, Lcg::new(i));
        let mut ids = IdSource::new();
        let Ok(old) = parse_with_ids(&src, &mut ids) else { continue };
        let edit = gen_edit(&src, Lcg::new(1000 + i));
        let new_src = edit.apply(&src);
        let plain = incremental_parse(&old, &src, &edit);
        let roslyn = roslyn_style_parse(&old, &src, &edit, 1);
        let spliced =
            incremental_parse_with_cache(&ReuseCache::build_spliced(&old, &src), &src, &edit);
        match parse(&new_src) {
            Ok(fresh) => {
                compared += 1;
                let (n, s, _) = plain.unwrap();
                assert_eq!(s, new_src);
                assert_eq!(n, fresh);
                assert_eq!(n.unparse(), fresh.unparse());
                assert_eq!(roslyn.unwrap().0, fresh);
                assert_eq!(spliced.unwrap().0.unparse_normalized(), fresh.unparse_normalized());
            }
            Err(x) => {
                assert_eq!(plain.err(), Some(x));
                assert_eq!(roslyn.err(), Some(x));
                assert_eq!(spliced.err(), Some(x));
            }
        }
    }
    assert!(compared > 20, "{} compared", compared);
}

/// Edits of a typist.
#[test]
fn typed_edits_match_fresh() {
    let mut rng = Lcg::new(7);
    let mut src = gen_base_source(200, Lcg::new(9));
    let mut tree = parse(&src).unwrap();
    let mut cursor = src.len() / 2;
    let mut kept = 0;
    for _ in 0..200 {
        let kind = pick_edit_kind(&mut rng);
        let step = clustered_offset(&mut rng, 20);
        let at = (cursor as i64 + step).max(0).min(src.len() as i64) as usize;
        let Some((edit, next)) = make_edit(&src, at, kind, &mut rng) else { continue };
        let new_src = edit.apply(&src);
        let r = incremental_parse(&tree, &src, &edit);
        match parse(&new_src) {
            Ok(fresh) => {
                let (n, _, _) = r.unwrap();
                assert_eq!(n.unparse(), fresh.unparse());
                tree = n;
                src = new_src;
                cursor = next.min(src.len());
                kept += 1;
            }
            Err(x) => assert_eq!(r.err(), Some(x)),
        }
    }
    assert!(kept > 10, "{} kept", kept);
    assert!(make_edit("", 0, EditKind::DeleteChar, &mut rng).is_none());
    assert!(make_edit("", 0, EditKind::CursorJump, &mut rng).is_none());
    let (first, at) = make_edit("", 0, EditKind::InsertChar, &mut rng).unwrap();
    assert_eq!((first.start, first.end, first.replacement.as_str(), at), (0, 0, "a", 1));
}

#[test]
fn errors_of_expressions() {
    assert_eq!(parse("").err(), Some(ParseError::UnexpectedEof));
    assert_eq!(parse("a +").err(), Some(ParseError::UnexpectedEof));
    assert_eq!(
        parse("a + * b").err(),
        Some(ParseError::UnexpectedToken { kind: TokenKind::Star, at: 4 })
    );
    assert_eq!(parse("(a").err(), Some(ParseError::MissingRParen { at: 2 }));
    assert_eq!(parse("a b").err(), Some(ParseError::TrailingTokens { at: 2 }));
    assert!(parse("a ? b").is_err());
    assert!(parse("f(a").is_err());
    assert!(parse("a[b").is_err());
    assert!(parse("a.1").is_err());
}

#[test]
fn recovery_keeps_what_parses() {
    for (src, cost) in [("a + b", 0), ("a +", 1), ("f(a, b", 1), ("(a", 1), ("a ? b : ", 1)] {
        let g = global_optimal_repair(src);
        let l = local_optimal_repair(src);
        assert_eq!(g.cost, cost, "{}", src);
        assert_eq!(l.result.cost, cost, "{}", src);
        assert_eq!(RepairCosts::default().total(&g.repairs), cost);
        let (tree, repairs) = recover_parse(src);
        assert_eq!(tree.unparse(), g.tree.unparse());
        assert_eq!(repairs, g.repairs);
    }
    let c = RepairCosts::default();
    assert_eq!(c.cost(&Repair::Delete { at: 0 }), c.delete);
    assert_eq!(c.total(&[]), 0);
}

#[test]
fn recovering_after_a_break() {
    let src = "(a + b) * c";
    let tree = parse(src).unwrap();
    let cache = ReuseCache::build(&tree, src);
    let edit = Edit { start: 3, end: 4, replacement: String::new() };
    let r = incremental_parse_with_cache_recovering(&cache, src, &edit);
    assert_eq!(r.new_src, "(a  b) * c");
    assert_eq!(r.repairs.len(), 1);
}

/// A change of one binding is seen, and only by what reads it.
#[test]
fn bindings_are_seen() {
    let mut ids = IdSource::new();
    let t = parse_with_ids("(a + 1) * (b + 2)", &mut ids).unwrap();
    let env = |a: i64, b: i64| {
        let mut e = Env::new();
        e.insert("a".to_string(), a);
        e.insert("b".to_string(), b);
        e
    };
    let mut ev = ContextEvaluator::new();
    assert_eq!(ev.eval(&t, &env(1, 1)), 6);
    assert_eq!(ev.eval(&t, &env(1, 1)), 6);
    assert_eq!(ev.recomputed, 0);
    assert_eq!(ev.eval(&t, &env(4, 1)), 15);
    assert!(ev.reused >= 1);
    assert_eq!(eval_ctx_fresh(&t, &env(4, 1)), 15);
    assert_eq!(eval_ctx_fresh(&t, &Env::new()), 2);
}

#[test]
fn equal_trees() {
    let a = parse("a + b").unwrap();
    let b = parse("a + b").unwrap();
    let c = parse("a + c").unwrap();
    assert!(a.same(&b));
    assert!(!a.same(&c));
    assert_eq!(a.count(), 3);
    assert_eq!(Node::atom("x", 1).unparse(), "x");
    assert!(matches!(Node::missing().kind, NodeKind::Missing));
    let _: Arc<Node> = a;
}

#[test]
fn spans_of_tokens() {
    let toks = tokenize("ab <= 12");
    assert_eq!(toks[1].kind, TokenKind::LtEq);
    assert_eq!(toks[2].text("ab <= 12"), "12");
    assert_eq!((toks[3].start, toks[3].end), (8, 8));
    // Bytes that start no token are skipped.
    assert_eq!(tokenize("a @ b").len(), 3);
}

#[test]
fn mapped_places() {
    let e = Edit { start: 2, end: 4, replacement: "xyz".to_string() };
    assert_eq!(e.map_old_to_new(1), Some(1));
    assert_eq!(e.map_old_to_new(2), None);
    assert_eq!(e.map_old_to_new(4), Some(5));
}

// ---- The calculator ----------------------------------------------------

#[test]
fn calculator_costs() {
    assert_eq!(costs::add(2, 3), 5);
    assert_eq!(costs::add(u32::MAX, 3), costs::INFINITY);
    assert_eq!(costs::add(costs::INFINITY, 1), 2147483647);
    assert_eq!(costs::min(2, 3), 2);
    assert_eq!(costs::add(1, costs::min(2, 3)), costs::min(costs::add(1, 2), costs::add(1, 3)));
    assert_eq!(costs::total(&[]), 0);
}

#[test]
fn calculator_reuse() {
    let src = b"1+2*3";
    let t = batch_parse(src).unwrap();
    let edit = certified::Edit { start: 0, removed: 1, added: 1 };
    assert_eq!(edit.old_range(), (0, 1));
    assert_eq!(edit.translate_to_new(1), Some(1));
    assert_eq!(edit.translate_to_new(0), None);
    assert_eq!(next_token_lbp(src, 1), Token::Plus.lbp().unwrap());
    let new = b"4+2*3";
    // `2*3` stands after the edit and binds tighter than what asks for it.
    let right = t.nodes.iter().find(|n| n.start == 2 && n.end == 5).unwrap();
    assert!(certified::reuse_predicate(right, right.stop_lbp, &edit, src, new));
    assert!(!certified::reuse_predicate(right, right.m_spine, &edit, src, new));
    let again = certified::reparse(&t, &edit, new).unwrap();
    assert_eq!(again.nodes.len(), batch_parse(new).unwrap().nodes.len());
    assert_eq!(lex(b"").len(), 1);
    assert!(batch_parse(b"1+").is_none());
}

#[test]
fn local_repair_costs_the_global_one() {
    // One repair is enough: the region's optimum is the global one.
    for src in ["(1 + )", "a[1 +]", "f(1 +)", "1 + * 2"] {
        let local = local_optimal_repair_bounded(src, 3);
        let global = global_optimal_repair_bounded(src, 3);
        assert_eq!((local.result.cost, global.cost), (1, 1), "{src}");
    }
    // No region is left: the search is the global one.
    let local = local_optimal_repair_bounded(") )", 3);
    assert!(local.escalated_to_global);
    assert_eq!(local.result.cost, global_optimal_repair_bounded(") )", 3).cost);
    // Two repairs inside the brackets, or one callee before them: the search
    // leaves the region.
    let local = local_optimal_repair_bounded("(a, b, c)", 3);
    assert_eq!((local.region, local.result.cost), (None, 1));
    assert!(local.escalated_to_global);
    assert_eq!(global_optimal_repair_bounded("(a, b, c)", 3).cost, 1);
    let src = "f(a, b, c)";
    let cache = ReuseCache::build(&parse(src).unwrap(), src);
    let edit = Edit { start: 0, end: 1, replacement: String::new() };
    let r = incremental_parse_with_cache_recovering(&cache, src, &edit);
    assert_eq!(r.new_src, "(a, b, c)");
    assert_eq!(RepairCosts::default().total(&r.repairs), 1);
    // Repairs are made exactly where the source does not parse.
    for src in ["", "1", "1 +", "(a)", ")"] {
        assert_eq!(recover_parse(src).1.is_empty(), parse(src).is_ok(), "{src}");
    }
}

/// Of several cheapest repairs the preferred one is found: fewest deletions,
/// then insertions first, then the earliest place, then the token kind.
#[test]
fn preferred_repairs() {
    let insert = |at: usize, tok: TokenKind| vec![Repair::Insert { at, tok }];
    for (src, repairs) in [
        ("a +", insert(2, TokenKind::Int)),
        ("1 2", insert(1, TokenKind::Plus)),
        ("(1 + ) + 2", insert(3, TokenKind::Int)),
    ] {
        assert_eq!(global_optimal_repair(src).repairs, repairs, "{}", src);
        assert_eq!(local_optimal_repair(src).result.repairs, repairs, "{}", src);
        assert_eq!(recover_parse(src).1, repairs, "{}", src);
    }
}

/// Chains are split in halves, the left one longer by at most one operand,
/// however they came about.
#[test]
fn chains_are_halved() {
    let halved = "(((a + b) + c) + (d + e))";
    let src = "a + b + c + d + e";
    assert_eq!(parse(src).unwrap().unparse(), halved);
    let old = "a + b + c + d";
    let edit = Edit { start: 13, end: 13, replacement: " + e".to_string() };
    let (again, text, _) = incremental_parse(&parse(old).unwrap(), old, &edit).unwrap();
    assert_eq!((text.as_str(), again.unparse().as_str()), (src, halved));

    let t = sums(vec![], vec![], 10, 20);
    assert_eq!(table::parse(&t, src).unwrap().unparse(&t), halved);
    assert_eq!(table::parse(&t, "a - b - c").unwrap().unparse(&t), "((a - b) - c)");
}

/// Sums and differences, with the given other operators.
fn sums(prefix: Vec<Prefix>, postfix: Vec<Postfix>, plus: u32, minus: u32) -> Table {
    let infix = |sym: &str, lbp: u32, class: &str| Infix {
        sym: sym.to_string(),
        lbp,
        assoc: "left".to_string(),
        class: class.to_string(),
    };
    let spec = Spec {
        name: "sums".to_string(),
        atoms: Atoms { int: true, ident: true },
        paren: Paren { open: "(".to_string(), close: ")".to_string() },
        prefix,
        postfix,
        infix: vec![infix("+", plus, "assoc"), infix("-", minus, "weak")],
        host: None,
    };
    Emitter::new(spec).unwrap().table()
}

/// A postfix operator that binds looser than the chain it stands in: the chain
/// says so, and is not reused where only tighter operators are asked for.
#[test]
fn loose_postfix_in_a_chain() {
    let prefix = vec![Prefix { sym: "~".to_string(), rbp: 30 }];
    let postfix = vec![Postfix { sym: "!".to_string(), lbp: 10 }];
    let t = sums(prefix, postfix, 50, 20);
    assert!(t.has_one_byte_context());
    let src = " a + b ! + c - d";
    let old = table::parse(&t, src).unwrap();
    assert_eq!(old.m_spine, 10);
    for (start, end, replacement) in [(0, 0, "~"), (1, 2, "e"), (11, 12, "e + f"), (15, 16, "a !")] {
        let edit = Edit { start, end, replacement: replacement.to_string() };
        let (again, text, _) = table_reuse::incremental_parse(&t, &old, src, &edit).unwrap();
        let fresh = table::parse(&t, &text).unwrap();
        assert_eq!(again.unparse_normalized(&t), fresh.unparse_normalized(&t), "{text}");
    }
}

/// What a reparse counts.
#[test]
fn reparse_counts() {
    let t = sums(vec![], vec![], 10, 20);
    let src = "(a + b) - c";
    let old = table::parse(&t, src).unwrap();
    let edit = Edit { start: 10, end: 11, replacement: "d".to_string() };
    let (again, text, stats) = table_reuse::incremental_parse(&t, &old, src, &edit).unwrap();
    assert_eq!((text.as_str(), again.unparse(&t).as_str()), ("(a + b) - d", "((a + b) - d)"));
    let counted = ReparseStats {
        nodes_reused: 3,
        nodes_parsed: 3,
        reuse_attempts: 3,
        reuse_rejected_precedence: 1,
        reuse_rejected_changed: 1,
        tokens_lexed: 6,
    };
    assert_eq!(stats, counted);
}

/// With no token of lookahead a reparse is what parsing from scratch gives.
#[test]
fn no_lookahead() {
    // In the second, the bytes next to `a + b` stay and what follows does not.
    for (src, at, replacement) in [("a + b", 5, " * c"), ("(a + b )", 7, "* c")] {
        let old = parse(src).unwrap();
        let edit = Edit { start: at, end: at, replacement: replacement.to_string() };
        for lookahead in 0..3 {
            let (again, text, _) = roslyn_style_parse(&old, src, &edit, lookahead).unwrap();
            assert_eq!(again.unparse(), parse(&text).unwrap().unparse());
        }
    }
}

/// A text in full parentheses parses back to what it was written from, and so
/// does what stands inside a text.
#[test]
fn full_parentheses_parse_back() {
    for src in [
        "a",
        "-a + b * c",
        "f(a, b + 1)[0].x ^ 2 ^ 3",
        "a ? b : c ? !d : e()",
        "a + b + c + d && x || y <= z",
    ] {
        let text = parse(src).unwrap().unparse();
        assert_eq!(parse(&text).unwrap().unparse(), text);
    }
    let whole = parse("a * (b + c + d)").unwrap().unparse_normalized();
    let own = parse("b + c + d").unwrap().unparse_normalized();
    assert_eq!(whole, format!("(a * {own})"));
}
