//! Repairs of broken expressions.

use std::collections::{HashMap, HashSet};

use incremental_pratt::expr::ast::{Node, NodeKind};
use incremental_pratt::expr::lexer::{tokenize, TokenKind};
use incremental_pratt::expr::parser::parse;
use incremental_pratt::expr::recovery::{
    canon_text, global_optimal_repair, local_optimal_repair, recover_parse,
};
use incremental_pratt::expr::repair::{Cost, Repair, RepairCosts};


/// Clean-input invariant: on every valid input, `recover_parse`
/// returns exactly the fresh-parse tree and no repairs.
#[test]
fn clean_input_identical_to_fresh() {
    let valid = [
        "42",
        "a + b + c",
        "a + b * c",
        "a ^ b ^ c",
        "-a + b",
        "a ? b : c ? d : e",
        "(a + b) * c",
        "f()",
        "f(a, b, c)",
        "f(a + b * c)",
        "a.b.c",
        "a[i]",
        "a.b(x)[i].c",
        "x && y || z != 0",
    ];
    for s in valid {
        let (tree, repairs) = recover_parse(s);
        let fresh = parse(s).expect("valid input parses");
        assert_eq!(tree, fresh, "tree differs from fresh parse for {s:?}");
        assert!(repairs.is_empty(), "expected no repairs for valid {s:?}");
        // No recovery markers in a clean tree.
        assert!(!has_recovery_marker(&tree), "unexpected marker in {s:?}");
    }
}

/// Broken input never panics and always yields a tree.
#[test]
fn broken_input_yields_a_tree_without_panicking() {
    let broken = ["1 +", "(1 + 2", "1 + * 2", "a ? b c", "f(a, , b)", ")", "1 2"];
    for s in broken {
        let (_tree, _repairs) = recover_parse(s); // must not panic
    }
}

/// The optimal repair is complete (its repairs, applied, parse),
/// cost-consistent (`cost == total(repairs)`), and of the known
/// minimal cost. Exact structure asserted for the unambiguous cases.
#[test]
fn m2_optimal_repair_complete_minimal_consistent() {
    // (input, expected minimal cost, optional expected normalized tree)
    let cases: &[(&str, Cost, Option<&str>)] = &[
        ("1 +", 1, Some("(1 + 0)")),
        ("(1 + 2", 1, Some("(1 + 2)")),
        ("1 + * 2", 1, None),
        ("1 2", 1, Some("(1 + 2)")),
        ("a ? b c", 1, Some("(a ? b : c)")),
        (")", 1, Some("0")),
        ("f(a, , b)", 1, None),
        ("((1", 2, Some("1")),
        ("a ? b", 1, None),
        ("f(a", 1, None),
        ("a[i", 1, None),
    ];
    for (src, expected_cost, expected_tree) in cases {
        let r = global_optimal_repair(src);
        assert_eq!(
            r.cost,
            RepairCosts::default().total(&r.repairs),
            "cost/total mismatch for {src:?}: {:?}",
            r.repairs
        );
        assert_eq!(
            r.cost, *expected_cost,
            "unexpected min cost for {src:?}: repairs {:?}",
            r.repairs
        );
        // Independent completeness check: reconstruct the repaired
        // stream from the repair list alone and confirm it parses to
        // the same tree the search returned.
        let repaired = apply_repairs(src, &r.repairs);
        let reparsed = parse(&repaired).unwrap_or_else(|e| {
            panic!("repaired {src:?} -> {repaired:?} did not parse: {e:?}")
        });
        assert_eq!(
            reparsed.unparse_normalized(),
            r.tree.unparse_normalized(),
            "tree and repairs disagree for {src:?} (repaired {repaired:?})"
        );
        if let Some(expected) = expected_tree {
            assert_eq!(
                r.tree.unparse_normalized(),
                *expected,
                "unexpected tree for {src:?}: repairs {:?}",
                r.repairs
            );
        }
    }
}

/// Localized repair finds the same minimum cost as the global search on
/// every corpus input — both the
/// well-formed-boundary cases (repaired locally) and the ill-formed
/// ones (escalated to global).
#[test]
fn m3_local_cost_equals_global_cost() {
    let corpus = [
        "1 +",
        "(1 + 2",      // missing closer -> escalates
        "1 + * 2",
        "1 2",
        "a ? b c",
        ")",
        "f(a, , b)",
        "((1",          // missing closers -> escalates
        "(1 + )",       // local: interior of intact paren
        "f(1 +)",       // local: interior of intact call
        "a[1 +]",       // local: interior of intact index
        "( 1 * ) + 2",  // local repair, untouched tail
        "(((1+2)))",    // valid: cost 0
    ];
    for s in corpus {
        let local = local_optimal_repair(s);
        let global = global_optimal_repair(s);
        assert_eq!(
            local.result.cost, global.cost,
            "local≠global cost for {s:?}: local {:?} (region {:?}), global {:?}",
            local.result.repairs, local.region, global.repairs
        );
    }
}

/// An error inside an intact bracket scope is repaired
/// within a window whose size is constant in the surrounding
/// expression length — the repair does not re-search the growing tail.
#[test]
fn m3_local_window_is_constant_in_tail_length() {
    let mut regions = Vec::new();
    for n in [3usize, 10, 30] {
        let tail: String = (2..n).map(|k| format!(" + {k}")).collect();
        let src = format!("(1 + ){tail}"); // error inside the first paren
        let local = local_optimal_repair(&src);
        let global = global_optimal_repair(&src);
        assert_eq!(local.result.cost, global.cost, "cost mismatch n={n}");
        assert_eq!(local.result.cost, 1, "expected single insert n={n}");
        assert!(!local.escalated_to_global, "should repair locally n={n}");
        regions.push(local.region.expect("local region"));
    }
    assert!(
        regions.iter().all(|r| *r == regions[0]),
        "repair window must be constant in tail length, got {regions:?}"
    );
}

/// Precedence localizes an error inside a *flat*
/// (bracket-free) expression. The window is constant in the length of the
/// surrounding flat chain — locality is a precedence property, not just
/// bracket-matching.
#[test]
fn m3b_flat_expression_valley_is_constant() {
    let mut regions = Vec::new();
    for n in [4usize, 12, 40] {
        let tail: String = (0..n).map(|k| format!(" + v{k}")).collect();
        // "a * + v0 + v1 ..." — `*` is missing its right operand; the
        // error sits in a parse_expr(rbp(*)) frame whose valley is the
        // very next `+`, regardless of how long the chain runs.
        let src = format!("a *{tail}");
        let local = local_optimal_repair(&src);
        let global = global_optimal_repair(&src);
        assert_eq!(local.result.cost, global.cost, "cost mismatch n={n}");
        assert_eq!(local.result.cost, 1, "expected single insert n={n}");
        assert!(!local.escalated_to_global, "should repair locally (flat) n={n}");
        regions.push(local.region.expect("local region"));
    }
    assert!(
        regions.iter().all(|r| *r == regions[0]),
        "flat-expression repair window must be constant, got {regions:?}"
    );
}

/// Reconstruct the repaired source string from the original input and
/// a repair list, independently of the search. Validates that the
/// `repairs` field genuinely produces a parseable stream.
fn apply_repairs(src: &str, repairs: &[Repair]) -> String {
    let toks = tokenize(src);
    let real = &toks[..toks.len() - 1];
    let mut inserts: HashMap<usize, Vec<TokenKind>> = HashMap::new();
    let mut deletes: HashSet<usize> = HashSet::new();
    let mut subs: HashMap<usize, TokenKind> = HashMap::new();
    for r in repairs {
        match r {
            Repair::Insert { at, tok } => inserts.entry(*at).or_default().push(*tok),
            Repair::Delete { at } => {
                deletes.insert(*at);
            }
            Repair::Substitute { at, to } => {
                subs.insert(*at, *to);
            }
        }
    }
    let mut parts: Vec<String> = Vec::new();
    for idx in 0..=real.len() {
        if let Some(toks) = inserts.get(&idx) {
            for t in toks {
                parts.push(canon_text(*t).to_string());
            }
        }
        if idx < real.len() && !deletes.contains(&idx) {
            let text = match subs.get(&idx) {
                Some(to) => canon_text(*to).to_string(),
                None => real[idx].text(src).to_string(),
            };
            parts.push(text);
        }
    }
    parts.join(" ")
}

fn has_recovery_marker(n: &Node) -> bool {
    match &n.kind {
        NodeKind::Missing | NodeKind::Error { .. } => true,
        NodeKind::Atom(_) => false,
        NodeKind::Prefix { child, .. } => has_recovery_marker(child),
        NodeKind::Binary { left, right, .. } => {
            has_recovery_marker(left) || has_recovery_marker(right)
        }
        NodeKind::Ternary { cond, then, else_ } => {
            has_recovery_marker(cond)
                || has_recovery_marker(then)
                || has_recovery_marker(else_)
        }
        NodeKind::Paren { inner } => has_recovery_marker(inner),
        NodeKind::Call { callee, args } => {
            has_recovery_marker(callee) || args.iter().any(|a| has_recovery_marker(a))
        }
        NodeKind::Index { array, index } => {
            has_recovery_marker(array) || has_recovery_marker(index)
        }
        NodeKind::Member { object, .. } => has_recovery_marker(object),
    }
}
