//! An operator that binds tighter or looser after the edit: the tree is
//! restructured.

use incremental_pratt::expr::edit::Edit;
use incremental_pratt::expr::incremental::incremental_parse;
use incremental_pratt::expr::parser::parse;

#[test]
fn wagner_fig10_plus_becomes_star() {
    let old_src = "a + b * c";
    let edit = Edit {
        start: 2,
        end: 3,
        replacement: "*".to_string(),
    };
    let new_src = edit.apply(old_src);
    assert_eq!(new_src, "a * b * c");

    let fresh = parse(&new_src).unwrap();
    let old_tree = parse(old_src).unwrap();
    let (incr, _, stats) = incremental_parse(&old_tree, old_src, &edit).unwrap();

    // (a) Structure matches fresh.
    assert_eq!(incr.unparse(), fresh.unparse());
    assert_eq!(incr.unparse(), "((a * b) * c)");

    // (b) Reuse story:
    // - Atoms are NOT cached (intentional cache-size optimization
    //   — see `incremental::walk_cache`). For this small example,
    //   all reusable subtrees are atoms, so nodes_reused is 0. The
    //   parse is still correct because atoms are trivially rebuilt
    //   from tokens.
    // - The old top-level `a + (b * c)` cannot be reused (span
    //   extends across the changed `+` byte).
    // - The old inner `b * c` is rejected on precedence (m_spine=60,
    //   new context min_prec=60, predicate requires strict <).
    println!("stats: {:?}", stats);
    assert!(stats.reuse_attempts > 0, "cache lookups should have been attempted");
}

#[test]
fn wagner_fig10_inverse_star_becomes_plus() {
    // Inverse direction: `a * b + c` with `*` -> `+`.
    let old_src = "a * b + c";
    let edit = Edit {
        start: 2,
        end: 3,
        replacement: "+".to_string(),
    };
    let new_src = edit.apply(old_src);
    assert_eq!(new_src, "a + b + c");

    let fresh = parse(&new_src).unwrap();
    let old_tree = parse(old_src).unwrap();
    let (incr, _, stats) = incremental_parse(&old_tree, old_src, &edit).unwrap();

    assert_eq!(incr.unparse(), fresh.unparse());
    assert_eq!(incr.unparse(), "((a + b) + c)");
    println!("stats: {:?}", stats);
}

#[test]
fn reuse_a_high_precedence_subtree() {
    // Setup designed to exercise precedence-based reuse:
    //   Old: `(x + y) || a * b + c`
    //   Edit: change `||` to `&&` (different lbp but lower than `*`).
    // The `a * b` subtree (m_spine=60) should be reusable across the
    // edit because m_spine(60) > parse_expr's min_prec at any call
    // along the right-hand expression.
    let old_src = "(x + y) || a * b + c";
    let edit = Edit {
        start: 8,
        end: 10,
        replacement: "&&".to_string(),
    };
    let new_src = edit.apply(old_src);
    let fresh = parse(&new_src).unwrap();
    let old_tree = parse(old_src).unwrap();
    let (incr, _, stats) = incremental_parse(&old_tree, old_src, &edit).unwrap();

    assert_eq!(incr.unparse(), fresh.unparse());
    println!("stats: {:?}", stats);
    // Expect substantial reuse — both `(x + y)` (paren, m_spine=MAX)
    // and `a * b` (m_spine=60) and individual leaves should be reused.
    assert!(stats.nodes_reused >= 5);
}

#[test]
fn no_reuse_across_changed_region() {
    // Old: `a + b`. Edit: replace everything (`a + b` -> `x * y`).
    // Nothing in the old tree can be reused — every byte is in the
    // edited region.
    let old_src = "a + b";
    let edit = Edit {
        start: 0,
        end: 5,
        replacement: "x * y".to_string(),
    };
    let new_src = edit.apply(old_src);
    let fresh = parse(&new_src).unwrap();
    let old_tree = parse(old_src).unwrap();
    let (incr, _, stats) = incremental_parse(&old_tree, old_src, &edit).unwrap();

    assert_eq!(incr.unparse(), fresh.unparse());
    assert_eq!(stats.nodes_reused, 0, "no reuse possible — everything edited");
}
