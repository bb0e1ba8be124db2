//! Values of edited expressions, and how much of them is computed again.

use std::sync::Arc;

use incremental_pratt::expr::ast::{IdSource, Node, NodeKind};
use incremental_pratt::expr::cache::ReuseCache;
use incremental_pratt::expr::edit::Edit;
use incremental_pratt::expr::incremental::incremental_parse_with_ids;
use incremental_pratt::expr::lexer::TokenKind;
use incremental_pratt::expr::parser::{parse, parse_with_ids};
use incremental_pratt::expr::semantics_ctx::{eval_ctx_fresh, ContextEvaluator, Env};

fn eval_fresh(n: &Arc<Node>) -> i64 {
    eval_ctx_fresh(n, &Env::new())
}

/// The value after the edit, reparsed and evaluated with what was remembered;
/// the value from scratch; the nodes computed again; and all nodes.
fn eval_after_edit(old_src: &str, edit: &Edit) -> Option<(i64, i64, usize, u32)> {
    let new_src = edit.apply(old_src);
    let mut ids = IdSource::new();
    let old_tree = parse_with_ids(old_src, &mut ids).ok()?;
    let fresh_new = parse(&new_src).ok()?;
    let cache = ReuseCache::build(&old_tree, old_src);
    let (incr_new, returned_new_src, _stats) =
        incremental_parse_with_ids(&cache, old_src, edit, &mut ids).ok()?;
    assert_eq!(returned_new_src, new_src);

    let mut ev = ContextEvaluator::new();
    let _ = ev.eval(&old_tree, &Env::new());
    let incr_val = ev.eval(&incr_new, &Env::new());
    let recomputed = ev.recomputed;

    let fresh_val = eval_fresh(&fresh_new);
    Some((incr_val, fresh_val, recomputed, incr_new.count()))
}

fn check_eval_equiv(old_src: &str, edit: Edit) {
    if let Some((incr, fresh, _, _)) = eval_after_edit(old_src, &edit) {
        assert_eq!(
            incr, fresh,
            "incremental eval {} != fresh eval {} on old=`{}` edit {}..{} -> `{}`",
            incr, fresh, old_src, edit.start, edit.end, edit.replacement
        );
    }
}

#[test]
fn eval_basic_arithmetic() {
    assert_eq!(eval_fresh(&parse("1 + 2 * 3").unwrap()), 7);
    assert_eq!(eval_fresh(&parse("(1 + 2) * 3").unwrap()), 9);
    assert_eq!(eval_fresh(&parse("2 ^ 10").unwrap()), 1024);
    assert_eq!(eval_fresh(&parse("- 5 + 3").unwrap()), -2);
    assert_eq!(eval_fresh(&parse("7 % 3").unwrap()), 1);
    assert_eq!(eval_fresh(&parse("10 / 0").unwrap()), 0);
}

#[test]
fn eval_associative_regrouping_is_value_stable() {
    let chain = "1 + 2 + 3 + 4 + 5 + 6 + 7 + 8";
    assert_eq!(eval_fresh(&parse(chain).unwrap()), 36);
}

#[test]
fn eval_equiv_touch_operand() {
    check_eval_equiv("1 + 2 * 3", Edit { start: 4, end: 5, replacement: "20".to_string() });
}

#[test]
fn eval_equiv_change_operator_precedence() {
    check_eval_equiv("1 + 2 * 3", Edit { start: 2, end: 3, replacement: "*".to_string() });
}

#[test]
fn eval_equiv_edit_inside_parens() {
    check_eval_equiv("(1 + 2) * 3", Edit { start: 4, end: 5, replacement: "-".to_string() });
}

#[test]
fn eval_equiv_insert_subexpression() {
    check_eval_equiv("1 + 9", Edit { start: 4, end: 4, replacement: "2 * ".to_string() });
}

#[test]
fn recompute_is_local_when_siblings_are_reusable() {
    let n = 100;
    let args: Vec<String> = (1..=n).map(|i| format!("({} + {} * 2)", i, i)).collect();
    let src = format!("f({})", args.join(", "));

    let mid = n / 2;
    let needle = format!("({} + {} * 2)", mid, mid);
    let at = src.find(&needle).expect("argument present") as u32;
    let start = at + 1;
    let digits = mid.to_string();
    let edit = Edit {
        start,
        end: start + digits.len() as u32,
        replacement: "9999".to_string(),
    };

    let (incr, fresh, recomputed, total) =
        eval_after_edit(&src, &edit).expect("edit should reparse");
    assert_eq!(incr, fresh, "incremental eval diverged from fresh");
    let bound = 32;
    assert!(
        recomputed <= bound,
        "recomputed {} nodes (total {}) for a one-argument edit; expected <= {}",
        recomputed, total, bound
    );
    assert!(
        (recomputed as u32) * 8 < total,
        "recompute {} should be a small fraction of total {}",
        recomputed, total
    );
}

fn long_chain_edit(n: usize) -> (String, Edit) {
    let operands: Vec<String> = (1..=n).map(|i| format!("({} * 7)", i)).collect();
    let src = operands.join(" + ");
    let mid = n / 2;
    let needle = format!("({} * 7)", mid);
    let at = src.find(&needle).expect("operand present") as u32;
    let start = at + 1;
    let edit = Edit {
        start,
        end: start + mid.to_string().len() as u32,
        replacement: "999".to_string(),
    };
    (src, edit)
}

#[test]
fn flat_chain_edit_locality() {
    let n = 200;
    let (src, edit) = long_chain_edit(n);
    let mut ids = IdSource::new();
    let old_tree = parse_with_ids(&src, &mut ids).unwrap();
    let fresh_val = eval_fresh(&parse(&edit.apply(&src)).unwrap());

    // Chains are spliced: the spine to the operand and the operand.
    let cache = ReuseCache::build_spliced(&old_tree, &src);
    let (spliced, _new_src, _stats) =
        incremental_parse_with_ids(&cache, &src, &edit, &mut ids).unwrap();
    let mut ev = ContextEvaluator::new();
    let _ = ev.eval(&old_tree, &Env::new());
    assert_eq!(ev.eval(&spliced, &Env::new()), fresh_val, "incremental eval diverged from fresh");
    let total = spliced.count() as usize;
    let bound = 48;
    assert!(
        ev.recomputed <= bound,
        "recompute {} should be <= {} (total {})",
        ev.recomputed, bound, total
    );

    // Chains are built again: operands are kept, the spine is new.
    let cache = ReuseCache::build(&old_tree, &src);
    let (incr_new, _new_src, _stats) =
        incremental_parse_with_ids(&cache, &src, &edit, &mut ids).unwrap();
    let mut ev = ContextEvaluator::new();
    let _ = ev.eval(&old_tree, &Env::new());
    assert_eq!(ev.eval(&incr_new, &Env::new()), fresh_val, "incremental eval diverged from fresh");
    assert!(
        ev.reused as u32 >= n as u32 / 2,
        "operands should be reused (eval hits {}, n={})",
        ev.reused, n
    );
    assert!(
        ev.recomputed >= n / 2 && ev.recomputed <= 3 * n,
        "recompute {} should track rebuilt interior ~n={}",
        ev.recomputed, n
    );
}

#[test]
fn chain_insert_delete_is_local() {
    let n = 200;
    let operands: Vec<String> = (1..=n).map(|i| format!("({} * 7)", i)).collect();
    let src = operands.join(" + ");
    let mid = n / 2;
    let needle = format!("({} * 7)", mid);
    let at = src.find(&needle).expect("operand present") as u32;
    let edit = Edit { start: at, end: at, replacement: "(999 * 7) + ".to_string() };

    let mut ids = IdSource::new();
    let old_tree = parse_with_ids(&src, &mut ids).unwrap();
    let cache = ReuseCache::build_spliced(&old_tree, &src);
    let (incr_new, _new_src, _stats) =
        incremental_parse_with_ids(&cache, &src, &edit, &mut ids).unwrap();
    let fresh = parse(&edit.apply(&src)).unwrap();

    let mut ev = ContextEvaluator::new();
    let _ = ev.eval(&old_tree, &Env::new());
    let incr_val = ev.eval(&incr_new, &Env::new());
    assert_eq!(incr_val, eval_fresh(&fresh), "insert: value mismatch");
    assert_eq!(
        incr_new.unparse_normalized(),
        fresh.unparse_normalized(),
        "insert: structural mismatch"
    );

    let total = incr_new.count() as usize;
    let bound = 64;
    assert!(
        ev.recomputed <= bound,
        "insert: recompute {} should be <= {} (total {})",
        ev.recomputed, bound, total
    );
}

fn depth(n: &Arc<Node>) -> u32 {
    1 + match &n.kind {
        NodeKind::Atom(_) | NodeKind::Missing | NodeKind::Error { .. } => 0,
        NodeKind::Prefix { child, .. } => depth(child),
        NodeKind::Binary { left, right, .. } => depth(left).max(depth(right)),
        NodeKind::Ternary { cond, then, else_ } => depth(cond).max(depth(then)).max(depth(else_)),
        NodeKind::Paren { inner } => depth(inner),
        NodeKind::Call { callee, args } => {
            depth(callee).max(args.iter().map(depth).max().unwrap_or(0))
        }
        NodeKind::Index { array, index } => depth(array).max(depth(index)),
        NodeKind::Member { object, .. } => depth(object),
    }
}

#[test]
fn chain_splice_depth_across_many_edits() {
    let n0 = 64;
    let mut src: String = (1..=n0)
        .map(|i| format!("({} + 0)", i))
        .collect::<Vec<_>>()
        .join(" + ");

    let base_depth = depth(&parse(&src).unwrap());
    let mut max_depth = base_depth;

    // 300 alternating insert/delete edits at an interior boundary.
    for k in 0..300 {
        let operands: Vec<&str> = src.split(" + ").collect();
        let i = 1 + (k % (operands.len().saturating_sub(2)).max(1));
        let mut off = 0usize;
        for o in operands.iter().take(i) {
            off += o.len() + 3; // operand + " + "
        }
        let edit = if k % 2 == 0 {
            Edit { start: off as u32, end: off as u32, replacement: "(7 + 0) + ".to_string() }
        } else {
            // delete operand i with its preceding " + "
            Edit {
                start: (off - 3) as u32,
                end: (off + operands[i].len()) as u32,
                replacement: String::new(),
            }
        };
        let mut ids = IdSource::new();
        let old_tree = parse_with_ids(&src, &mut ids).unwrap();
        let new_src = edit.apply(&src);
        if parse(&new_src).is_err() {
            continue;
        }
        let cache = ReuseCache::build_spliced(&old_tree, &src);
        let (incr, _ns, _st) =
            incremental_parse_with_ids(&cache, &src, &edit, &mut ids).unwrap();
        assert_eq!(
            incr.unparse_normalized(),
            parse(&new_src).unwrap().unparse_normalized(),
            "divergence at edit {}",
            k
        );
        assert!(wb_balanced(&incr), "weight-balance invariant violated at edit {}", k);
        max_depth = max_depth.max(depth(&incr));
        src = new_src;
    }
    assert!(
        max_depth <= base_depth + 12,
        "depth exceeded the weight-balanced bound: base {} -> max {}",
        base_depth, max_depth
    );
}

/// True iff the operand counts of the two children of every `+` are within a
/// factor of 3.
fn wb_balanced(n: &Arc<Node>) -> bool {
    let csize = |m: &Arc<Node>| -> u32 {
        match &m.kind {
            NodeKind::Binary { op: TokenKind::Plus, .. } => m.wb,
            _ => 1,
        }
    };
    match &n.kind {
        NodeKind::Binary { op: TokenKind::Plus, left, right } => {
            let (a, b) = (csize(left), csize(right));
            a <= 3 * b && b <= 3 * a && wb_balanced(left) && wb_balanced(right)
        }
        NodeKind::Binary { left, right, .. } => wb_balanced(left) && wb_balanced(right),
        NodeKind::Prefix { child, .. } | NodeKind::Paren { inner: child } => wb_balanced(child),
        NodeKind::Ternary { cond, then, else_ } => {
            wb_balanced(cond) && wb_balanced(then) && wb_balanced(else_)
        }
        NodeKind::Index { array, index } => wb_balanced(array) && wb_balanced(index),
        NodeKind::Member { object, .. } => wb_balanced(object),
        NodeKind::Call { callee, args } => wb_balanced(callee) && args.iter().all(wb_balanced),
        _ => true,
    }
}

#[test]
fn memo_stays_bounded_across_many_edits() {
    let n = 400;
    let src0: String = (1..=n)
        .map(|i| format!("({} + 0)", i))
        .collect::<Vec<_>>()
        .join(" + ");
    let mut src = src0.clone();

    let mut ev = ContextEvaluator::new();
    let mut ids = IdSource::new();
    let mut tree = parse_with_ids(&src, &mut ids).unwrap();
    let _ = ev.eval(&tree, &Env::new());
    let live = parse(&src).unwrap().count() as usize;

    let mut max_memo = ev.memo_len();
    for k in 0..50 {
        let mid = n / 2 + (k % 5);
        let needle = format!("({} + 0)", mid);
        let Some(at) = src.find(&needle) else { continue };
        let start = (at + 1) as u32;
        let edit = Edit {
            start,
            end: start + mid.to_string().len() as u32,
            replacement: format!("{}", 1000 + k),
        };
        let new_src = edit.apply(&src);
        let cache = ReuseCache::build(&tree, &src);
        let (incr, _ns, _st) =
            incremental_parse_with_ids(&cache, &src, &edit, &mut ids).unwrap();
        let v = ev.eval(&incr, &Env::new());
        assert_eq!(v, eval_fresh(&parse(&new_src).unwrap()), "memo eval diverged at {}", k);
        max_memo = max_memo.max(ev.memo_len());
        src = new_src;
        tree = incr;
    }
    assert!(
        max_memo <= 8 * live,
        "memo not bounded: max {} vs live {}",
        max_memo, live
    );
}
