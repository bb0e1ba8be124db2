//! Evaluation under bindings, with values remembered by identity.

use std::sync::Arc;

use incremental_pratt::expr::ast::{IdSource, Node, NodeKind};
use incremental_pratt::expr::cache::ReuseCache;
use incremental_pratt::expr::edit::Edit;
use incremental_pratt::expr::incremental::incremental_parse_with_ids;
use incremental_pratt::expr::parser::{parse, parse_with_ids};
use incremental_pratt::expr::semantics_ctx::{
    eval_ctx_fresh, ContextEvaluator, Env, NaiveNodeIdEvaluator,
};

fn env(pairs: &[(&str, i64)]) -> Env {
    let mut e = Env::new();
    for (k, v) in pairs {
        e.insert(k.to_string(), *v);
    }
    e
}

#[test]
fn ctx_eval_basic() {
    let t = parse("a + 1").unwrap();
    assert_eq!(eval_ctx_fresh(&t, &env(&[("a", 5)])), 6);
    assert_eq!(eval_ctx_fresh(&t, &env(&[("a", 41)])), 42);
}

/// THE NEGATIVE RESULT. Memoizing on NodeId alone is unsound when a binding
/// changes: the syntactically-unchanged tree (same NodeIds) returns the value
/// computed under the old environment. This is exactly why node identity is
/// necessary but NOT sufficient for context-dependent semantics.
#[test]
fn naive_nodeid_memo_is_unsound_under_binding_change() {
    let mut ids = IdSource::new();
    let t = parse_with_ids("a + 1", &mut ids).unwrap();

    let mut naive = NaiveNodeIdEvaluator::new();
    let env1 = env(&[("a", 5)]);
    assert_eq!(naive.eval(&t, &env1), 6); // primes the NodeId memo with a = 5

    // The binding changes; the *tree* (and its NodeIds) is identical.
    let env2 = env(&[("a", 10)]);
    let naive_again = naive.eval(&t, &env2); // returns the STALE memoized value
    let truth = eval_ctx_fresh(&t, &env2);

    assert_eq!(truth, 11, "fresh must reflect the new binding");
    assert_eq!(naive_again, 6, "naive NodeId memo returns the stale value");
    assert_ne!(
        naive_again, truth,
        "NodeId-only memoization is unsound under a binding change"
    );

    // THE POSITIVE RESULT: the context-tracking evaluator is correct here.
    let mut ctx = ContextEvaluator::new();
    let _ = ctx.eval(&t, &env1);
    assert_eq!(ctx.eval(&t, &env2), truth, "context evaluator stays sound");
}

/// THE POSITIVE RESULT, localized. A binding change invalidates exactly the
/// uses that read it; subtrees that don't read it are reused — even though all
/// NodeIds are unchanged (no edit happened, only the context changed).
#[test]
fn binding_change_invalidates_only_dependent_uses() {
    // Left subtree reads only `a`; right subtree reads only `b`.
    let mut ids = IdSource::new();
    let t = parse_with_ids("(a + a) * (b + b)", &mut ids).unwrap();
    let mut ctx = ContextEvaluator::new();

    let e1 = env(&[("a", 1), ("b", 1)]);
    assert_eq!(ctx.eval(&t, &e1), 4); // (1+1)*(1+1)

    // Change only `a`. Re-evaluate the SAME tree (identical NodeIds).
    let e2 = env(&[("a", 3), ("b", 1)]);
    let v = ctx.eval(&t, &e2);
    assert_eq!(v, eval_ctx_fresh(&t, &e2), "context evaluator sound");
    assert_eq!(v, 12, "(3+3)*(1+1)");

    // The `b`-only subtree must have been reused (its dependency {b:1} still
    // holds), so at least one memo hit occurred despite zero edits.
    assert!(
        ctx.reused >= 1,
        "the b-only subtree should be reused on an a-only binding change \
         (reused={}, recomputed={})",
        ctx.reused, ctx.recomputed
    );
}

/// A SOURCE edit (not a binding change): the context evaluator reuses unchanged
/// subtrees (NodeId preserved by the incremental parser AND dependencies
/// unchanged) and recomputes the edited region — sound vs a fresh parse.
#[test]
fn source_edit_reuses_unchanged_under_context() {
    let src = "(a + a) * (b + b)";
    let environment = env(&[("a", 2), ("b", 5)]);

    let mut ids = IdSource::new();
    let old_tree = parse_with_ids(src, &mut ids).unwrap();
    let mut ctx = ContextEvaluator::new();
    let _ = ctx.eval(&old_tree, &environment); // prime

    // Edit the left subtree: `a + a` -> `a + 7`.
    let edit = Edit { start: 5, end: 6, replacement: "7".to_string() };
    let new_src = edit.apply(src);
    let fresh = parse(&new_src).unwrap();
    let cache = ReuseCache::build(&old_tree, src);
    let (incr, _ns, _stats) = incremental_parse_with_ids(&cache, src, &edit, &mut ids).unwrap();

    let v = ctx.eval(&incr, &environment);
    assert_eq!(v, eval_ctx_fresh(&fresh, &environment), "sound vs fresh");
    // The untouched `(b + b)` subtree is reused (same NodeIds, deps unchanged).
    assert!(
        ctx.reused >= 1,
        "the unedited right subtree should be reused (reused={}, recomputed={})",
        ctx.reused, ctx.recomputed
    );
}

/// Every identity in the tree.
fn numbers(n: &Arc<Node>) -> Vec<u64> {
    let mut out = vec![n.id.0];
    match &n.kind {
        NodeKind::Prefix { child, .. } => out.extend(numbers(child)),
        NodeKind::Binary { left, right, .. } => {
            out.extend(numbers(left));
            out.extend(numbers(right));
        }
        NodeKind::Ternary { cond, then, else_ } => {
            out.extend(numbers(cond));
            out.extend(numbers(then));
            out.extend(numbers(else_));
        }
        NodeKind::Paren { inner } => out.extend(numbers(inner)),
        NodeKind::Call { callee, args } => {
            out.extend(numbers(callee));
            for a in args {
                out.extend(numbers(a));
            }
        }
        NodeKind::Index { array, index } => {
            out.extend(numbers(array));
            out.extend(numbers(index));
        }
        NodeKind::Member { object, .. } => out.extend(numbers(object)),
        _ => {}
    }
    out
}

/// One source gives every node of every tree an identity of its own; two
/// reparses of one tree share only what they reuse of it.
#[test]
fn identities_are_given_once() {
    let src = "f(a, b + c + d) * x[1].y ? -p : (q)";
    let mut ids = IdSource::new();
    let tree = parse_with_ids(src, &mut ids).unwrap();
    let old = numbers(&tree);
    let mut sorted = old.clone();
    sorted.sort();
    assert_eq!(sorted, (1..=old.len() as u64).collect::<Vec<_>>());
    assert_eq!(ids.next, old.len() as u64 + 1);

    let other = numbers(&parse_with_ids(src, &mut ids).unwrap());
    assert!(other.iter().all(|i| !old.contains(i)));

    for build in [ReuseCache::build, ReuseCache::build_spliced] {
        let cache = build(&tree, src);
        let edit = |text: &str| Edit { start: 9, end: 10, replacement: text.to_string() };
        let before = ids.next;
        let one = incremental_parse_with_ids(&cache, src, &edit("7"), &mut ids).unwrap().0;
        let between = ids.next;
        let two = incremental_parse_with_ids(&cache, src, &edit("8"), &mut ids).unwrap().0;
        assert!(before < between && between < ids.next);
        for (t, lo, hi) in [(&one, before, between), (&two, between, ids.next)] {
            let mut seen = numbers(t);
            assert!(seen.iter().all(|i| old.contains(i) || (lo <= *i && *i < hi)));
            assert!(seen.iter().any(|i| old.contains(i)));
            let n = seen.len();
            seen.sort();
            seen.dedup();
            assert_eq!(seen.len(), n);
        }
    }
}

/// A tree without identities is evaluated each time: nothing of one parse is
/// taken for part of another.
#[test]
fn unnamed_trees_are_not_confused() {
    let x = parse("a + 1").unwrap();
    let y = parse("a * 7").unwrap();
    assert!(numbers(&x).iter().all(|i| *i == 0));
    let e = env(&[("a", 5)]);
    let mut ctx = ContextEvaluator::new();
    assert_eq!(ctx.eval(&x, &e), 6);
    assert_eq!(ctx.eval(&y, &e), 35);
    assert_eq!((ctx.recomputed, ctx.reused, ctx.memo_len()), (3, 0, 0));
    let mut naive = NaiveNodeIdEvaluator::new();
    assert_eq!((naive.eval(&x, &e), naive.eval(&y, &e)), (6, 35));
}
