//! What a reparse keeps, and how it groups chains.

use std::sync::Arc;

use incremental_pratt::expr::ast::{IdSource, Node, NodeId, NodeKind};
use incremental_pratt::expr::bench_support::Lcg;
use incremental_pratt::expr::cache::ReuseCache;
use incremental_pratt::expr::edit::Edit;
use incremental_pratt::expr::incremental::{incremental_parse_with_ids, ReparseStats};
use incremental_pratt::expr::lexer::{tokenize, TokenKind};
use incremental_pratt::expr::parser::{parse, parse_with_ids};
use incremental_pratt::expr::recovery::{optimal_repair, recover_parse};
use incremental_pratt::expr::repair::{Repair, RepairCosts};
use incremental_pratt::generator::emitter::Emitter;
use incremental_pratt::generator::spec::{Atoms, Infix, Paren, Postfix, Prefix, Spec};
use incremental_pratt::runtime::ast::{Node as TableNode, NodeKind as TableKind};
use incremental_pratt::runtime::parser as table;
use incremental_pratt::runtime::table::Table;

/// Number of operands, if no side of a node has more than three times as many as
/// the other.
fn balanced(n: &Node) -> Option<u32> {
    match &n.kind {
        NodeKind::Binary { op: TokenKind::Plus, left, right } => {
            let (l, r) = (balanced(left)?, balanced(right)?);
            if l <= 3 * r && r <= 3 * l {
                Some(l + r)
            } else {
                None
            }
        }
        _ => Some(1),
    }
}

/// Number of nodes above the deepest operand.
fn height(n: &Node) -> u32 {
    match &n.kind {
        NodeKind::Binary { op: TokenKind::Plus, left, right } => 1 + height(left).max(height(right)),
        _ => 0,
    }
}

/// The identities of a tree, in preorder.
fn identities(n: &Node, out: &mut Vec<u64>) {
    out.push(n.id.0);
    match &n.kind {
        NodeKind::Prefix { child, .. } => identities(child, out),
        NodeKind::Binary { left, right, .. } => {
            identities(left, out);
            identities(right, out);
        }
        NodeKind::Paren { inner } => identities(inner, out),
        _ => {}
    }
}

fn all_identities(n: &Node) -> Vec<u64> {
    let mut out = Vec::new();
    identities(n, &mut out);
    out
}

fn replace(start: u32, end: u32, replacement: &str) -> Edit {
    Edit { start, end, replacement: replacement.to_string() }
}

fn reparse(
    old: &Arc<Node>,
    src: &str,
    edit: &Edit,
    ids: &mut IdSource,
) -> (Arc<Node>, String, ReparseStats) {
    incremental_parse_with_ids(&ReuseCache::build_spliced(old, src), src, edit, ids).unwrap()
}

/// A chain of `n` operands `a`.
fn chain(n: usize) -> String {
    vec!["a"; n].join("+")
}

/// A chain that operands are taken out of and put into stays balanced.
#[test]
fn spliced_chains_stay_balanced() {
    let mut rng = Lcg::new(7);
    let mut ids = IdSource::new();
    let mut src = chain(19);
    let mut tree = parse_with_ids(&src, &mut ids).unwrap();
    for i in 0..400 {
        let n = (src.len() + 1) / 2;
        let at = 1 + rng.range(n - 2);
        let edit = if n < 40 && i % 2 == 0 {
            let more = chain(1 + rng.range(12));
            replace(2 * at as u32, 2 * at as u32, &format!("{more}+"))
        } else {
            let last = (at + 1 + rng.range(9)).min(n - 1);
            replace(2 * at as u32, 2 * last as u32, "")
        };
        let (next, text, _) = reparse(&tree, &src, &edit, &mut ids);
        let operands = (text.len() as u32 + 1) / 2;
        assert_eq!(balanced(&next), Some(operands), "{text}");
        let h = height(&next);
        assert!(4u128.pow(h) <= 3u128.pow(h) * operands as u128, "{text}");
        (tree, src) = (next, text);
        if src.len() < 9 {
            src = chain(19);
            tree = parse_with_ids(&src, &mut ids).unwrap();
        }
    }
}

/// An edit inside one operand leaves the grouping of the chain as it was.
#[test]
fn an_edited_operand_leaves_the_grouping() {
    let src = "aaa + b + c + d + e";
    let mut ids = IdSource::new();
    let old = parse_with_ids(src, &mut ids).unwrap();
    let (tree, text, _) = reparse(&old, src, &replace(1, 2, "z"), &mut ids);
    assert_eq!(text, "aza + b + c + d + e");
    assert_eq!(tree.unparse(), parse(&text).unwrap().unparse());
    assert_eq!(tree.unparse(), "(((aza + b) + c) + (d + e))");
}

/// What an edit leaves alone keeps its identities, wherever it stands.
#[test]
fn kept_subtrees_keep_their_identities() {
    let src = "(a - b * c) - (d - e)";
    let mut ids = IdSource::new();
    let old = parse_with_ids(src, &mut ids).unwrap();
    let was = all_identities(&old);
    let (tree, _, stats) = reparse(&old, src, &replace(19, 20, "ff"), &mut ids);
    let now = all_identities(&tree);
    // All of `a - b * c` is kept, inside parentheses that are new.
    assert_eq!(now[2..7], was[2..7]);
    assert_eq!(now.iter().filter(|id| was.contains(id)).count(), 5);
    assert_eq!((now.len(), stats.nodes_reused), (was.len(), 5));
}

/// What stands beside an edited operand of a chain is kept as it is.
#[test]
fn spliced_chains_keep_what_stands_beside() {
    let src = "aaa + b + c + d + e + f + g + h";
    let mut ids = IdSource::new();
    let old = parse_with_ids(src, &mut ids).unwrap();
    let was = all_identities(&old);
    // One operand is parsed again: three nodes above it and itself are new.
    let (tree, _, stats) = reparse(&old, src, &replace(1, 2, "z"), &mut ids);
    let now = all_identities(&tree);
    assert_eq!(now.len(), was.len());
    assert_eq!(now.iter().filter(|id| !was.contains(id)).count(), 4);
    assert_eq!(now[4..], was[4..]);
    assert_eq!(stats.nodes_parsed, 1);
    // An operand more: every other operand is kept.
    let (tree, _, _) = reparse(&old, src, &replace(14, 15, "x + y"), &mut ids);
    let now = all_identities(&tree);
    let kept = now.iter().filter(|id| was.contains(id)).count();
    assert_eq!(now.len(), 17);
    assert!(kept >= 7, "{kept}");
    assert_eq!(balanced(&tree), Some(9));
}

/// Under one byte the widest subtree comes first; atoms are not cached.
#[test]
fn caches_are_ordered() {
    let src = "a - b - (c - d)";
    let cache = ReuseCache::build(&parse(src).unwrap(), src);
    let widths = |at: u64| -> Vec<u32> {
        cache.inner().get(at).map(|v| v.iter().map(|n| n.width).collect()).unwrap_or_default()
    };
    assert_eq!(widths(0), vec![15, 5]);
    assert_eq!(widths(4), Vec::<u32>::new());
    assert_eq!(widths(8), vec![7]);
    assert_eq!(widths(9), vec![5]);
}

/// Nodes that no parse has placed have no identity.
#[test]
fn unplaced_nodes_have_no_identity() {
    assert_eq!(Node::atom("x", 1).id, NodeId(0));
    assert_eq!(Node::missing().id, NodeId(0));
    assert_eq!(Node::error(vec![TokenKind::Plus], 1).id, NodeId(0));
}

/// With free deletions the cheapest repair is still found; a bound that is spent
/// stops the search.
#[test]
fn free_deletions() {
    let src = "1 + * 2";
    let tokens = tokenize(src);
    let costs = RepairCosts { insert: 1, delete: 0, substitute: 1 };
    let r = optimal_repair(&tokens, src, None, &costs, 2).unwrap();
    assert_eq!(r.cost, 0);
    assert!(r.repairs.iter().all(|x| matches!(x, Repair::Delete { .. })));
    assert!(optimal_repair(&tokens, src, None, &costs, 0).is_none());
}

/// With free substitutions, what only they can mend costs nothing.
#[test]
fn free_substitutions() {
    let costs = RepairCosts { insert: 1, delete: 1, substitute: 0 };
    for (src, cost) in [("a", 0), ("a * *", 0), ("a *", 1), ("", 1)] {
        let tokens = tokenize(src);
        assert_eq!(optimal_repair(&tokens, src, None, &costs, 2).unwrap().cost, cost, "{src}");
    }
}

/// Repairs that put no token in beside another say what the source becomes.
#[test]
fn repairs_fix_the_tree() {
    for (src, mended) in [("a +", "a + 0"), ("1 2", "1 + 2"), ("(1 + ) + 2", "(1 + 0) + 2")] {
        let (tree, repairs) = recover_parse(src);
        assert_eq!(repairs.len(), 1, "{src}");
        assert_eq!(tree.unparse(), parse(mended).unwrap().unparse(), "{src}");
    }
}

fn table_of(assoc: &str) -> Table {
    let spec = Spec {
        name: "sums".to_string(),
        atoms: Atoms { int: true, ident: true },
        paren: Paren { open: "(".to_string(), close: ")".to_string() },
        prefix: vec![Prefix { sym: "~".to_string(), rbp: 30 }],
        postfix: vec![Postfix { sym: "!".to_string(), lbp: 40 }],
        infix: vec![Infix {
            sym: "+".to_string(),
            lbp: 10,
            assoc: assoc.to_string(),
            class: "assoc".to_string(),
        }],
        host: None,
    };
    Emitter::new(spec).unwrap().table()
}

/// The precedences that the nodes of a tree carry, in preorder.
fn floors(n: &TableNode, out: &mut Vec<u32>) {
    out.push(n.m_floor);
    match &n.kind {
        TableKind::Atom(_) => {}
        TableKind::Prefix { child, .. } | TableKind::Postfix { child, .. } => floors(child, out),
        TableKind::Binary { left, right, .. } => {
            floors(left, out);
            floors(right, out);
        }
        TableKind::Paren { inner } => floors(inner, out),
    }
}

/// How a table's parse lays out a chain, and at which precedence its nodes were
/// parsed.
#[test]
fn tables_lay_out_chains() {
    let t = table_of("left");
    let n = table::parse(&t, "~a + b! + c + (d)").unwrap();
    assert_eq!(n.unparse(&t), "(((~a) + (b!)) + (c + d))");
    let mut at = Vec::new();
    floors(&n, &mut at);
    // The whole at 0, the halves below the power of `+`, `~` at its power, `!`
    // at that of the operand it follows.
    assert_eq!(at, vec![0, 9, 30, 0, 10, 0, 9, 0, 0, 0]);
    let t = table_of("right");
    let n = table::parse(&t, "a + b + c + d").unwrap();
    assert_eq!(n.unparse(&t), "(a + (b + (c + d)))");
}
