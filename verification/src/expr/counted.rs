//! How many nodes a tree has.

use vstd::prelude::*;

use crate::expr::ast::{count_upto, node_count, Shape, ShapeKind};

verus! {

/// The trees right below the root, in order.
pub open spec fn children(t: Shape) -> Seq<Shape> {
    match t.kind {
        ShapeKind::Atom(s) => Seq::empty(),
        ShapeKind::Prefix { op, child } => seq![*child],
        ShapeKind::Binary { op, left, right } => seq![*left, *right],
        ShapeKind::Ternary { cond, then, else_ } => seq![*cond, *then, *else_],
        ShapeKind::Paren { inner } => seq![*inner],
        ShapeKind::Call { callee, args } => seq![*callee] + args,
        ShapeKind::Index { array, index } => seq![*array, *index],
        ShapeKind::Member { object, field } => seq![*object],
        ShapeKind::Missing => Seq::empty(),
        ShapeKind::Error { skipped } => Seq::empty(),
    }
}

/// The nodes of some trees.
pub open spec fn total(ts: Seq<Shape>) -> int
    decreases ts.len(),
{
    if ts.len() == 0 {
        0
    } else {
        total(ts.drop_last()) + node_count(ts.last())
    }
}

/// A tree has its root and the nodes of the trees below it, no matter what the root is.
pub proof fn law_counted(t: Shape)
    ensures
        node_count(t) == 1 + total(children(t)),
{
    reveal_with_fuel(total, 4);
    let ks = children(t);
    if let ShapeKind::Call { callee, args } = t.kind {
        lemma_total(*callee, args, args.len() as int);
        assert(args.take(args.len() as int) =~= args);
    } else if ks.len() == 1 {
        assert(ks.drop_last() =~= Seq::empty());
    } else if ks.len() == 2 {
        assert(ks.drop_last() =~= seq![ks[0]]);
        assert(seq![ks[0]].drop_last() =~= Seq::empty());
    } else if ks.len() == 3 {
        assert(ks.drop_last() =~= seq![ks[0], ks[1]]);
        assert(seq![ks[0], ks[1]].drop_last() =~= seq![ks[0]]);
        assert(seq![ks[0]].drop_last() =~= Seq::empty());
    }
}

proof fn lemma_total(first: Shape, args: Seq<Shape>, k: int)
    requires
        0 <= k <= args.len(),
    ensures
        total(seq![first] + args.take(k)) == node_count(first) + count_upto(args, k),
    decreases k,
{
    let ts = seq![first] + args.take(k);
    if k == 0 {
        reveal_with_fuel(total, 2);
        assert(ts =~= seq![first]);
        assert(ts.drop_last() =~= Seq::empty());
    } else {
        lemma_total(first, args, k - 1);
        assert(ts.drop_last() =~= seq![first] + args.take(k - 1));
        assert(ts.last() == args[k - 1]);
    }
}

} // verus!
