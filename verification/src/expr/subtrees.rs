//! The subtrees of a tree, as a set, and what becomes of them when a chain is
//! put together again.

use std::sync::Arc;
use vstd::prelude::*;

use crate::expr::ast::{same_kids, Node, NodeKind};
use crate::expr::chain_wb::{
    grown, law_concat_upto, lemma_grown, lemma_grown_levelled, lemma_grown_within,
    lemma_level, lemma_own_levelled, lemma_own_spine, lemma_upto_levelled, leaves_levelled, spine,
    Spine,
};
use crate::expr::lexer::TokenKind;
use crate::expr::naming::{is_kid, within};
use crate::expr::op::chain_kind;
use crate::expr::pratt_core::ChainOperand;
use crate::expr::shape::{
    flat, grouped, grouped_part, halved, is_bin, lemma_flat_nonempty, level, levelled, norm,
};
use crate::expr::splice_general::{joint, rejoined};
use crate::expr::walk::side_units;

verus! {

/// `n` and its subtrees.
#[verifier::opaque]
pub open spec fn subtrees(n: &Node) -> Set<Node> {
    Set::new(|c: Node| within(n, &c))
}

/// The subtrees of `n` below its root.
#[verifier::opaque]
pub open spec fn inner(n: &Node) -> Set<Node> {
    Set::new(|c: Node| exists|k: Node| #[trigger] is_kid(n, &k) && within(&k, &c))
}

/// The subtrees of operands `lo..hi`.
#[verifier::opaque]
pub open spec fn among(ops: Seq<ChainOperand>, lo: int, hi: int) -> Set<Node> {
    Set::new(
        |c: Node| exists|k: int| lo <= k < hi && 0 <= k < ops.len() && within(&*(#[trigger] ops[k]).node, &c),
    )
}

/// The largest subtrees of a chain that stand as they are.
#[verifier::opaque]
pub open spec fn held(s: Spine) -> Set<Node> {
    Set::new(|c: Node| s.keeps(&c))
}

/// A tree is one of its subtrees.
pub proof fn lemma_root(n: &Node)
    ensures
        subtrees(n).contains(*n),
        Set::<Node>::empty().insert(*n).subset_of(subtrees(n)),
{
    reveal(subtrees);
    assert(within(n, n));
}

/// What is below the root is in the tree.
pub proof fn lemma_inner(n: &Node)
    ensures
        inner(n).subset_of(subtrees(n)),
{
    reveal(subtrees);
    reveal(inner);
    assert forall|c: Node| inner(n).contains(c) implies subtrees(n).contains(c) by {
        let k = choose|k: Node| #[trigger] is_kid(n, &k) && within(&k, &c);
        match n.kind {
            NodeKind::Call { callee, args } => {
                if *callee != k {
                    let i = choose|i: int| 0 <= i < args@.len() && *(#[trigger] args@[i]) == k;
                    assert(within(&*args@[i], &c));
                }
            },
            _ => {},
        }
    }
}

/// The subtrees of a child are below the root.
pub proof fn lemma_kid(n: &Node, k: &Node)
    requires
        is_kid(n, k),
    ensures
        subtrees(k).subset_of(inner(n)),
{
    reveal(subtrees);
    reveal(inner);
    assert forall|c: Node| subtrees(k).contains(c) implies inner(n).contains(c) by {
        assert(is_kid(n, k) && within(k, &c));
    }
}

/// Nodes over the same children have the same subtrees below them.
pub proof fn lemma_inner_same(n: &Node, m: &Node)
    requires
        same_kids(n, m),
    ensures
        inner(n) == inner(m),
{
    reveal(inner);
    assert forall|c: Node| inner(n).contains(c) == inner(m).contains(c) by {
        if inner(n).contains(c) {
            let k = choose|k: Node| #[trigger] is_kid(n, &k) && within(&k, &c);
            assert(is_kid(m, &k));
        }
        if inner(m).contains(c) {
            let k = choose|k: Node| #[trigger] is_kid(m, &k) && within(&k, &c);
            assert(is_kid(n, &k));
        }
    }
    assert(inner(n) =~= inner(m));
}

pub proof fn lemma_among_one(ops: Seq<ChainOperand>, k: int)
    requires
        0 <= k < ops.len(),
    ensures
        among(ops, k, k + 1).subset_of(subtrees(&*ops[k].node)),
{
    reveal(subtrees);
    reveal(among);
}

pub proof fn lemma_among_split(ops: Seq<ChainOperand>, lo: int, mid: int, hi: int)
    ensures
        among(ops, lo, hi).subset_of(among(ops, lo, mid).union(among(ops, mid, hi))),
{
    reveal(among);
}

/// One more operand.
pub proof fn lemma_among_push(ops: Seq<ChainOperand>, u: ChainOperand, lo: int)
    requires
        0 <= lo <= ops.len(),
    ensures
        among(ops, lo, ops.len() as int).union(subtrees(&*u.node)).subset_of(
            among(ops.push(u), lo, (ops.len() + 1) as int),
        ),
        subtrees(&*u.node).subset_of(among(ops.push(u), lo, (ops.len() + 1) as int)),
{
    reveal(subtrees);
    reveal(among);
    let more = ops.push(u);
    assert forall|c: Node|
        among(ops, lo, ops.len() as int).union(subtrees(&*u.node)).contains(c) implies among(
        more,
        lo,
        (ops.len() + 1) as int,
    ).contains(c) by {
        if among(ops, lo, ops.len() as int).contains(c) {
            let k = choose|k: int| lo <= k < ops.len() && 0 <= k < ops.len() && within(&*(#[trigger] ops[k]).node, &c);
            assert(more[k] == ops[k]);
        } else {
            assert(more[ops.len() as int] == u);
        }
    }
}

/// The subtrees of one operand are among those of all.
pub proof fn lemma_among_first(ops: Seq<ChainOperand>, k: int, lo: int, hi: int)
    requires
        lo <= k < hi,
        0 <= k < ops.len(),
    ensures
        subtrees(&*ops[k].node).subset_of(among(ops, lo, hi)),
{
    reveal(subtrees);
    reveal(among);
}

/// So are those of the operands from one on.
pub proof fn lemma_among_more(ops: Seq<ChainOperand>, from: int, lo: int, hi: int)
    requires
        lo <= from,
    ensures
        among(ops, from, hi).subset_of(among(ops, lo, hi)),
{
    reveal(among);
}

/// The subtrees of some trees.
#[verifier::opaque]
pub open spec fn subtrees_in(ts: Seq<Arc<Node>>) -> Set<Node> {
    Set::new(|c: Node| exists|k: int| 0 <= k < ts.len() && within(&*(#[trigger] ts[k]), &c))
}

pub proof fn lemma_among_all(ops: Seq<ChainOperand>, ts: Seq<Arc<Node>>)
    requires
        ts.len() == ops.len(),
        forall|k: int| 0 <= k < ts.len() ==> #[trigger] ts[k] == ops[k].node,
    ensures
        among(ops, 0, ops.len() as int).subset_of(subtrees_in(ts)),
{
    reveal(among);
    reveal(subtrees_in);
    assert forall|c: Node| among(ops, 0, ops.len() as int).contains(c) implies subtrees_in(
        ts,
    ).contains(c) by {
        let k = choose|k: int|
            0 <= k < ops.len() && 0 <= k < ops.len() && within(&*(#[trigger] ops[k]).node, &c);
        assert(ts[k] == ops[k].node);
    }
}

/// The arguments of a call are below it.
pub proof fn lemma_args(n: &Node, args: Seq<Arc<Node>>)
    requires
        n.kind matches NodeKind::Call { args: v, .. } && v@ == args,
    ensures
        subtrees_in(args).subset_of(inner(n)),
{
    reveal(inner);
    reveal(subtrees_in);
    assert forall|c: Node| subtrees_in(args).contains(c) implies inner(n).contains(c) by {
        let k = choose|k: int| 0 <= k < args.len() && within(&*(#[trigger] args[k]), &c);
        assert(is_kid(n, &*args[k]));
    }
}

// ---- One operand of a chain replaced -----------------------------------

/// `n` forks as the chain tree `was` does, with the same metadata; `o` stands in
/// the place of operand `x`, and all beside the way to it stands as it was.
pub open spec fn respined(n: Arc<Node>, was: Arc<Node>, op: TokenKind, x: int, o: Arc<Node>) -> bool
    decreases was,
{
    match was.kind {
        NodeKind::Binary { op: w, left, right } => if w == op {
            &&& n.m_spine == was.m_spine
            &&& n.stop_lbp == was.stop_lbp
            &&& n.m_floor == was.m_floor
            &&& n.kind matches NodeKind::Binary { op: v, left: l, right: r } && v == op && if x < flat(
                left@,
                op,
            ).len() {
                respined(l, left, op, x, o) && r == right
            } else {
                l == left && respined(r, right, op, x - flat(left@, op).len(), o)
            }
        } else {
            n == o
        },
        _ => n == o,
    }
}

/// What stands beside the way to operand `x` of a chain tree.
pub open spec fn beside(was: Arc<Node>, op: TokenKind, x: int) -> Set<Node>
    decreases was,
{
    match was.kind {
        NodeKind::Binary { op: w, left, right } => if w == op {
            if x < flat(left@, op).len() {
                beside(left, op, x).insert(*right)
            } else {
                beside(right, op, x - flat(left@, op).len()).insert(*left)
            }
        } else {
            Set::empty()
        },
        _ => Set::empty(),
    }
}

/// All of it stands in the new tree.
pub proof fn lemma_beside(n: Arc<Node>, was: Arc<Node>, op: TokenKind, x: int, o: Arc<Node>)
    requires
        respined(n, was, op, x, o),
    ensures
        beside(was, op, x).subset_of(subtrees(&*n)),
        subtrees(&*o).subset_of(subtrees(&*n)),
    decreases was,
{
    if let NodeKind::Binary { op: w, left, right } = was.kind {
        if w == op {
            let k = flat(left@, op).len();
            if let NodeKind::Binary { op: v, left: l, right: r } = n.kind {
                lemma_inner(&*n);
                lemma_kid(&*n, &*l);
                lemma_kid(&*n, &*r);
                lemma_root(&*l);
                lemma_root(&*r);
                if x < k {
                    lemma_beside(l, left, op, x, o);
                } else {
                    lemma_beside(r, right, op, x - k, o);
                }
            }
        }
    }
}

/// The new tree has as many operands, and is as balanced.
pub proof fn lemma_respined(n: Arc<Node>, was: Arc<Node>, op: TokenKind, x: int, o: Arc<Node>)
    requires
        respined(n, was, op, x, o),
        0 <= x < flat(was@, op).len(),
        !is_bin(o@, op),
    ensures
        flat(n@, op) == flat(was@, op).update(x, norm(o@)),
        level(was@, op) ==> level(n@, op),
        chain_kind(op) && levelled(was@) && levelled(o@) ==> levelled(n@),
    decreases was,
{
    lemma_flat_nonempty(o@, op);
    if let NodeKind::Binary { op: w, left, right } = was.kind {
        if w == op {
            let k = flat(left@, op).len() as int;
            let (fl, fr) = (flat(left@, op), flat(right@, op));
            if let NodeKind::Binary { op: v, left: l, right: r } = n.kind {
                if x < k {
                    lemma_respined(l, left, op, x, o);
                    assert((fl + fr).update(x, norm(o@)) =~= fl.update(x, norm(o@)) + fr);
                } else {
                    lemma_respined(r, right, op, x - k, o);
                    assert((fl + fr).update(x, norm(o@)) =~= fl + fr.update(x - k, norm(o@)));
                }
            }
        } else {
            assert(seq![norm(was@)].update(x, norm(o@)) =~= seq![norm(o@)]);
        }
    } else {
        assert(seq![norm(was@)].update(x, norm(o@)) =~= seq![norm(o@)]);
    }
}

/// An operand grouped as a parse groups it, in the place of one before the same
/// binding power, keeps a chain grouped so.
pub proof fn lemma_respined_grouped(
    n: Arc<Node>,
    was: Arc<Node>,
    op: TokenKind,
    x: int,
    o: Arc<Node>,
)
    requires
        respined(n, was, op, x, o),
        0 <= x < flat(was@, op).len(),
        !is_bin(o@, op),
        chain_kind(op),
        norm(o@).stop_lbp == flat(was@, op)[x].stop_lbp,
        grouped(was@),
        grouped(o@),
    ensures
        grouped(n@),
        grouped_part(was@, op) ==> grouped_part(n@, op),
    decreases was,
{
    lemma_respined(n, was, op, x, o);
    lemma_flat_nonempty(was@, op);
    lemma_flat_nonempty(o@, op);
    if let NodeKind::Binary { op: w, left, right } = was.kind {
        if w == op {
            let k = flat(left@, op).len() as int;
            let (fl, fr) = (flat(left@, op), flat(right@, op));
            if let NodeKind::Binary { op: v, left: l, right: r } = n.kind {
                assert(halved(left@, right@, op));
                assert(grouped_part(left@, op) && grouped_part(right@, op));
                if x < k {
                    assert((fl + fr)[x] == fl[x]);
                    lemma_respined(l, left, op, x, o);
                    lemma_respined_grouped(l, left, op, x, o);
                } else {
                    assert((fl + fr)[x] == fr[x - k]);
                    lemma_respined(r, right, op, x - k, o);
                    lemma_respined_grouped(r, right, op, x - k, o);
                }
                assert(halved(l@, r@, op));
            }
        }
    }
}

// ---- A chain put together from units -----------------------------------

/// The units of a balanced chain are balanced.
pub proof fn lemma_units_level(
    node: Arc<Node>,
    s: int,
    e: int,
    e_lo: int,
    e_hi: int,
    op: TokenKind,
    before: bool,
)
    ensures
        level(node@, op) ==> forall|k: int|
            0 <= k < side_units(node, s, e, e_lo, e_hi, op, before).len() ==> level(
                (#[trigger] side_units(node, s, e, e_lo, e_hi, op, before)[k])@,
                op,
            ),
        levelled(node@) ==> forall|k: int|
            0 <= k < side_units(node, s, e, e_lo, e_hi, op, before).len() ==> levelled(
                (#[trigger] side_units(node, s, e, e_lo, e_hi, op, before)[k])@,
            ),
    decreases node,
{
    if !(e < e_lo) && !(s > e_hi) {
        if let NodeKind::Binary { op: o, left, right } = node.kind {
            if o == op {
                lemma_units_level(left, s, s + left.width, e_lo, e_hi, op, before);
                lemma_units_level(right, e - right.width, e, e_lo, e_hi, op, before);
                let x = side_units(left, s, s + left.width, e_lo, e_hi, op, before);
                let y = side_units(right, e - right.width, e, e_lo, e_hi, op, before);
                let z = side_units(node, s, e, e_lo, e_hi, op, before);
                assert(z == x + y);
                assert forall|k: int| 0 <= k < z.len() implies (level(node@, op) ==> level(
                    (#[trigger] z[k])@,
                    op,
                )) && (levelled(node@) ==> levelled(z[k]@)) by {
                    if k < x.len() {
                        assert(z[k] == x[k]);
                    } else {
                        assert(z[k] == y[k - x.len()]);
                    }
                }
            }
        }
    }
}

/// A chain put together from units and operands parsed again: what its spine
/// holds of the units stands in it, and all of the operands; it is balanced if
/// the units are.
pub proof fn lemma_rejoined(
    n: Arc<Node>,
    ls: Seq<Arc<Node>>,
    rs: Seq<Arc<Node>>,
    op: TokenKind,
    news: Seq<Arc<Node>>,
)
    requires
        chain_kind(op),
        grown(n, rejoined(ls, news.len() as int, rs, op), op, news),
        ls.len() + news.len() + rs.len() >= 1,
    ensures
        held(rejoined(ls, news.len() as int, rs, op)).subset_of(subtrees(&*n)),
        forall|k: int|
            0 <= k < news.len() ==> subtrees(&*(#[trigger] news[k])).subset_of(subtrees(&*n)),
        (forall|k: int| 0 <= k < ls.len() ==> level((#[trigger] ls[k])@, op)) && (forall|k: int|
            0 <= k < rs.len() ==> level((#[trigger] rs[k])@, op)) ==> level(n@, op),
        (forall|k: int| 0 <= k < ls.len() ==> levelled((#[trigger] ls[k])@)) && (forall|k: int|
            0 <= k < rs.len() ==> levelled((#[trigger] rs[k])@)) && (forall|k: int|
            0 <= k < news.len() ==> levelled((#[trigger] news[k])@)) ==> levelled(n@),
{
    reveal(subtrees);
    reveal(held);
    let m = news.len() as int;
    let ss = joint(ls, m, rs, op);
    let s = rejoined(ls, m, rs, op);
    let all = ss.len() as int;
    law_concat_upto(ss, all);
    assert forall|c: Node| held(s).contains(c) implies subtrees(&*n).contains(c) by {
        lemma_grown_within(n, s, op, news, &c);
    }
    assert forall|k: int| 0 <= k < m implies subtrees(&*(#[trigger] news[k])).subset_of(
        subtrees(&*n),
    ) by {
        let u = ss[ls.len() + k];
        assert(u == Spine::New(k));
        assert(u.leaves()[0] == u);
        assert(s.leaves().contains(ss[ls.len() + k].leaves()[0]));
        let h = choose|h: int| 0 <= h < s.leaves().len() && s.leaves()[h] == u;
        assert forall|c: Node| subtrees(&*news[k]).contains(c) implies subtrees(&*n).contains(c) by {
            lemma_grown_within(n, s, op, news, &c);
            assert(s.leaves()[h] == Spine::New(k));
        }
    }
    lemma_grown(n, s, op, news);
    if (forall|k: int| 0 <= k < ls.len() ==> level((#[trigger] ls[k])@, op)) && (forall|k: int|
        0 <= k < rs.len() ==> level((#[trigger] rs[k])@, op)) {
        lemma_joint_even(ls, m, rs, op);
    }
    if (forall|k: int| 0 <= k < ls.len() ==> levelled((#[trigger] ls[k])@)) && (forall|k: int|
        0 <= k < rs.len() ==> levelled((#[trigger] rs[k])@)) && (forall|k: int|
        0 <= k < news.len() ==> levelled((#[trigger] news[k])@)) {
        assert forall|k: int| 0 <= k < ls.len() implies level((#[trigger] ls[k])@, op) by {
            lemma_level(ls[k]@, op);
        }
        assert forall|k: int| 0 <= k < rs.len() implies level((#[trigger] rs[k])@, op) by {
            lemma_level(rs[k]@, op);
        }
        lemma_joint_even(ls, m, rs, op);
        assert forall|i: int| 0 <= i < all implies leaves_levelled(#[trigger] ss[i], news) by {
            if i < ls.len() {
                lemma_own_levelled(ls[i], op, news);
            } else if i < ls.len() + m {
                assert(levelled(news[i - ls.len()]@));
                assert(ss[i] == Spine::New(i - ls.len()));
                assert(ss[i].leaves() =~= seq![ss[i]]);
            } else {
                lemma_own_levelled(rs[i - ls.len() - m], op, news);
            }
        }
        lemma_upto_levelled(ss, all, news);
        lemma_grown_levelled(n, s, op, news);
    }
}

proof fn lemma_joint_even(ls: Seq<Arc<Node>>, m: int, rs: Seq<Arc<Node>>, op: TokenKind)
    requires
        0 <= m,
        ls.len() + m + rs.len() >= 1,
        forall|k: int| 0 <= k < ls.len() ==> level((#[trigger] ls[k])@, op),
        forall|k: int| 0 <= k < rs.len() ==> level((#[trigger] rs[k])@, op),
    ensures
        rejoined(ls, m, rs, op).even(),
{
    let ss = joint(ls, m, rs, op);
    assert forall|i: int| 0 <= i < ss.len() implies (#[trigger] ss[i]).even() by {
        if i < ls.len() {
            lemma_own_spine(ls[i], op, ls);
            lemma_grown(ls[i], spine(ls[i], op), op, ls);
        } else if i >= ls.len() + m {
            let k = i - ls.len() - m;
            lemma_own_spine(rs[k], op, rs);
            lemma_grown(rs[k], spine(rs[k], op), op, rs);
        }
    }
    law_concat_upto(ss, ss.len() as int);
}

/// The operands of a chain tree.
pub open spec fn operands(n: Arc<Node>, op: TokenKind) -> Set<Node>
    decreases n,
{
    match n.kind {
        NodeKind::Binary { op: o, left, right } => if o == op {
            operands(left, op).union(operands(right, op))
        } else {
            Set::empty().insert(*n)
        },
        _ => Set::empty().insert(*n),
    }
}

/// The operands of some chain trees.
#[verifier::opaque]
pub open spec fn operands_in(us: Seq<Arc<Node>>, op: TokenKind) -> Set<Node> {
    Set::new(
        |c: Node| exists|k: int| 0 <= k < us.len() && operands(#[trigger] us[k], op).contains(c),
    )
}

proof fn lemma_operand_leaf(n: Arc<Node>, op: TokenKind, c: Node) -> (r: (int, Arc<Node>))
    requires
        operands(n, op).contains(c),
    ensures
        0 <= r.0 < spine(n, op).leaves().len(),
        spine(n, op).leaves()[r.0] == Spine::Leaf(r.1),
        *r.1 == c,
    decreases n,
{
    if let NodeKind::Binary { op: o, left, right } = n.kind {
        if o == op {
            let x = spine(left, op).leaves();
            let y = spine(right, op).leaves();
            assert(spine(n, op).leaves() == x + y);
            if operands(left, op).contains(c) {
                let (j, a) = lemma_operand_leaf(left, op, c);
                assert((x + y)[j] == x[j]);
                (j, a)
            } else {
                let (j, a) = lemma_operand_leaf(right, op, c);
                assert((x + y)[x.len() + j] == y[j]);
                (x.len() + j, a)
            }
        } else {
            (0, n)
        }
    } else {
        (0, n)
    }
}

/// Every operand of every unit stands in the chain that is put together from
/// them, as it is.
pub proof fn law_operands_stand(
    n: Arc<Node>,
    ls: Seq<Arc<Node>>,
    rs: Seq<Arc<Node>>,
    op: TokenKind,
    news: Seq<Arc<Node>>,
)
    requires
        grown(n, rejoined(ls, news.len() as int, rs, op), op, news),
    ensures
        operands_in(ls + rs, op).subset_of(subtrees(&*n)),
{
    reveal(subtrees);
    reveal(operands_in);
    let m = news.len() as int;
    let ss = joint(ls, m, rs, op);
    let s = rejoined(ls, m, rs, op);
    assert forall|c: Node| operands_in(ls + rs, op).contains(c) implies subtrees(&*n).contains(c) by {
        let k = choose|k: int|
            0 <= k < (ls + rs).len() && operands(#[trigger] (ls + rs)[k], op).contains(c);
        let (j, o) = lemma_operand_leaf((ls + rs)[k], op, c);
        law_concat_upto(ss, ss.len() as int);
        let i = if k < ls.len() {
            k
        } else {
            k + m
        };
        assert(ss[i] == spine((ls + rs)[k], op));
        assert(s.leaves().contains(ss[i].leaves()[j]));
        let h = choose|h: int| 0 <= h < s.leaves().len() && s.leaves()[h] == Spine::Leaf(o);
        lemma_grown_within(n, s, op, news, &c);
        assert(s.leaves()[h] == Spine::Leaf(o));
        assert(within(&*o, &c));
    }
}

} // verus!
