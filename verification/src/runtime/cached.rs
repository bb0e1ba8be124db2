//! Every subtree is found again under the byte it starts at.

use std::sync::Arc;

use vstd::prelude::*;

use crate::runtime::ast::{Node, NodeKind};
use crate::runtime::cache::starting;
use crate::runtime::cursor::{lemma_next_token, next_token};
use crate::runtime::grammar::stands;
use crate::runtime::table::Table;

verus! {

/// `m` is `n` or below it.
pub open spec fn within(n: Arc<Node>, m: Arc<Node>) -> bool
    decreases n,
{
    n == m || match n.kind {
        NodeKind::Atom(a) => false,
        NodeKind::Prefix { op, child } => within(child, m),
        NodeKind::Postfix { op, child } => within(child, m),
        NodeKind::Binary { op, left, right } => within(left, m) || within(right, m),
        NodeKind::Paren { inner } => within(inner, m),
    }
}

/// `m` is among the subtrees that start at byte `key`.
pub open spec fn filed(t: Table, b: Seq<u8>, s: int, n: Arc<Node>, key: u64, m: Arc<Node>) -> bool {
    starting(t, b, s, n, key).contains(m)
}

/// Every subtree but an atom is filed under the byte it starts at.
pub proof fn law_all_filed(t: Table, b: Seq<u8>, s: int, n: Arc<Node>, m: Arc<Node>)
    requires
        t.wf(),
        b.len() <= u32::MAX,
        stands(t, b, s, *n),
        within(n, m),
        !(m.kind is Atom),
    ensures
        exists|key: u64| #[trigger] filed(t, b, s, n, key, m),
    decreases n,
{
    let k = next_token(t, b, s);
    lemma_next_token(t, b, s);
    if n == m {
        let all = starting(t, b, s, n, s as u64);
        assert(all[0] == m);
        assert(filed(t, b, s, n, s as u64, m));
    } else {
        match n.kind {
            NodeKind::Atom(a) => {},
            NodeKind::Prefix { op, child } => {
                let c = next_token(t, b, k.end as int).start as int;
                assert(stands(t, b, c, *child));
                law_all_filed(t, b, c, child, m);
                let key = choose|key: u64| #[trigger] filed(t, b, c, child, key, m);
                lemma_inside(t, b, s, n, key, m, starting(t, b, c, child, key));
            },
            NodeKind::Postfix { op, child } => {
                assert(stands(t, b, s, *child));
                law_all_filed(t, b, s, child, m);
                let key = choose|key: u64| #[trigger] filed(t, b, s, child, key, m);
                lemma_inside(t, b, s, n, key, m, starting(t, b, s, child, key));
            },
            NodeKind::Binary { op, left, right } => {
                let o = next_token(t, b, s + left.width);
                let c = next_token(t, b, o.end as int).start as int;
                assert(stands(t, b, s, *left));
                assert(stands(t, b, c, *right));
                if within(left, m) {
                    law_all_filed(t, b, s, left, m);
                    let key = choose|key: u64| #[trigger] filed(t, b, s, left, key, m);
                    lemma_inside(t, b, s, n, key, m, starting(t, b, s, left, key));
                } else {
                    law_all_filed(t, b, c, right, m);
                    let key = choose|key: u64| #[trigger] filed(t, b, c, right, key, m);
                    lemma_inside(t, b, s, n, key, m, starting(t, b, c, right, key));
                }
            },
            NodeKind::Paren { inner } => {
                let c = next_token(t, b, k.end as int).start as int;
                assert(stands(t, b, c, *inner));
                law_all_filed(t, b, c, inner, m);
                let key = choose|key: u64| #[trigger] filed(t, b, c, inner, key, m);
                lemma_inside(t, b, s, n, key, m, starting(t, b, c, inner, key));
            },
        }
    }
}

/// A sequence holds another, in one piece.
spec fn has_run(all: Seq<Arc<Node>>, part: Seq<Arc<Node>>) -> bool {
    exists|d: int|
        0 <= d && d + part.len() <= all.len() && #[trigger] all.subrange(d, d + part.len()) == part
}

proof fn lemma_run(pre: Seq<Arc<Node>>, part: Seq<Arc<Node>>, post: Seq<Arc<Node>>)
    ensures
        has_run(pre + (part + post), part),
{
    let all = pre + (part + post);
    let d = pre.len() as int;
    assert(all.subrange(d, d + part.len()) =~= part);
}

proof fn lemma_inside(
    t: Table,
    b: Seq<u8>,
    s: int,
    n: Arc<Node>,
    key: u64,
    m: Arc<Node>,
    part: Seq<Arc<Node>>,
)
    requires
        part.contains(m),
        ({
            let k = next_token(t, b, s);
            match n.kind {
                NodeKind::Atom(a) => false,
                NodeKind::Prefix { op, child } => part == starting(
                    t,
                    b,
                    next_token(t, b, k.end as int).start as int,
                    child,
                    key,
                ),
                NodeKind::Postfix { op, child } => part == starting(t, b, s, child, key),
                NodeKind::Binary { op, left, right } => part == starting(t, b, s, left, key) || part
                    == starting(
                    t,
                    b,
                    next_token(t, b, next_token(t, b, s + left.width).end as int).start as int,
                    right,
                    key,
                ),
                NodeKind::Paren { inner } => part == starting(
                    t,
                    b,
                    next_token(t, b, k.end as int).start as int,
                    inner,
                    key,
                ),
            }
        }),
    ensures
        filed(t, b, s, n, key, m),
{
    let all = starting(t, b, s, n, key);
    let own = if s == key {
        seq![n]
    } else {
        Seq::empty()
    };
    let none = Seq::<Arc<Node>>::empty();
    lemma_run(own, part, none);
    assert(part + none =~= part);
    if let NodeKind::Binary { op, left, right } = n.kind {
        let c = next_token(t, b, next_token(t, b, s + left.width).end as int).start as int;
        let (x, y) = (starting(t, b, s, left, key), starting(t, b, c, right, key));
        lemma_run(own, x, y);
        lemma_run(own + x, y, none);
        assert(y + none =~= y);
        assert(own + x + y =~= own + (x + y));
    }
    let i = choose|i: int| 0 <= i < part.len() && part[i] == m;
    let d = choose|d: int|
        0 <= d && d + part.len() <= all.len() && #[trigger] all.subrange(d, d + part.len()) == part;
    assert(all[d + i] == all.subrange(d, d + part.len())[i]);
}

/// Nothing else is filed: no atom, and nothing that is not of the tree.
pub proof fn law_filed_is_subtree(
    t: Table,
    b: Seq<u8>,
    s: int,
    n: Arc<Node>,
    key: u64,
    m: Arc<Node>,
)
    requires
        filed(t, b, s, n, key, m),
    ensures
        within(n, m),
        !(m.kind is Atom),
    decreases n,
{
    let k = next_token(t, b, s);
    let all = starting(t, b, s, n, key);
    let own = if s == key {
        seq![n]
    } else {
        Seq::empty()
    };
    match n.kind {
        NodeKind::Atom(a) => {
            assert(all =~= Seq::empty());
        },
        NodeKind::Prefix { op, child } => if n != m {
            let c = next_token(t, b, k.end as int).start as int;
            lemma_either(own, starting(t, b, c, child, key), m);
            law_filed_is_subtree(t, b, c, child, key, m);
        },
        NodeKind::Postfix { op, child } => if n != m {
            lemma_either(own, starting(t, b, s, child, key), m);
            law_filed_is_subtree(t, b, s, child, key, m);
        },
        NodeKind::Binary { op, left, right } => if n != m {
            let o = next_token(t, b, s + left.width);
            let c = next_token(t, b, o.end as int).start as int;
            let (x, y) = (starting(t, b, s, left, key), starting(t, b, c, right, key));
            lemma_either(own, x + y, m);
            lemma_either(x, y, m);
            if x.contains(m) {
                law_filed_is_subtree(t, b, s, left, key, m);
            } else {
                law_filed_is_subtree(t, b, c, right, key, m);
            }
        },
        NodeKind::Paren { inner } => if n != m {
            let c = next_token(t, b, k.end as int).start as int;
            lemma_either(own, starting(t, b, c, inner, key), m);
            law_filed_is_subtree(t, b, c, inner, key, m);
        },
    }
}

proof fn lemma_either(x: Seq<Arc<Node>>, y: Seq<Arc<Node>>, m: Arc<Node>)
    requires
        (x + y).contains(m),
    ensures
        x.contains(m) || y.contains(m),
{
    let i = choose|i: int| 0 <= i < (x + y).len() && (x + y)[i] == m;
    if i < x.len() {
        assert(x[i] == m);
    } else {
        assert(y[i - x.len()] == m);
    }
}

} // verus!
