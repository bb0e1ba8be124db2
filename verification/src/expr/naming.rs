//! Identities: which nodes of a tree are newly named, and that a name tells
//! what it names.

use std::sync::Arc;
use vstd::prelude::*;

use crate::expr::ast::{occurs, same_kids, Node, NodeKind, Shape};
use crate::expr::cache::ReuseCache;
use crate::expr::pratt_core::ChainOperand;
use crate::expr::semantics_ctx::named;

verus! {

/// `c` is `n` or a subtree of it.
pub open spec fn within(n: &Node, c: &Node) -> bool
    decreases n,
{
    ||| *n == *c
    ||| match n.kind {
        NodeKind::Atom(s) => false,
        NodeKind::Prefix { op, child } => within(&*child, c),
        NodeKind::Binary { op, left, right } => within(&*left, c) || within(&*right, c),
        NodeKind::Ternary { cond, then, else_ } => within(&*cond, c)
            || within(&*then, c)
            || within(&*else_, c),
        NodeKind::Paren { inner } => within(&*inner, c),
        NodeKind::Call { callee, args } => within(&*callee, c) || exists|i: int|
            0 <= i < args@.len() && within(&*(#[trigger] args@[i]), c),
        NodeKind::Index { array, index } => within(&*array, c) || within(&*index, c),
        NodeKind::Member { object, field } => within(&*object, c),
        NodeKind::Missing => false,
        NodeKind::Error { skipped } => false,
    }
}

/// `n` is a subtree that is cached.
#[verifier::opaque]
pub open spec fn from_cache<'a>(cache: Option<&'a ReuseCache>, n: &Node) -> bool {
    cache matches Some(r) && exists|key: u64, j: int|
        0 <= j < r.by_byte.cands(key).len() && within(&*(#[trigger] r.by_byte.cands(key)[j]), n)
}

/// `id` is the identity of a node of `n` that is not cached.
#[verifier::opaque]
pub open spec fn mints<'a>(cache: Option<&'a ReuseCache>, n: &Node, id: u64) -> bool
    decreases n,
{
    !from_cache(cache, n) && id != 0 && (n.id.0 == id || match n.kind {
        NodeKind::Atom(s) => false,
        NodeKind::Prefix { op, child } => mints(cache, &*child, id),
        NodeKind::Binary { op, left, right } => mints(cache, &*left, id) || mints(cache, &*right, id),
        NodeKind::Ternary { cond, then, else_ } => mints(cache, &*cond, id)
            || mints(cache, &*then, id)
            || mints(cache, &*else_, id),
        NodeKind::Paren { inner } => mints(cache, &*inner, id),
        NodeKind::Call { callee, args } => mints(cache, &*callee, id) || exists|i: int|
            0 <= i < args@.len() && mints(cache, &*(#[trigger] args@[i]), id),
        NodeKind::Index { array, index } => mints(cache, &*array, id) || mints(cache, &*index, id),
        NodeKind::Member { object, field } => mints(cache, &*object, id),
        NodeKind::Missing => false,
        NodeKind::Error { skipped } => false,
    })
}

/// No new identity is shared.
pub open spec fn apart<'a>(cache: Option<&'a ReuseCache>, x: &Node, y: &Node) -> bool {
    forall|id: u64| #[trigger] mints(cache, x, id) ==> !mints(cache, y, id)
}

/// `id` is an identity from `lo` up to `hi`, or none, from a source that names
/// nothing or has nothing left.
pub open spec fn numbered(id: u64, lo: u64, hi: u64) -> bool {
    if id == 0 {
        hi == 0 || hi == u64::MAX
    } else {
        lo <= id < hi
    }
}

/// The children of `n` have identities of their own, from `lo` up to `hi`.
pub open spec fn kids_fresh<'a>(cache: Option<&'a ReuseCache>, n: &Node, lo: u64, hi: u64) -> bool
{
    match n.kind {
        NodeKind::Atom(s) => true,
        NodeKind::Prefix { op, child } => minted(cache, &*child, lo, hi),
        NodeKind::Binary { op, left, right } => minted(cache, &*left, lo, hi)
            && minted(cache, &*right, lo, hi)
            && apart(cache, &*left, &*right),
        NodeKind::Ternary { cond, then, else_ } => minted(cache, &*cond, lo, hi)
            && minted(cache, &*then, lo, hi)
            && minted(cache, &*else_, lo, hi)
            && apart(cache, &*cond, &*then)
            && apart(cache, &*cond, &*else_)
            && apart(cache, &*then, &*else_),
        NodeKind::Paren { inner } => minted(cache, &*inner, lo, hi),
        NodeKind::Call { callee, args } => {
            &&& minted(cache, &*callee, lo, hi)
            &&& forall|i: int| 0 <= i < args@.len() ==> minted(cache, &*(#[trigger] args@[i]), lo, hi)
            &&& forall|i: int| 0 <= i < args@.len() ==> apart(cache, &*callee, &*(#[trigger] args@[i]))
            &&& forall|i: int, j: int|
                0 <= i < j < args@.len() ==> apart(
                    cache,
                    &*(#[trigger] args@[i]),
                    &*(#[trigger] args@[j]),
                )
        },
        NodeKind::Index { array, index } => minted(cache, &*array, lo, hi)
            && minted(cache, &*index, lo, hi)
            && apart(cache, &*array, &*index),
        NodeKind::Member { object, field } => minted(cache, &*object, lo, hi),
        NodeKind::Missing => true,
        NodeKind::Error { skipped } => true,
    }
}

/// `kids_fresh`, for the recursion.
pub open spec fn kids_minted<'a>(cache: Option<&'a ReuseCache>, n: &Node, lo: u64, hi: u64) -> bool
    decreases n, 0int,
{
    match n.kind {
        NodeKind::Atom(s) => true,
        NodeKind::Prefix { op, child } => minted(cache, &*child, lo, hi),
        NodeKind::Binary { op, left, right } => minted(cache, &*left, lo, hi)
            && minted(cache, &*right, lo, hi)
            && apart(cache, &*left, &*right),
        NodeKind::Ternary { cond, then, else_ } => minted(cache, &*cond, lo, hi)
            && minted(cache, &*then, lo, hi)
            && minted(cache, &*else_, lo, hi)
            && apart(cache, &*cond, &*then)
            && apart(cache, &*cond, &*else_)
            && apart(cache, &*then, &*else_),
        NodeKind::Paren { inner } => minted(cache, &*inner, lo, hi),
        NodeKind::Call { callee, args } => {
            &&& minted(cache, &*callee, lo, hi)
            &&& forall|i: int| 0 <= i < args@.len() ==> minted(cache, &*(#[trigger] args@[i]), lo, hi)
            &&& forall|i: int| 0 <= i < args@.len() ==> apart(cache, &*callee, &*(#[trigger] args@[i]))
            &&& forall|i: int, j: int|
                0 <= i < j < args@.len() ==> apart(
                    cache,
                    &*(#[trigger] args@[i]),
                    &*(#[trigger] args@[j]),
                )
        },
        NodeKind::Index { array, index } => minted(cache, &*array, lo, hi)
            && minted(cache, &*index, lo, hi)
            && apart(cache, &*array, &*index),
        NodeKind::Member { object, field } => minted(cache, &*object, lo, hi),
        NodeKind::Missing => true,
        NodeKind::Error { skipped } => true,
    }
}

/// Node `n` and those below it that are not cached have identities of their
/// own, from `lo` up to `hi`, or none.
#[verifier::opaque]
pub open spec fn built<'a>(cache: Option<&'a ReuseCache>, n: &Node, lo: u64, hi: u64) -> bool
    decreases n, 1int,
{
    &&& kids_minted(cache, n, lo, hi)
    &&& numbered(n.id.0, lo, hi)
    &&& n.id.0 != 0 ==> !kids_mint(cache, n, n.id.0)
}

/// `id` is a new identity below `n`.
pub open spec fn kids_mint<'a>(cache: Option<&'a ReuseCache>, n: &Node, id: u64) -> bool {
    match n.kind {
        NodeKind::Atom(s) => false,
        NodeKind::Prefix { op, child } => mints(cache, &*child, id),
        NodeKind::Binary { op, left, right } => mints(cache, &*left, id) || mints(cache, &*right, id),
        NodeKind::Ternary { cond, then, else_ } => mints(cache, &*cond, id)
            || mints(cache, &*then, id)
            || mints(cache, &*else_, id),
        NodeKind::Paren { inner } => mints(cache, &*inner, id),
        NodeKind::Call { callee, args } => mints(cache, &*callee, id) || exists|i: int|
            0 <= i < args@.len() && mints(cache, &*(#[trigger] args@[i]), id),
        NodeKind::Index { array, index } => mints(cache, &*array, id) || mints(cache, &*index, id),
        NodeKind::Member { object, field } => mints(cache, &*object, id),
        NodeKind::Missing => false,
        NodeKind::Error { skipped } => false,
    }
}

/// The nodes of `n` that are not cached have identities of their own, from
/// `lo` up to `hi`, or none.
#[verifier::opaque]
pub open spec fn minted<'a>(cache: Option<&'a ReuseCache>, n: &Node, lo: u64, hi: u64) -> bool
    decreases n, 2int,
{
    from_cache(cache, n) || built(cache, n, lo, hi)
}

/// What a tree's parts say of it.
proof fn lemma_open<'a>(cache: Option<&'a ReuseCache>, n: &Node, lo: u64, hi: u64)
    ensures
        minted(cache, n, lo, hi) == (from_cache(cache, n) || built(cache, n, lo, hi)),
        built(cache, n, lo, hi) == (kids_fresh(cache, n, lo, hi) && numbered(n.id.0, lo, hi) && (
        n.id.0 != 0 ==> !kids_mint(cache, n, n.id.0))),
        forall|id: u64| #[trigger]
            mints(cache, n, id) == (!from_cache(cache, n) && id != 0 && (n.id.0 == id || kids_mint(
                cache,
                n,
                id,
            ))),
{
    reveal(minted);
    reveal(built);
    reveal(mints);
    reveal_with_fuel(kids_minted, 2);
    assert forall|id: u64| #[trigger]
        mints(cache, n, id) == (!from_cache(cache, n) && id != 0 && (n.id.0 == id || kids_mint(
            cache,
            n,
            id,
        ))) by {}
}

/// No identity is no new identity.
proof fn lemma_nonzero<'a>(cache: Option<&'a ReuseCache>, n: &Node)
    ensures
        forall|id: u64| #[trigger] mints(cache, n, id) ==> id != 0,
{
    reveal(mints);
}

/// New identities are those of the range; a wider range does as well.
pub proof fn lemma_range<'a>(
    cache: Option<&'a ReuseCache>,
    n: &Node,
    lo: u64,
    hi: u64,
    lo2: u64,
    hi2: u64,
)
    requires
        minted(cache, n, lo, hi),
        lo2 <= lo,
        hi <= hi2,
        hi == 0 ==> hi2 == 0,
    ensures
        forall|id: u64| #[trigger] mints(cache, n, id) ==> lo <= id < hi,
        minted(cache, n, lo2, hi2),
        built(cache, n, lo, hi) ==> built(cache, n, lo2, hi2),
    decreases n,
{
    lemma_open(cache, n, lo, hi);
    lemma_open(cache, n, lo2, hi2);
    if built(cache, n, lo, hi) {
        match &n.kind {
            NodeKind::Prefix { op, child } => {
                lemma_range(cache, &**child, lo, hi, lo2, hi2);
            },
            NodeKind::Binary { op, left, right } => {
                lemma_range(cache, &**left, lo, hi, lo2, hi2);
                lemma_range(cache, &**right, lo, hi, lo2, hi2);
            },
            NodeKind::Ternary { cond, then, else_ } => {
                lemma_range(cache, &**cond, lo, hi, lo2, hi2);
                lemma_range(cache, &**then, lo, hi, lo2, hi2);
                lemma_range(cache, &**else_, lo, hi, lo2, hi2);
            },
            NodeKind::Paren { inner } => {
                lemma_range(cache, &**inner, lo, hi, lo2, hi2);
            },
            NodeKind::Index { array, index } => {
                lemma_range(cache, &**array, lo, hi, lo2, hi2);
                lemma_range(cache, &**index, lo, hi, lo2, hi2);
            },
            NodeKind::Member { object, field } => {
                lemma_range(cache, &**object, lo, hi, lo2, hi2);
            },
            NodeKind::Call { callee, args } => {
                lemma_range(cache, &**callee, lo, hi, lo2, hi2);
                assert forall|i: int| 0 <= i < args@.len() implies minted(
                    cache,
                    &*(#[trigger] args@[i]),
                    lo2,
                    hi2,
                ) && (forall|id: u64| #[trigger]
                    mints(cache, &*args@[i], id) ==> lo <= id < hi) by {
                    lemma_range(cache, &*args@[i], lo, hi, lo2, hi2);
                }
            },
            _ => {},
        }
    }
}

/// A cached subtree names nothing new.
pub proof fn lemma_cached<'a>(cache: Option<&'a ReuseCache>, n: &Node, lo: u64, hi: u64)
    requires
        from_cache(cache, n),
    ensures
        minted(cache, n, lo, hi),
        forall|id: u64| !#[trigger] mints(cache, n, id),
{
    lemma_open(cache, n, lo, hi);
}

/// A node over children with identities from `lo` up to `mid`, itself named
/// after them.
pub proof fn lemma_build<'a>(cache: Option<&'a ReuseCache>, n: &Node, lo: u64, mid: u64, hi: u64)
    requires
        lo <= mid <= hi,
        kids_fresh(cache, n, lo, mid),
        numbered(n.id.0, mid, hi),
        mid == 0 ==> hi == 0,
    ensures
        built(cache, n, lo, hi),
        minted(cache, n, lo, hi),
        forall|id: u64| #[trigger]
            mints(cache, n, id) ==> id != 0 && (n.id.0 == id || kids_mint(cache, n, id)),
{
    lemma_open(cache, n, lo, hi);
    match &n.kind {
        NodeKind::Prefix { op, child } => {
            lemma_range(cache, &**child, lo, mid, lo, hi);
        },
        NodeKind::Binary { op, left, right } => {
            lemma_range(cache, &**left, lo, mid, lo, hi);
            lemma_range(cache, &**right, lo, mid, lo, hi);
        },
        NodeKind::Ternary { cond, then, else_ } => {
            lemma_range(cache, &**cond, lo, mid, lo, hi);
            lemma_range(cache, &**then, lo, mid, lo, hi);
            lemma_range(cache, &**else_, lo, mid, lo, hi);
        },
        NodeKind::Paren { inner } => {
            lemma_range(cache, &**inner, lo, mid, lo, hi);
        },
        NodeKind::Index { array, index } => {
            lemma_range(cache, &**array, lo, mid, lo, hi);
            lemma_range(cache, &**index, lo, mid, lo, hi);
        },
        NodeKind::Member { object, field } => {
            lemma_range(cache, &**object, lo, mid, lo, hi);
        },
        NodeKind::Call { callee, args } => {
            lemma_range(cache, &**callee, lo, mid, lo, hi);
            assert forall|i: int| 0 <= i < args@.len() implies minted(
                cache,
                &*(#[trigger] args@[i]),
                lo,
                hi,
            ) && (forall|id: u64| #[trigger] mints(cache, &*args@[i], id) ==> lo <= id < mid) by {
                lemma_range(cache, &*args@[i], lo, mid, lo, hi);
            }
        },
        _ => {},
    }
}

/// The same node with other metadata.
pub proof fn lemma_rebuilt<'a>(cache: Option<&'a ReuseCache>, n: &Node, m: &Node, lo: u64, hi: u64)
    requires
        built(cache, n, lo, hi),
        same_kids(n, m),
        m.id == n.id,
    ensures
        built(cache, m, lo, hi),
        minted(cache, m, lo, hi),
        minted(cache, n, lo, hi),
{
    lemma_open(cache, n, lo, hi);
    lemma_open(cache, m, lo, hi);
}

/// Identities of one range and those of a later one are apart.
pub proof fn lemma_apart<'a>(
    cache: Option<&'a ReuseCache>,
    x: &Node,
    y: &Node,
    lo: u64,
    mid: u64,
    hi: u64,
)
    requires
        minted(cache, x, lo, mid),
        minted(cache, y, mid, hi),
    ensures
        apart(cache, x, y),
        apart(cache, y, x),
{
    lemma_range(cache, x, lo, mid, lo, mid);
    lemma_range(cache, y, mid, hi, mid, hi);
}

/// Nodes with identities of their own, from `lo` up to `hi`.
#[verifier::opaque]
pub open spec fn all_minted<'a>(
    cache: Option<&'a ReuseCache>,
    ops: Seq<ChainOperand>,
    lo: u64,
    hi: u64,
) -> bool {
    &&& forall|i: int| 0 <= i < ops.len() ==> minted(cache, &*(#[trigger] ops[i]).node, lo, hi)
    &&& forall|i: int, j: int|
        0 <= i < j < ops.len() ==> apart(
            cache,
            &*(#[trigger] ops[i]).node,
            &*(#[trigger] ops[j]).node,
        )
}

/// One more node, named after the others.
pub proof fn lemma_all_push<'a>(
    cache: Option<&'a ReuseCache>,
    ops: Seq<ChainOperand>,
    u: ChainOperand,
    lo: u64,
    mid: u64,
    hi: u64,
)
    requires
        lo <= mid <= hi,
        mid == 0 ==> hi == 0,
        all_minted(cache, ops, lo, mid),
        minted(cache, &*u.node, mid, hi),
    ensures
        all_minted(cache, ops.push(u), lo, hi),
{
    reveal(all_minted);
    let vs = ops.push(u);
    lemma_range(cache, &*u.node, mid, hi, lo, hi);
    assert forall|i: int| 0 <= i < vs.len() implies minted(
        cache,
        &*(#[trigger] vs[i]).node,
        lo,
        hi,
    ) by {
        if i < ops.len() {
            assert(vs[i] == ops[i]);
            lemma_range(cache, &*ops[i].node, lo, mid, lo, hi);
        }
    }
    assert forall|i: int, j: int| 0 <= i < j < vs.len() implies apart(
        cache,
        &*(#[trigger] vs[i]).node,
        &*(#[trigger] vs[j]).node,
    ) by {
        assert(vs[i] == ops[i]);
        if j < ops.len() {
            assert(vs[j] == ops[j]);
        } else {
            lemma_apart(cache, &*ops[i].node, &*u.node, lo, mid, hi);
        }
    }
}

/// What is minted of the parts of a chain.
pub open spec fn drawn<'a>(
    cache: Option<&'a ReuseCache>,
    ops: Seq<ChainOperand>,
    i: int,
    j: int,
    id: u64,
) -> bool {
    exists|k: int| i <= k < j && mints(cache, &*(#[trigger] ops[k]).node, id)
}

/// A wider range does as well.
pub proof fn lemma_all_range<'a>(
    cache: Option<&'a ReuseCache>,
    ops: Seq<ChainOperand>,
    lo: u64,
    hi: u64,
    hi2: u64,
)
    requires
        all_minted(cache, ops, lo, hi),
        hi <= hi2,
        hi == 0 ==> hi2 == 0,
    ensures
        all_minted(cache, ops, lo, hi2),
{
    reveal(all_minted);
    assert forall|i: int| 0 <= i < ops.len() implies minted(
        cache,
        &*(#[trigger] ops[i]).node,
        lo,
        hi2,
    ) by {
        lemma_range(cache, &*ops[i].node, lo, hi, lo, hi2);
    }
}

/// One of the nodes.
pub proof fn lemma_all_one<'a>(
    cache: Option<&'a ReuseCache>,
    ops: Seq<ChainOperand>,
    lo: u64,
    hi: u64,
    k: int,
)
    requires
        all_minted(cache, ops, lo, hi),
        0 <= k < ops.len(),
    ensures
        minted(cache, &*ops[k].node, lo, hi),
{
    reveal(all_minted);
}

/// Two stretches of a chain, the right one joined after the left one, share no
/// new identity.
pub proof fn lemma_halves_apart<'a>(
    cache: Option<&'a ReuseCache>,
    ops: Seq<ChainOperand>,
    i: int,
    k: int,
    j: int,
    l: &Node,
    r: &Node,
    lo: u64,
    a: u64,
    b: u64,
    c: u64,
)
    requires
        0 <= i <= k <= j <= ops.len(),
        a <= b <= c,
        all_minted(cache, ops, lo, a),
        forall|id: u64| #[trigger]
            mints(cache, l, id) ==> a <= id < b || drawn(cache, ops, i, k, id),
        forall|id: u64| #[trigger]
            mints(cache, r, id) ==> b <= id < c || drawn(cache, ops, k, j, id),
    ensures
        apart(cache, l, r),
{
    reveal(all_minted);
    assert forall|id: u64| #[trigger] mints(cache, l, id) implies !mints(cache, r, id) by {
        if mints(cache, r, id) {
            if drawn(cache, ops, i, k, id) {
                let x = choose|x: int| i <= x < k && mints(cache, &*(#[trigger] ops[x]).node, id);
                lemma_range(cache, &*ops[x].node, lo, a, lo, a);
                if drawn(cache, ops, k, j, id) {
                    let y = choose|y: int|
                        k <= y < j && mints(cache, &*(#[trigger] ops[y]).node, id);
                    assert(apart(cache, &*ops[x].node, &*ops[y].node));
                }
            } else if drawn(cache, ops, k, j, id) {
                let y = choose|y: int| k <= y < j && mints(cache, &*(#[trigger] ops[y]).node, id);
                lemma_range(cache, &*ops[y].node, lo, a, lo, a);
            }
        }
    }
}

/// A child of a tree with identities of its own.
pub proof fn lemma_pair<'a>(cache: Option<&'a ReuseCache>, n: &Node, lo: u64, hi: u64)
    requires
        minted(cache, n, lo, hi),
    ensures
        n.kind matches NodeKind::Binary { op, left, right } ==> {
            &&& minted(cache, &*left, lo, hi)
            &&& minted(cache, &*right, lo, hi)
            &&& apart(cache, &*left, &*right)
            &&& forall|id: u64| #[trigger] mints(cache, &*left, id) ==> mints(cache, n, id)
            &&& forall|id: u64| #[trigger] mints(cache, &*right, id) ==> mints(cache, n, id)
        },
{
    lemma_open(cache, n, lo, hi);
    if let NodeKind::Binary { op, left, right } = &n.kind {
        lemma_nonzero(cache, &**left);
        lemma_nonzero(cache, &**right);
        if from_cache(cache, n) {
            lemma_kid_cached(cache, n, &**left);
            lemma_kid_cached(cache, n, &**right);
            lemma_cached(cache, &**left, lo, hi);
            lemma_cached(cache, &**right, lo, hi);
        }
    }
}

/// The nodes kept before an edit, those parsed anew and those kept after it.
pub proof fn lemma_gathered<'a>(
    cache: Option<&'a ReuseCache>,
    left: Seq<ChainOperand>,
    mid: Seq<ChainOperand>,
    right: Seq<ChainOperand>,
    all: Seq<ChainOperand>,
    lo: u64,
    hi: u64,
)
    requires
        all.len() == left.len() + mid.len() + right.len(),
        forall|k: int| 0 <= k < left.len() ==> (#[trigger] all[k]).node == left[k].node,
        forall|k: int|
            left.len() <= k < left.len() + mid.len() ==> (#[trigger] all[k]).node == mid[k
                - left.len()].node,
        forall|k: int|
            left.len() + mid.len() <= k < all.len() ==> (#[trigger] all[k]).node == right[k
                - left.len() - mid.len()].node,
        all_minted(cache, mid, lo, hi),
        all_cached(cache, left),
        all_cached(cache, right),
    ensures
        all_minted(cache, all, lo, hi),
{
    reveal(all_minted);
    reveal(all_cached);
    let n = left.len() as int;
    let m = mid.len() as int;
    assert forall|i: int| 0 <= i < all.len() implies {
        &&& minted(cache, &*(#[trigger] all[i]).node, lo, hi)
        &&& i < n || i >= n + m ==> forall|id: u64| !#[trigger] mints(cache, &*all[i].node, id)
    } by {
        if i < n {
            assert(from_cache(cache, &*left[i].node));
            lemma_cached(cache, &*all[i].node, lo, hi);
        } else if i < n + m {
            assert(minted(cache, &*mid[i - n].node, lo, hi));
        } else {
            assert(from_cache(cache, &*right[i - n - m].node));
            lemma_cached(cache, &*all[i].node, lo, hi);
        }
    }
    assert forall|i: int, j: int| 0 <= i < j < all.len() implies apart(
        cache,
        &*(#[trigger] all[i]).node,
        &*(#[trigger] all[j]).node,
    ) by {
        if n <= i && j < n + m {
            assert(apart(cache, &*mid[i - n].node, &*mid[j - n].node));
        }
    }
}

/// The nodes are cached.
#[verifier::opaque]
pub open spec fn all_cached<'a>(cache: Option<&'a ReuseCache>, ops: Seq<ChainOperand>) -> bool {
    forall|k: int| 0 <= k < ops.len() ==> from_cache(cache, &*(#[trigger] ops[k]).node)
}

/// One node.
pub proof fn lemma_all_single<'a>(
    cache: Option<&'a ReuseCache>,
    u: ChainOperand,
    lo: u64,
    hi: u64,
)
    requires
        minted(cache, &*u.node, lo, hi),
    ensures
        all_minted(cache, seq![u], lo, hi),
{
    reveal(all_minted);
}

/// Two stretches of a chain under one node.
pub proof fn lemma_joined<'a>(
    cache: Option<&'a ReuseCache>,
    ops: Seq<ChainOperand>,
    i: int,
    k: int,
    j: int,
    l: Arc<Node>,
    r: Arc<Node>,
    n: &Node,
    lo: u64,
    a: u64,
    b: u64,
    c: u64,
    d: u64,
)
    requires
        0 <= i <= k <= j <= ops.len(),
        lo <= a <= b <= c <= d,
        b == 0 ==> c == 0,
        c == 0 ==> d == 0,
        all_minted(cache, ops, lo, a),
        minted(cache, &*l, lo, b),
        minted(cache, &*r, lo, c),
        forall|id: u64| #[trigger]
            mints(cache, &*l, id) ==> a <= id < b || drawn(cache, ops, i, k, id),
        forall|id: u64| #[trigger]
            mints(cache, &*r, id) ==> b <= id < c || drawn(cache, ops, k, j, id),
        n.kind matches NodeKind::Binary { op, left, right } && left == l && right == r,
        numbered(n.id.0, c, d),
    ensures
        built(cache, n, lo, d),
        minted(cache, n, lo, d),
        forall|id: u64| #[trigger]
            mints(cache, n, id) ==> a <= id < d || drawn(cache, ops, i, j, id),
{
    lemma_halves_apart(cache, ops, i, k, j, &*l, &*r, lo, a, b, c);
    lemma_range(cache, &*l, lo, b, lo, c);
    lemma_build(cache, n, lo, c, d);
    assert forall|id: u64| #[trigger] mints(cache, n, id) implies a <= id < d || drawn(
        cache,
        ops,
        i,
        j,
        id,
    ) by {
        if drawn(cache, ops, i, k, id) {
            let x = choose|x: int| i <= x < k && mints(cache, &*(#[trigger] ops[x]).node, id);
            assert(mints(cache, &*ops[x].node, id));
        }
        if drawn(cache, ops, k, j, id) {
            let x = choose|x: int| k <= x < j && mints(cache, &*(#[trigger] ops[x]).node, id);
            assert(mints(cache, &*ops[x].node, id));
        }
    }
}

/// No nodes.
pub proof fn lemma_all_none<'a>(cache: Option<&'a ReuseCache>, lo: u64, hi: u64)
    ensures
        all_minted(cache, Seq::empty(), lo, hi),
        all_cached(cache, Seq::empty()),
{
    reveal(all_minted);
    reveal(all_cached);
}

/// One more node.
pub proof fn lemma_cached_push<'a>(
    cache: Option<&'a ReuseCache>,
    ops: Seq<ChainOperand>,
    u: ChainOperand,
)
    requires
        all_cached(cache, ops),
        from_cache(cache, &*u.node),
    ensures
        all_cached(cache, ops.push(u)),
{
    reveal(all_cached);
}

/// What is cached is cached.
pub proof fn lemma_cand_cached<'a>(cache: &'a ReuseCache, key: u64, j: int)
    requires
        0 <= j < cache.by_byte.cands(key).len(),
    ensures
        from_cache(Some(cache), &*cache.by_byte.cands(key)[j]),
{
    reveal(from_cache);
    let c = cache.by_byte.cands(key)[j];
    assert(within(&*c, &*c));
}

// ---- Names -------------------------------------------------------------

/// The child of a cached subtree is cached.
proof fn lemma_within_kid(n: &Node, c: &Node, k: &Node)
    requires
        within(n, c),
        is_kid(c, k),
    ensures
        within(n, k),
    decreases n,
{
    if *n == *c {
        lemma_kid_within(n, k);
    } else {
        match &n.kind {
            NodeKind::Prefix { op, child } => {
                if within(&**child, c) {
                    lemma_within_kid(&**child, c, k);
                }
            },
            NodeKind::Binary { op, left, right } => {
                if within(&**left, c) {
                    lemma_within_kid(&**left, c, k);
                }
                if within(&**right, c) {
                    lemma_within_kid(&**right, c, k);
                }
            },
            NodeKind::Ternary { cond, then, else_ } => {
                if within(&**cond, c) {
                    lemma_within_kid(&**cond, c, k);
                }
                if within(&**then, c) {
                    lemma_within_kid(&**then, c, k);
                }
                if within(&**else_, c) {
                    lemma_within_kid(&**else_, c, k);
                }
            },
            NodeKind::Paren { inner } => {
                if within(&**inner, c) {
                    lemma_within_kid(&**inner, c, k);
                }
            },
            NodeKind::Index { array, index } => {
                if within(&**array, c) {
                    lemma_within_kid(&**array, c, k);
                }
                if within(&**index, c) {
                    lemma_within_kid(&**index, c, k);
                }
            },
            NodeKind::Member { object, field } => {
                if within(&**object, c) {
                    lemma_within_kid(&**object, c, k);
                }
            },
            NodeKind::Call { callee, args } => {
                if within(&**callee, c) {
                    lemma_within_kid(&**callee, c, k);
                } else {
                    let i = choose|i: int| 0 <= i < args@.len() && within(&*(#[trigger] args@[i]), c);
                    lemma_within_kid(&*args@[i], c, k);
                }
            },
            _ => {},
        }
    }
}

/// `k` is a child of `n`.
pub open spec fn is_kid(n: &Node, k: &Node) -> bool {
    match n.kind {
        NodeKind::Atom(s) => false,
        NodeKind::Prefix { op, child } => *child == *k,
        NodeKind::Binary { op, left, right } => *left == *k || *right == *k,
        NodeKind::Ternary { cond, then, else_ } => *cond == *k || *then == *k || *else_ == *k,
        NodeKind::Paren { inner } => *inner == *k,
        NodeKind::Call { callee, args } => *callee == *k
            || exists|i: int| 0 <= i < args@.len()
            && *(#[trigger] args@[i]) == *k,
        NodeKind::Index { array, index } => *array == *k || *index == *k,
        NodeKind::Member { object, field } => *object == *k,
        NodeKind::Missing => false,
        NodeKind::Error { skipped } => false,
    }
}

proof fn lemma_kid_within(n: &Node, k: &Node)
    requires
        is_kid(n, k),
    ensures
        within(n, k),
{
    assert(within(k, k));
    match &n.kind {
        NodeKind::Call { callee, args } => {
            let here = within(&**callee, k);
            if !here {
                let i = choose|i: int| 0 <= i < args@.len() && *(#[trigger] args@[i]) == *k;
                assert(within(&*args@[i], k));
            }
        },
        NodeKind::Prefix { op, child } => {
            assert(**child == *k ==> within(&**child, k));
        },
        NodeKind::Binary { op, left, right } => {
            assert(**left == *k ==> within(&**left, k));
            assert(**right == *k ==> within(&**right, k));
        },
        NodeKind::Ternary { cond, then, else_ } => {
            assert(**cond == *k ==> within(&**cond, k));
            assert(**then == *k ==> within(&**then, k));
            assert(**else_ == *k ==> within(&**else_, k));
        },
        NodeKind::Paren { inner } => {
            assert(**inner == *k ==> within(&**inner, k));
        },
        NodeKind::Index { array, index } => {
            assert(**array == *k ==> within(&**array, k));
            assert(**index == *k ==> within(&**index, k));
        },
        NodeKind::Member { object, field } => {
            assert(**object == *k ==> within(&**object, k));
        },
        _ => {},
    }
}

/// The child of a cached subtree is cached.
pub proof fn lemma_kid_cached<'a>(cache: Option<&'a ReuseCache>, n: &Node, k: &Node)
    requires
        from_cache(cache, n),
        is_kid(n, k),
    ensures
        from_cache(cache, k),
{
    reveal(from_cache);
    let r = cache->0;
    let (key, j) = choose|key: u64, j: int|
        0 <= j < r.by_byte.cands(key).len() && within(&*(#[trigger] r.by_byte.cands(key)[j]), n);
    lemma_within_kid(&*r.by_byte.cands(key)[j], n, k);
}

/// Every cached subtree has the shapes that `names` gives its identities.
pub open spec fn cache_named<'a>(cache: Option<&'a ReuseCache>, names: spec_fn(u64) -> Shape) -> bool {
    forall|n: Node| #[trigger] from_cache(cache, &n) ==> named(n, names)
}

/// The identities of cached subtrees are below `lo`.
pub open spec fn cache_below<'a>(cache: Option<&'a ReuseCache>, lo: u64) -> bool {
    forall|n: Node, id: u64|
        #[trigger] from_cache(cache, &n) && #[trigger] occurs(n, id) && id != 0 ==> id < lo
}

/// What the new identity `id` of `n` names.
pub open spec fn given<'a>(cache: Option<&'a ReuseCache>, n: &Node, id: u64) -> Shape
    decreases n, 0int,
{
    if n.id.0 == id {
        n@
    } else {
        match n.kind {
            NodeKind::Prefix { op, child } => given(cache, &*child, id),
            NodeKind::Binary { op, left, right } => if mints(cache, &*left, id) {
                given(cache, &*left, id)
            } else {
                given(cache, &*right, id)
            },
            NodeKind::Ternary { cond, then, else_ } => if mints(cache, &*cond, id) {
                given(cache, &*cond, id)
            } else if mints(cache, &*then, id) {
                given(cache, &*then, id)
            } else {
                given(cache, &*else_, id)
            },
            NodeKind::Paren { inner } => given(cache, &*inner, id),
            NodeKind::Call { callee, args } => if mints(cache, &*callee, id) {
                given(cache, &*callee, id)
            } else {
                given_among(cache, args@, args@.len() as int, id, n@)
            },
            NodeKind::Index { array, index } => if mints(cache, &*array, id) {
                given(cache, &*array, id)
            } else {
                given(cache, &*index, id)
            },
            NodeKind::Member { object, field } => given(cache, &*object, id),
            _ => n@,
        }
    }
}

pub open spec fn given_among<'a>(
    cache: Option<&'a ReuseCache>,
    args: Seq<Arc<Node>>,
    k: int,
    id: u64,
    other: Shape,
) -> Shape
    decreases args, k,
{
    if 0 < k <= args.len() {
        if mints(cache, &*args[k - 1], id) {
            given(cache, &*args[k - 1], id)
        } else {
            given_among(cache, args, k - 1, id, other)
        }
    } else {
        other
    }
}

proof fn lemma_given_among<'a>(
    cache: Option<&'a ReuseCache>,
    args: Seq<Arc<Node>>,
    k: int,
    id: u64,
    other: Shape,
    i: int,
)
    requires
        0 <= i < k <= args.len(),
        mints(cache, &*args[i], id),
        forall|x: int, y: int|
            0 <= x < y < args.len() ==> apart(
                cache,
                &*(#[trigger] args[x]),
                &*(#[trigger] args[y]),
            ),
    ensures
        given_among(cache, args, k, id, other) == given(cache, &*args[i], id),
    decreases k,
{
    if k - 1 > i {
        assert(apart(cache, &*args[i], &*args[k - 1]));
        lemma_given_among(cache, args, k - 1, id, other, i);
    }
}

/// Names that agree with what is given to new identities, and with what cached
/// subtrees are called, name the tree.
proof fn lemma_named<'a>(
    cache: Option<&'a ReuseCache>,
    n: &Node,
    lo: u64,
    hi: u64,
    names: spec_fn(u64) -> Shape,
)
    requires
        minted(cache, n, lo, hi),
        cache_named(cache, names),
        forall|id: u64| #[trigger] mints(cache, n, id) ==> names(id) == given(cache, n, id),
    ensures
        named(*n, names),
    decreases n,
{
    lemma_open(cache, n, lo, hi);
    assert(!from_cache(cache, n) && n.id.0 != 0 ==> mints(cache, n, n.id.0));
    if !from_cache(cache, n) {
        match &n.kind {
            NodeKind::Prefix { op, child } => {
                lemma_nonzero(cache, &**child);
                assert(forall|id: u64| #[trigger] mints(cache, &**child, id) ==> mints(cache, n, id));
                lemma_named(cache, &**child, lo, hi, names);
            },
            NodeKind::Binary { op, left, right } => {
                lemma_nonzero(cache, &**left);
                assert(forall|id: u64| #[trigger] mints(cache, &**left, id) ==> mints(cache, n, id));
                lemma_named(cache, &**left, lo, hi, names);
                lemma_nonzero(cache, &**right);
                assert(forall|id: u64| #[trigger] mints(cache, &**right, id) ==> mints(cache, n, id));
                lemma_named(cache, &**right, lo, hi, names);
            },
            NodeKind::Ternary { cond, then, else_ } => {
                lemma_nonzero(cache, &**cond);
                assert(forall|id: u64| #[trigger] mints(cache, &**cond, id) ==> mints(cache, n, id));
                lemma_named(cache, &**cond, lo, hi, names);
                lemma_nonzero(cache, &**then);
                assert(forall|id: u64| #[trigger] mints(cache, &**then, id) ==> mints(cache, n, id));
                lemma_named(cache, &**then, lo, hi, names);
                lemma_nonzero(cache, &**else_);
                assert(forall|id: u64| #[trigger] mints(cache, &**else_, id) ==> mints(cache, n, id));
                lemma_named(cache, &**else_, lo, hi, names);
            },
            NodeKind::Paren { inner } => {
                lemma_nonzero(cache, &**inner);
                assert(forall|id: u64| #[trigger] mints(cache, &**inner, id) ==> mints(cache, n, id));
                lemma_named(cache, &**inner, lo, hi, names);
            },
            NodeKind::Index { array, index } => {
                lemma_nonzero(cache, &**array);
                assert(forall|id: u64| #[trigger] mints(cache, &**array, id) ==> mints(cache, n, id));
                lemma_named(cache, &**array, lo, hi, names);
                lemma_nonzero(cache, &**index);
                assert(forall|id: u64| #[trigger] mints(cache, &**index, id) ==> mints(cache, n, id));
                lemma_named(cache, &**index, lo, hi, names);
            },
            NodeKind::Member { object, field } => {
                lemma_nonzero(cache, &**object);
                assert(forall|id: u64| #[trigger] mints(cache, &**object, id) ==> mints(cache, n, id));
                lemma_named(cache, &**object, lo, hi, names);
            },
            NodeKind::Call { callee, args } => {
                lemma_nonzero(cache, &**callee);
                assert(forall|id: u64| #[trigger] mints(cache, &**callee, id) ==> mints(cache, n, id));
                lemma_named(cache, &**callee, lo, hi, names);
                assert forall|i: int| 0 <= i < args@.len() implies named(
                    *(#[trigger] args@[i]),
                    names,
                ) by {
                    lemma_nonzero(cache, &*args@[i]);
                    assert forall|id: u64| #[trigger] mints(cache, &*args@[i], id) implies names(id)
                        == given(cache, &*args@[i], id) by {
                        assert(mints(cache, n, id));
                        assert(apart(cache, &**callee, &*args@[i]));
                        lemma_given_among(cache, args@, args@.len() as int, id, n@, i);
                    }
                    lemma_named(cache, &*args@[i], lo, hi, names);
                }
            },
            _ => {},
        }
    }
}

/// `names` with what a tree's new identities name.
pub open spec fn with_names<'a>(
    cache: Option<&'a ReuseCache>,
    n: &Node,
    names: spec_fn(u64) -> Shape,
) -> spec_fn(u64) -> Shape {
    |id: u64|
        if mints(cache, n, id) {
            given(cache, n, id)
        } else {
            names(id)
        }
}

/// An identity is minted once: whatever names the cached subtrees have below
/// `lo`, the tree is named by them and by what its new identities name.
pub proof fn law_identities_name<'a>(
    cache: Option<&'a ReuseCache>,
    n: &Node,
    lo: u64,
    hi: u64,
    names: spec_fn(u64) -> Shape,
)
    requires
        minted(cache, n, lo, hi),
        cache_named(cache, names),
        cache_below(cache, lo),
    ensures
        named(*n, with_names(cache, n, names)),
        forall|id: u64|
            id < lo || id >= hi ==> #[trigger] with_names(cache, n, names)(id) == names(id),
{
    let f = with_names(cache, n, names);
    lemma_range(cache, n, lo, hi, lo, hi);
    assert forall|c: Node| #[trigger] from_cache(cache, &c) implies named(c, f) by {
        assert(forall|id: u64| #[trigger] occurs(c, id) && id != 0 ==> f(id) == names(id));
        lemma_named_agree(&c, names, f);
    }
    lemma_named(cache, n, lo, hi, f);
}

/// Names matter only for the identities of a tree.
pub proof fn lemma_named_agree(n: &Node, f: spec_fn(u64) -> Shape, g: spec_fn(u64) -> Shape)
    requires
        named(*n, f),
        forall|id: u64| #[trigger] occurs(*n, id) && id != 0 ==> f(id) == g(id),
    ensures
        named(*n, g),
    decreases n,
{
    assert(occurs(*n, n.id.0));
    match &n.kind {
        NodeKind::Prefix { op, child } => {
            assert(forall|id: u64| #[trigger] occurs(**child, id) ==> occurs(*n, id));
            lemma_named_agree(&**child, f, g);
        },
        NodeKind::Binary { op, left, right } => {
            assert(forall|id: u64| #[trigger] occurs(**left, id) ==> occurs(*n, id));
            lemma_named_agree(&**left, f, g);
            assert(forall|id: u64| #[trigger] occurs(**right, id) ==> occurs(*n, id));
            lemma_named_agree(&**right, f, g);
        },
        NodeKind::Ternary { cond, then, else_ } => {
            assert(forall|id: u64| #[trigger] occurs(**cond, id) ==> occurs(*n, id));
            lemma_named_agree(&**cond, f, g);
            assert(forall|id: u64| #[trigger] occurs(**then, id) ==> occurs(*n, id));
            lemma_named_agree(&**then, f, g);
            assert(forall|id: u64| #[trigger] occurs(**else_, id) ==> occurs(*n, id));
            lemma_named_agree(&**else_, f, g);
        },
        NodeKind::Paren { inner } => {
            assert(forall|id: u64| #[trigger] occurs(**inner, id) ==> occurs(*n, id));
            lemma_named_agree(&**inner, f, g);
        },
        NodeKind::Index { array, index } => {
            assert(forall|id: u64| #[trigger] occurs(**array, id) ==> occurs(*n, id));
            lemma_named_agree(&**array, f, g);
            assert(forall|id: u64| #[trigger] occurs(**index, id) ==> occurs(*n, id));
            lemma_named_agree(&**index, f, g);
        },
        NodeKind::Member { object, field } => {
            assert(forall|id: u64| #[trigger] occurs(**object, id) ==> occurs(*n, id));
            lemma_named_agree(&**object, f, g);
        },
        NodeKind::Call { callee, args } => {
            assert(forall|id: u64| #[trigger] occurs(**callee, id) ==> occurs(*n, id));
            lemma_named_agree(&**callee, f, g);
            assert forall|i: int| 0 <= i < args@.len() implies named(
                *(#[trigger] args@[i]),
                g,
            ) by {
                assert(forall|id: u64| #[trigger] occurs(*args@[i], id) ==> occurs(*n, id));
                lemma_named_agree(&*args@[i], f, g);
            }
        },
        _ => {},
    }
}

/// What holds of the identities of a tree holds of those of its subtrees.
pub proof fn lemma_within_named(n: &Node, c: &Node, names: spec_fn(u64) -> Shape)
    requires
        within(n, c),
        named(*n, names),
    ensures
        named(*c, names),
        forall|id: u64| #[trigger] occurs(*c, id) ==> occurs(*n, id),
    decreases n,
{
    if *n != *c {
        match &n.kind {
            NodeKind::Prefix { op, child } => {
                if within(&**child, c) {
                    lemma_within_named(&**child, c, names);
                }
            },
            NodeKind::Binary { op, left, right } => {
                if within(&**left, c) {
                    lemma_within_named(&**left, c, names);
                }
                if within(&**right, c) {
                    lemma_within_named(&**right, c, names);
                }
            },
            NodeKind::Ternary { cond, then, else_ } => {
                if within(&**cond, c) {
                    lemma_within_named(&**cond, c, names);
                }
                if within(&**then, c) {
                    lemma_within_named(&**then, c, names);
                }
                if within(&**else_, c) {
                    lemma_within_named(&**else_, c, names);
                }
            },
            NodeKind::Paren { inner } => {
                if within(&**inner, c) {
                    lemma_within_named(&**inner, c, names);
                }
            },
            NodeKind::Index { array, index } => {
                if within(&**array, c) {
                    lemma_within_named(&**array, c, names);
                }
                if within(&**index, c) {
                    lemma_within_named(&**index, c, names);
                }
            },
            NodeKind::Member { object, field } => {
                if within(&**object, c) {
                    lemma_within_named(&**object, c, names);
                }
            },
            NodeKind::Call { callee, args } => {
                if within(&**callee, c) {
                    lemma_within_named(&**callee, c, names);
                } else {
                    let i = choose|i: int|
                        0 <= i < args@.len() && within(&*(#[trigger] args@[i]), c);
                    lemma_within_named(&*args@[i], c, names);
                }
            },
            _ => {},
        }
    }
}

/// Every identity of a tree parsed without reuse was given out for it, and
/// there is one for every node unless the source names nothing or has nothing
/// left; that no two nodes share one is what `minted` says.
pub proof fn law_fresh_identities(n: &Node, lo: u64, hi: u64)
    requires
        minted(None::<&ReuseCache>, n, lo, hi),
    ensures
        forall|id: u64| #[trigger] occurs(*n, id) ==> numbered(id, lo, hi),
    decreases n,
{
    reveal(from_cache);
    lemma_open(None, n, lo, hi);
    assert(numbered(n.id.0, lo, hi));
    match &n.kind {
        NodeKind::Prefix { op, child } => {
            law_fresh_identities(&**child, lo, hi);
            assert(forall|id: u64| #[trigger]
                occurs(*n, id) ==> id == n.id.0 || occurs(**child, id));
        },
        NodeKind::Binary { op, left, right } => {
            law_fresh_identities(&**left, lo, hi);
            law_fresh_identities(&**right, lo, hi);
            assert(forall|id: u64| #[trigger]
                occurs(*n, id) ==> id == n.id.0 || occurs(**left, id) || occurs(**right, id));
        },
        NodeKind::Ternary { cond, then, else_ } => {
            law_fresh_identities(&**cond, lo, hi);
            law_fresh_identities(&**then, lo, hi);
            law_fresh_identities(&**else_, lo, hi);
            assert(forall|id: u64| #[trigger]
                occurs(*n, id) ==> id == n.id.0 || occurs(**cond, id) || occurs(**then, id) || occurs(**else_, id));
        },
        NodeKind::Paren { inner } => {
            law_fresh_identities(&**inner, lo, hi);
            assert(forall|id: u64| #[trigger]
                occurs(*n, id) ==> id == n.id.0 || occurs(**inner, id));
        },
        NodeKind::Index { array, index } => {
            law_fresh_identities(&**array, lo, hi);
            law_fresh_identities(&**index, lo, hi);
            assert(forall|id: u64| #[trigger]
                occurs(*n, id) ==> id == n.id.0 || occurs(**array, id) || occurs(**index, id));
        },
        NodeKind::Member { object, field } => {
            law_fresh_identities(&**object, lo, hi);
            assert(forall|id: u64| #[trigger]
                occurs(*n, id) ==> id == n.id.0 || occurs(**object, id));
        },
        NodeKind::Call { callee, args } => {
            law_fresh_identities(&**callee, lo, hi);
            assert forall|i: int, id: u64|
                0 <= i < args@.len() && #[trigger] occurs(*args@[i], id) implies numbered(
                id,
                lo,
                hi,
            ) by {
                law_fresh_identities(&*args@[i], lo, hi);
            }
            assert forall|id: u64| #[trigger] occurs(*n, id) implies numbered(id, lo, hi) by {
                assert(id == n.id.0 || occurs(**callee, id) || exists|i: int|
                    0 <= i < args@.len() && occurs(*(#[trigger] args@[i]), id));
            }
        },
        _ => {
            assert(forall|id: u64| #[trigger] occurs(*n, id) ==> id == n.id.0);
        },
    }
}

} // verus!
