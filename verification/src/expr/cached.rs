//! Every subtree worth it is found again under the byte it starts at.

use std::sync::Arc;
use vstd::prelude::*;

use crate::expr::ast::{lemma_call_shape, shapes, Node, NodeKind};
use crate::expr::cache::{args_span_after, args_starting_at, span_after, starting_at};
use crate::expr::cache_order::lemma_extent;
use crate::expr::grammar::{at, toks_ok};
use crate::expr::lexer::Tok;
use crate::expr::naming::within;
use crate::expr::shape::{bands_ok, fits, lemma_norm_call, norms, sn};

verus! {

/// `m` is among the subtrees that start at byte `key`.
pub open spec fn filed(n: Arc<Node>, a: Seq<Tok>, p: int, key: u64, m: Arc<Node>) -> bool {
    starting_at(n, a, p, key).count(m) > 0
}

/// A tree with an operator, brackets or a choice at its root.
pub open spec fn composite(n: Node) -> bool {
    match n.kind {
        NodeKind::Prefix { op, child } => true,
        NodeKind::Binary { op, left, right } => true,
        NodeKind::Ternary { cond, then, else_ } => true,
        NodeKind::Paren { inner } => true,
        NodeKind::Call { callee, args } => true,
        NodeKind::Index { array, index } => true,
        NodeKind::Member { object, field } => true,
        _ => false,
    }
}

/// Every composite subtree is filed under the byte it starts at.
pub proof fn law_all_filed(n: Arc<Node>, a: Seq<Tok>, p: int, m: Arc<Node>)
    requires
        toks_ok(a),
        bands_ok(a, p, n@),
        fits(a, p, n@),
        within(&*n, &*m),
        composite(*m),
    ensures
        exists|key: u64| #[trigger] filed(n, a, p, key, m),
    decreases n,
{
    lemma_extent(a, p, n);
    if n == m {
        assert(filed(n, a, p, a[p].start as u64, m));
    } else {
        match n.kind {
            NodeKind::Atom(s) => {},
            NodeKind::Prefix { op, child } => {
                law_all_filed(child, a, p + 1, m);
                let key = choose|key: u64| #[trigger] filed(child, a, p + 1, key, m);
                assert(filed(n, a, p, key, m));
            },
            NodeKind::Binary { op, left, right } => {
                let q = p + sn(left@) + 1;
                if within(&*left, &*m) {
                    law_all_filed(left, a, p, m);
                    let key = choose|key: u64| #[trigger] filed(left, a, p, key, m);
                    assert(filed(n, a, p, key, m));
                } else {
                    law_all_filed(right, a, q, m);
                    let key = choose|key: u64| #[trigger] filed(right, a, q, key, m);
                    assert(filed(n, a, p, key, m));
                }
            },
            NodeKind::Ternary { cond, then, else_ } => {
                let q = p + sn(cond@) + 1;
                let r = p + sn(cond@) + sn(then@) + 2;
                if within(&*cond, &*m) {
                    law_all_filed(cond, a, p, m);
                    let key = choose|key: u64| #[trigger] filed(cond, a, p, key, m);
                    assert(filed(n, a, p, key, m));
                } else if within(&*then, &*m) {
                    law_all_filed(then, a, q, m);
                    let key = choose|key: u64| #[trigger] filed(then, a, q, key, m);
                    assert(filed(n, a, p, key, m));
                } else {
                    law_all_filed(else_, a, r, m);
                    let key = choose|key: u64| #[trigger] filed(else_, a, r, key, m);
                    assert(filed(n, a, p, key, m));
                }
            },
            NodeKind::Paren { inner } => {
                law_all_filed(inner, a, p + 1, m);
                let key = choose|key: u64| #[trigger] filed(inner, a, p + 1, key, m);
                assert(filed(n, a, p, key, m));
            },
            NodeKind::Call { callee, args } => {
                let q = p + sn(callee@) + 1;
                let fs = norms(shapes(args@));
                lemma_call_shape(&*n);
                lemma_norm_call(n@);
                if within(&*callee, &*m) {
                    law_all_filed(callee, a, p, m);
                    let key = choose|key: u64| #[trigger] filed(callee, a, p, key, m);
                    assert(filed(n, a, p, key, m));
                } else {
                    let i = choose|i: int|
                        0 <= i < args@.len() && within(&*(#[trigger] args@[i]), &*m);
                    let r = at(q, fs, i);
                    assert(shapes(args@)[i] == args@[i]@);
                    assert(bands_ok(a, r, args@[i]@) && fits(a, r, args@[i]@));
                    law_all_filed(args@[i], a, r, m);
                    let key = choose|key: u64| #[trigger] filed(args@[i], a, r, key, m);
                    lemma_argument(args@, args@.len() as int, a, q, key, i, m);
                    assert(filed(n, a, p, key, m));
                }
            },
            NodeKind::Index { array, index } => {
                let q = p + sn(array@) + 1;
                if within(&*array, &*m) {
                    law_all_filed(array, a, p, m);
                    let key = choose|key: u64| #[trigger] filed(array, a, p, key, m);
                    assert(filed(n, a, p, key, m));
                } else {
                    law_all_filed(index, a, q, m);
                    let key = choose|key: u64| #[trigger] filed(index, a, q, key, m);
                    assert(filed(n, a, p, key, m));
                }
            },
            NodeKind::Member { object, field } => {
                law_all_filed(object, a, p, m);
                let key = choose|key: u64| #[trigger] filed(object, a, p, key, m);
                assert(filed(n, a, p, key, m));
            },
            NodeKind::Missing => {},
            NodeKind::Error { skipped } => {},
        }
    }
}

proof fn lemma_argument(
    args: Seq<Arc<Node>>,
    k: int,
    a: Seq<Tok>,
    q: int,
    key: u64,
    i: int,
    m: Arc<Node>,
)
    requires
        0 <= i < k <= args.len(),
        filed(args[i], a, at(q, norms(shapes(args)), i), key, m),
    ensures
        args_starting_at(args, k, a, q, key).count(m) > 0,
    decreases k,
{
    if i < k - 1 {
        lemma_argument(args, k - 1, a, q, key, i, m);
    }
}

/// Nothing else is filed: only composite subtrees of the tree.
pub proof fn law_filed_is_subtree(n: Arc<Node>, a: Seq<Tok>, p: int, key: u64, m: Arc<Node>)
    requires
        filed(n, a, p, key, m),
    ensures
        within(&*n, &*m),
        composite(*m),
    decreases n, 0int,
{
    if n != m {
        match n.kind {
            NodeKind::Atom(s) => {},
            NodeKind::Prefix { op, child } => law_filed_is_subtree(child, a, p + 1, key, m),
            NodeKind::Binary { op, left, right } => {
                if filed(left, a, p, key, m) {
                    law_filed_is_subtree(left, a, p, key, m);
                } else {
                    law_filed_is_subtree(right, a, p + sn(left@) + 1, key, m);
                }
            },
            NodeKind::Ternary { cond, then, else_ } => {
                if filed(cond, a, p, key, m) {
                    law_filed_is_subtree(cond, a, p, key, m);
                } else if filed(then, a, p + sn(cond@) + 1, key, m) {
                    law_filed_is_subtree(then, a, p + sn(cond@) + 1, key, m);
                } else {
                    law_filed_is_subtree(else_, a, p + sn(cond@) + sn(then@) + 2, key, m);
                }
            },
            NodeKind::Paren { inner } => law_filed_is_subtree(inner, a, p + 1, key, m),
            NodeKind::Call { callee, args } => {
                if filed(callee, a, p, key, m) {
                    law_filed_is_subtree(callee, a, p, key, m);
                } else {
                    lemma_filed_argument(args@, args@.len() as int, a, p + sn(callee@) + 1, key, m);
                }
            },
            NodeKind::Index { array, index } => {
                if filed(array, a, p, key, m) {
                    law_filed_is_subtree(array, a, p, key, m);
                } else {
                    law_filed_is_subtree(index, a, p + sn(array@) + 1, key, m);
                }
            },
            NodeKind::Member { object, field } => law_filed_is_subtree(object, a, p, key, m),
            NodeKind::Missing => {},
            NodeKind::Error { skipped } => {},
        }
    }
}

proof fn lemma_filed_argument(
    args: Seq<Arc<Node>>,
    k: int,
    a: Seq<Tok>,
    q: int,
    key: u64,
    m: Arc<Node>,
)
    requires
        0 <= k <= args.len(),
        args_starting_at(args, k, a, q, key).count(m) > 0,
    ensures
        exists|i: int| 0 <= i < args.len() && within(&*(#[trigger] args[i]), &*m),
        composite(*m),
    decreases args, k,
{
    if k > 0 {
        let r = at(q, norms(shapes(args)), k - 1);
        if filed(args[k - 1], a, r, key, m) {
            law_filed_is_subtree(args[k - 1], a, r, key, m);
        } else {
            lemma_filed_argument(args, k - 1, a, q, key, m);
        }
    }
}

// ---- Spans -------------------------------------------------------------

/// `r` is where `m` stands, a subtree of `n` of identity `id`: at token `q`.
pub open spec fn spot(
    n: Arc<Node>,
    a: Seq<Tok>,
    id: u64,
    r: Option<(u32, u32)>,
    m: Arc<Node>,
    q: int,
) -> bool {
    &&& within(&*n, &*m)
    &&& m.id.0 == id
    &&& 0 <= q < q + sn(m@) < a.len()
    &&& bands_ok(a, q, m@)
    &&& r == Some((a[q].start as u32, a[q + sn(m@) - 1].end as u32))
}

/// `r` is where a subtree of identity `id` stands.
pub open spec fn spotted(n: Arc<Node>, a: Seq<Tok>, id: u64, r: Option<(u32, u32)>) -> bool {
    exists|m: Arc<Node>, q: int| #[trigger] spot(n, a, id, r, m, q)
}

/// No subtree has identity `id`.
pub open spec fn absent(n: Arc<Node>, id: u64) -> bool {
    forall|m: Arc<Node>| #[trigger] within(&*n, &*m) ==> m.id.0 != id
}

/// The span on record for an identity is that of a subtree that has it, from its first
/// byte to past its last; none is on record exactly if no subtree has the identity.
pub proof fn law_spans(n: Arc<Node>, a: Seq<Tok>, p: int, id: u64)
    requires
        toks_ok(a),
        bands_ok(a, p, n@),
        fits(a, p, n@),
    ensures
        match span_after(None, n, a, p, id) {
            Some(r) => spotted(n, a, id, Some(r)),
            None => absent(n, id),
        },
{
    lemma_spans(None, n, a, p, id);
    if spotted(n, a, id, span_after(None, n, a, p, id)) {
        let (m, q) = choose|m: Arc<Node>, q: int|
            spot(n, a, id, span_after(None, n, a, p, id), m, q);
    }
}

/// Recording `n` leaves what was on record, or puts where a subtree stands in its place.
spec fn settled(
    before: Option<(u32, u32)>,
    n: Arc<Node>,
    a: Seq<Tok>,
    id: u64,
    r: Option<(u32, u32)>,
) -> bool {
    r == before && absent(n, id) || spotted(n, a, id, r)
}

/// A part of `n`.
spec fn is_part(n: Arc<Node>, c: Arc<Node>) -> bool {
    forall|m: Arc<Node>| #[trigger] within(&*c, &*m) ==> within(&*n, &*m)
}

proof fn lemma_part(n: Arc<Node>, c: Arc<Node>, a: Seq<Tok>, id: u64, r: Option<(u32, u32)>)
    requires
        is_part(n, c),
        spotted(c, a, id, r),
    ensures
        spotted(n, a, id, r),
{
    let (m, q) = choose|m: Arc<Node>, q: int| spot(c, a, id, r, m, q);
    assert(spot(n, a, id, r, m, q));
}

proof fn lemma_own(
    before: Option<(u32, u32)>,
    n: Arc<Node>,
    a: Seq<Tok>,
    p: int,
    id: u64,
)
    requires
        toks_ok(a),
        bands_ok(a, p, n@),
        fits(a, p, n@),
    ensures
        n.id.0 == id ==> spotted(
            n,
            a,
            id,
            Some((a[p].start as u32, (a[p].start + n.width) as u32)),
        ),
{
    lemma_extent(a, p, n);
    if n.id.0 == id {
        assert(spot(n, a, id, Some((a[p].start as u32, (a[p].start + n.width) as u32)), n, p));
    }
}

#[verifier::rlimit(60)]
proof fn lemma_spans(before: Option<(u32, u32)>, n: Arc<Node>, a: Seq<Tok>, p: int, id: u64)
    requires
        toks_ok(a),
        bands_ok(a, p, n@),
        fits(a, p, n@),
    ensures
        settled(before, n, a, id, span_after(before, n, a, p, id)),
    decreases n, 0int,
{
    lemma_extent(a, p, n);
    lemma_own(before, n, a, p, id);
    let own = if n.id.0 == id {
        Some((a[p].start as u32, (a[p].start + n.width) as u32))
    } else {
        before
    };
    match n.kind {
        NodeKind::Atom(s) => {
            if !spotted(n, a, id, span_after(before, n, a, p, id)) {
                lemma_absent(n, id);
            }
            if !spotted(n, a, id, span_after(before, n, a, p, id)) {
                lemma_absent(n, id);
            }
        },
        NodeKind::Prefix { op, child } => {
            lemma_spans(own, child, a, p + 1, id);
            lemma_child(own, n, child, a, id, span_after(own, child, a, p + 1, id));
            if !spotted(n, a, id, span_after(before, n, a, p, id)) {
                lemma_absent(n, id);
            }
        },
        NodeKind::Binary { op, left, right } => {
            let x = span_after(own, left, a, p, id);
            lemma_spans(own, left, a, p, id);
            lemma_child(own, n, left, a, id, x);
            lemma_spans(x, right, a, p + sn(left@) + 1, id);
            lemma_child(x, n, right, a, id, span_after(x, right, a, p + sn(left@) + 1, id));
            if !spotted(n, a, id, span_after(before, n, a, p, id)) {
                lemma_absent(n, id);
            }
        },
        NodeKind::Ternary { cond, then, else_ } => {
            let q = p + sn(cond@) + 1;
            let r = p + sn(cond@) + sn(then@) + 2;
            let x = span_after(own, cond, a, p, id);
            let y = span_after(x, then, a, q, id);
            lemma_spans(own, cond, a, p, id);
            lemma_child(own, n, cond, a, id, x);
            lemma_spans(x, then, a, q, id);
            lemma_child(x, n, then, a, id, y);
            lemma_spans(y, else_, a, r, id);
            lemma_child(y, n, else_, a, id, span_after(y, else_, a, r, id));
            if !spotted(n, a, id, span_after(before, n, a, p, id)) {
                lemma_absent(n, id);
            }
        },
        NodeKind::Paren { inner } => {
            lemma_spans(own, inner, a, p + 1, id);
            lemma_child(own, n, inner, a, id, span_after(own, inner, a, p + 1, id));
            if !spotted(n, a, id, span_after(before, n, a, p, id)) {
                lemma_absent(n, id);
            }
        },
        NodeKind::Call { callee, args } => {
            let q = p + sn(callee@) + 1;
            let fs = norms(shapes(args@));
            lemma_call_shape(&*n);
            lemma_norm_call(n@);
            let x = span_after(own, callee, a, p, id);
            lemma_spans(own, callee, a, p, id);
            lemma_child(own, n, callee, a, id, x);
            assert forall|i: int| 0 <= i < args@.len() implies bands_ok(
                a,
                #[trigger] at(q, fs, i),
                args@[i]@,
            ) && fits(a, at(q, fs, i), args@[i]@) by {
                assert(shapes(args@)[i] == args@[i]@);
            }
            assert forall|i: int| 0 <= i < args@.len() implies is_part(
                n,
                #[trigger] args@[i],
            ) by {}
            lemma_args_spans(x, n, args@, args@.len() as int, a, q, id);
            if !spotted(n, a, id, span_after(before, n, a, p, id)) {
                lemma_absent(n, id);
            }
        },
        NodeKind::Index { array, index } => {
            let x = span_after(own, array, a, p, id);
            lemma_spans(own, array, a, p, id);
            lemma_child(own, n, array, a, id, x);
            lemma_spans(x, index, a, p + sn(array@) + 1, id);
            lemma_child(x, n, index, a, id, span_after(x, index, a, p + sn(array@) + 1, id));
            if !spotted(n, a, id, span_after(before, n, a, p, id)) {
                lemma_absent(n, id);
            }
        },
        NodeKind::Member { object, field } => {
            lemma_spans(own, object, a, p, id);
            lemma_child(own, n, object, a, id, span_after(own, object, a, p, id));
            if !spotted(n, a, id, span_after(before, n, a, p, id)) {
                lemma_absent(n, id);
            }
        },
        NodeKind::Missing => {
            if !spotted(n, a, id, span_after(before, n, a, p, id)) {
                lemma_absent(n, id);
            }
            if !spotted(n, a, id, span_after(before, n, a, p, id)) {
                lemma_absent(n, id);
            }
        },
        NodeKind::Error { skipped } => {
            if !spotted(n, a, id, span_after(before, n, a, p, id)) {
                lemma_absent(n, id);
            }
        },
    }
}

/// An identity that neither a node nor what is below it has.
proof fn lemma_absent(n: Arc<Node>, id: u64)
    requires
        n.id.0 != id,
        match n.kind {
            NodeKind::Prefix { op, child } => absent(child, id),
            NodeKind::Binary { op, left, right } => absent(left, id) && absent(right, id),
            NodeKind::Ternary { cond, then, else_ } => absent(cond, id) && absent(then, id)
                && absent(else_, id),
            NodeKind::Paren { inner } => absent(inner, id),
            NodeKind::Call { callee, args } => absent(callee, id) && forall|i: int|
                0 <= i < args@.len() ==> absent(#[trigger] args@[i], id),
            NodeKind::Index { array, index } => absent(array, id) && absent(index, id),
            NodeKind::Member { object, field } => absent(object, id),
            _ => true,
        },
    ensures
        absent(n, id),
{
    assert forall|m: Arc<Node>| #[trigger] within(&*n, &*m) implies m.id.0 != id by {
        if n != m {
            match n.kind {
                NodeKind::Prefix { op, child } => assert(within(&*child, &*m)),
                NodeKind::Binary { op, left, right } => assert(within(&*left, &*m) || within(
                    &*right,
                    &*m,
                )),
                NodeKind::Ternary { cond, then, else_ } => assert(within(&*cond, &*m) || within(
                    &*then,
                    &*m,
                ) || within(&*else_, &*m)),
                NodeKind::Paren { inner } => assert(within(&*inner, &*m)),
                NodeKind::Call { callee, args } => if !within(&*callee, &*m) {
                    let i = choose|i: int|
                        0 <= i < args@.len() && within(&*(#[trigger] args@[i]), &*m);
                    assert(absent(args@[i], id));
                },
                NodeKind::Index { array, index } => assert(within(&*array, &*m) || within(
                    &*index,
                    &*m,
                )),
                NodeKind::Member { object, field } => assert(within(&*object, &*m)),
                _ => {},
            }
        }
    }
}

/// What recording a part does.
proof fn lemma_child(
    before: Option<(u32, u32)>,
    n: Arc<Node>,
    c: Arc<Node>,
    a: Seq<Tok>,
    id: u64,
    r: Option<(u32, u32)>,
)
    requires
        is_part(n, c),
        settled(before, c, a, id, r),
    ensures
        r == before && absent(c, id) || spotted(n, a, id, r),
{
    if spotted(c, a, id, r) {
        lemma_part(n, c, a, id, r);
    }
}

proof fn lemma_args_spans(
    before: Option<(u32, u32)>,
    n: Arc<Node>,
    args: Seq<Arc<Node>>,
    k: int,
    a: Seq<Tok>,
    q: int,
    id: u64,
)
    requires
        toks_ok(a),
        0 <= k <= args.len(),
        forall|i: int|
            0 <= i < args.len() ==> bands_ok(
                a,
                #[trigger] at(q, norms(shapes(args)), i),
                args[i]@,
            ) && fits(a, at(q, norms(shapes(args)), i), args[i]@),
        forall|i: int| 0 <= i < args.len() ==> is_part(n, #[trigger] args[i]),
    ensures
        ({
            let r = args_span_after(before, args, k, a, q, id);
            r == before && (forall|i: int| 0 <= i < k ==> absent(#[trigger] args[i], id)) || spotted(
                n,
                a,
                id,
                r,
            )
        }),
    decreases args, k,
{
    if k > 0 {
        let x = args_span_after(before, args, k - 1, a, q, id);
        let r = at(q, norms(shapes(args)), k - 1);
        lemma_args_spans(before, n, args, k - 1, a, q, id);
        lemma_spans(x, args[k - 1], a, r, id);
        assert(is_part(n, args[k - 1]));
        lemma_child(x, n, args[k - 1], a, id, span_after(x, args[k - 1], a, r, id));
    }
}

} // verus!
