//! The order of the subtrees cached under one byte.

use std::sync::Arc;
use vstd::multiset::Multiset;
use vstd::prelude::*;
use vstd::seq_lib::{to_multiset_len, to_multiset_remove};

use crate::expr::ast::{lemma_call_shape, shapes, Node, NodeKind};
use crate::expr::cache::{
    args_starting_at, lemma_parsed_bands, own_entry, starting_at, widest_first, ReuseCache,
};
use crate::expr::grammar::{at, lt, toks_ok, Form};
use crate::expr::lexer::{lex, Tok};
use crate::expr::parser::parsed;
use crate::expr::shape::{bands_ok, fits, lemma_norm_call, norm, norms, sn};

verus! {

/// Trees that start at byte `key`, which is in `[lo, hi)`, and end by byte `hi`:
/// one of each width.
pub open spec fn one_each(m: Multiset<Arc<Node>>, lo: int, hi: int, key: int) -> bool {
    &&& forall|x: Arc<Node>| #[trigger] m.count(x) <= 1
    &&& forall|x: Arc<Node>| #[trigger] m.count(x) > 0 ==> lo <= key < hi && x.width <= hi - key
    &&& forall|x: Arc<Node>, y: Arc<Node>|
        (#[trigger] m.count(x)) > 0 && (#[trigger] m.count(y)) > 0 && x.width == y.width ==> x == y
}

/// Those of two stretches, one after the other.
proof fn lemma_both(
    m: Multiset<Arc<Node>>,
    n: Multiset<Arc<Node>>,
    lo: int,
    mid: int,
    next: int,
    hi: int,
    key: int,
)
    requires
        one_each(m, lo, mid, key),
        one_each(n, next, hi, key),
        lo <= mid <= next <= hi,
    ensures
        one_each(m.add(n), lo, hi, key),
        key < next ==> m.add(n) =~= m,
        key >= mid ==> m.add(n) =~= n,
{
    if key < next {
        assert forall|x: Arc<Node>| n.count(x) == 0 by {}
        assert(m.add(n) =~= m);
    } else {
        assert forall|x: Arc<Node>| m.count(x) == 0 by {}
        assert(m.add(n) =~= n);
    }
}

/// With a wider tree that starts where they do.
proof fn lemma_above(
    n: Arc<Node>,
    own: Multiset<Arc<Node>>,
    m: Multiset<Arc<Node>>,
    lo: int,
    hi: int,
    key: int,
)
    requires
        one_each(m, lo, hi, key),
        lo < hi,
        own == Multiset::<Arc<Node>>::empty() || key == lo && n.width == hi - lo && own
            == Multiset::singleton(n),
        key == lo ==> forall|x: Arc<Node>| #[trigger] m.count(x) > 0 ==> x.width < hi - lo,
    ensures
        one_each(own.add(m), lo, hi, key),
{
    let all = own.add(m);
    assert forall|x: Arc<Node>| #[trigger] all.count(x) == own.count(x) + m.count(x) by {}
    if own == Multiset::<Arc<Node>>::empty() {
        assert(all =~= m);
    } else {
        assert forall|x: Arc<Node>| own.count(x) == (if x == n {
            1nat
        } else {
            0
        }) by {}
        assert(m.count(n) == 0);
    }
}

/// A tree begins before it ends.
pub proof fn lemma_extent(a: Seq<Tok>, p: int, n: Arc<Node>)
    requires
        toks_ok(a),
        bands_ok(a, p, n@),
        fits(a, p, n@),
    ensures
        0 <= p < p + sn(n@) < a.len(),
        a[p].start < a[p + sn(n@) - 1].end,
        n.width == a[p + sn(n@) - 1].end - a[p].start,
{
    if sn(n@) > 1 {
        assert(a[p].end <= a[p + sn(n@) - 1].start);
    }
}

/// Under one byte, one subtree of each width is cached.
#[verifier::spinoff_prover]
#[verifier::rlimit(60)]
proof fn lemma_one_each(n: Arc<Node>, a: Seq<Tok>, p: int, key: u64)
    requires
        toks_ok(a),
        bands_ok(a, p, n@),
        fits(a, p, n@),
    ensures
        one_each(starting_at(n, a, p, key), a[p].start, a[p + sn(n@) - 1].end, key as int),
    decreases n, 0int,
{
    let lo = a[p].start;
    let end = p + sn(n@) - 1;
    let hi = a[end].end;
    let k = key as int;
    let own = own_entry(n, a, p, key);
    let none = Multiset::<Arc<Node>>::empty();
    lemma_extent(a, p, n);
    match n.kind {
        NodeKind::Prefix { op, child } => {
            lemma_one_each(child, a, p + 1, key);
            let m = starting_at(child, a, p + 1, key);
            lemma_extent(a, p + 1, child);
            assert(lo < a[p].end <= a[p + 1].start);
            lemma_both(none, m, lo, lo, a[p + 1].start, hi, k);
            assert(none.add(m) =~= m);
            lemma_above(n, own, m, lo, hi, k);
        },
        NodeKind::Paren { inner } => {
            lemma_one_each(inner, a, p + 1, key);
            let m = starting_at(inner, a, p + 1, key);
            let e = p + sn(inner@);
            lemma_extent(a, p + 1, inner);
            assert(sn(n@) == sn(inner@) + 2);
            assert(lo < a[p].end <= a[p + 1].start);
            assert(a[e].end <= a[end].start);
            lemma_both(none, m, lo, lo, a[p + 1].start, a[e].end, k);
            lemma_both(m, none, lo, a[e].end, a[e].end, hi, k);
            assert(none.add(m) =~= m && m.add(none) =~= m);
            lemma_above(n, own, m, lo, hi, k);
        },
        NodeKind::Binary { op, left, right } => {
            let q = p + sn(left@) + 1;
            lemma_one_each(left, a, p, key);
            lemma_one_each(right, a, q, key);
            let (x, y) = (starting_at(left, a, p, key), starting_at(right, a, q, key));
            lemma_extent(a, p, left);
            lemma_extent(a, q, right);
            assert(a[q - 2].end <= a[q].start);
            lemma_both(x, y, lo, a[q - 2].end, a[q].start, hi, k);
            lemma_above(n, own, x.add(y), lo, hi, k);
            assert(own.add(x).add(y) =~= own.add(x.add(y)));
        },
        NodeKind::Ternary { cond, then, else_ } => {
            let q = p + sn(cond@) + 1;
            let r = p + sn(cond@) + sn(then@) + 2;
            lemma_one_each(cond, a, p, key);
            lemma_one_each(then, a, q, key);
            lemma_one_each(else_, a, r, key);
            let (x, y, z) = (
                starting_at(cond, a, p, key),
                starting_at(then, a, q, key),
                starting_at(else_, a, r, key),
            );
            lemma_extent(a, p, cond);
            lemma_extent(a, q, then);
            lemma_extent(a, r, else_);
            assert(a[q - 2].end <= a[q].start);
            assert(a[r - 2].end <= a[r].start);
            lemma_both(x, y, lo, a[q - 2].end, a[q].start, a[r - 2].end, k);
            lemma_both(x.add(y), z, lo, a[r - 2].end, a[r].start, hi, k);
            lemma_above(n, own, x.add(y).add(z), lo, hi, k);
            assert(own.add(x).add(y).add(z) =~= own.add(x.add(y).add(z)));
        },
        NodeKind::Index { array, index } => {
            let q = p + sn(array@) + 1;
            lemma_one_each(array, a, p, key);
            lemma_one_each(index, a, q, key);
            let (x, y) = (starting_at(array, a, p, key), starting_at(index, a, q, key));
            lemma_extent(a, p, array);
            lemma_extent(a, q, index);
            assert(sn(n@) == sn(array@) + sn(index@) + 2);
            assert(a[q - 2].end <= a[q].start);
            assert(a[end - 1].end <= a[end].start);
            lemma_both(x, y, lo, a[q - 2].end, a[q].start, a[end - 1].end, k);
            lemma_both(x.add(y), none, lo, a[end - 1].end, a[end - 1].end, hi, k);
            assert(x.add(y).add(none) =~= x.add(y));
            lemma_above(n, own, x.add(y), lo, hi, k);
            assert(own.add(x).add(y) =~= own.add(x.add(y)));
        },
        NodeKind::Member { object, field } => {
            lemma_one_each(object, a, p, key);
            let x = starting_at(object, a, p, key);
            lemma_extent(a, p, object);
            let e = p + sn(object@) - 1;
            assert(a[e].end <= a[end].start);
            lemma_both(x, none, lo, a[e].end, a[e].end, hi, k);
            assert(x.add(none) =~= x);
            lemma_above(n, own, x, lo, hi, k);
        },
        NodeKind::Call { callee, args } => {
            let q = p + sn(callee@) + 1;
            let fs = norms(shapes(args@));
            lemma_call_shape(&*n);
            lemma_norm_call(n@);
            lemma_one_each(callee, a, p, key);
            lemma_extent(a, p, callee);
            assert forall|i: int| 0 <= i < args@.len() implies bands_ok(
                a,
                #[trigger] at(q, fs, i),
                args@[i]@,
            ) && fits(a, at(q, fs, i), args@[i]@) by {
                assert(shapes(args@)[i] == args@[i]@);
            }
            assert(sn(n@) == sn(callee@) + 1 + (if args@.len() == 0 {
                1
            } else {
                lt(fs, args@.len() as int)
            }));
            if args@.len() > 0 {
                let last = args@.len() - 1;
                assert(bands_ok(a, at(q, fs, last), args@[last]@));
                lemma_args_order(fs, q, last, args@.len() as int, a, args@);
                assert(end == at(q, fs, args@.len() as int) - 1);
            }
            lemma_one_each_args(args@, args@.len() as int, a, q, end, key);
            let x = starting_at(callee, a, p, key);
            let y = args_starting_at(args@, args@.len() as int, a, q, key);
            assert(a[q - 2].end <= a[q - 1].start);
            assert(a[q - 1].end <= a[end].end) by {
                if q - 1 < end {
                    assert(a[q - 1].end <= a[end].start);
                }
            }
            lemma_both(x, y, lo, a[q - 2].end, a[q - 1].end, hi, k);
            lemma_above(n, own, x.add(y), lo, hi, k);
            assert(own.add(x).add(y) =~= own.add(x.add(y)));
        },
        _ => {
            lemma_both(none, none, lo, lo, hi, hi, k);
            assert(none.add(none) =~= none);
            lemma_above(n, own, none, lo, hi, k);
            assert(own.add(none) =~= own);
        },
    }
}

/// So it is for the first `j` arguments of a call, before the token that closes
/// them.
proof fn lemma_one_each_args(
    args: Seq<Arc<Node>>,
    j: int,
    a: Seq<Tok>,
    q: int,
    end: int,
    key: u64,
)
    requires
        toks_ok(a),
        0 <= j <= args.len(),
        1 <= q <= end < a.len() - 1,
        ({
            let fs = norms(shapes(args));
            &&& args.len() > 0 ==> at(q, fs, args.len() as int) - 1 <= end
            &&& forall|i: int|
                0 <= i < args.len() ==> bands_ok(a, #[trigger] at(q, fs, i), args[i]@) && fits(
                    a,
                    at(q, fs, i),
                    args[i]@,
                )
        }),
    ensures
        one_each(args_starting_at(args, j, a, q, key), a[q - 1].end, a[end].end, key as int),
        j > 0 ==> one_each(
            args_starting_at(args, j, a, q, key),
            a[q - 1].end,
            a[at(q, norms(shapes(args)), j) - 2].end,
            key as int,
        ),
    decreases args, j,
{
    let fs = norms(shapes(args));
    let none = Multiset::<Arc<Node>>::empty();
    let k = key as int;
    if j > 0 {
        lemma_one_each_args(args, j - 1, a, q, end, key);
        let r = at(q, fs, j - 1);
        let last = args[j - 1];
        assert(bands_ok(a, r, last@));
        assert(fs[j - 1] == norm(last@));
        assert(at(q, fs, j) == r + sn(last@) + 1);
        lemma_one_each(last, a, r, key);
        lemma_extent(a, r, last);
        lemma_args_order(fs, q, j - 1, args.len() as int, a, args);
        let x = args_starting_at(args, j - 1, a, q, key);
        let y = starting_at(last, a, r, key);
        let e = at(q, fs, j) - 2;
        assert(a[e].end <= a[end].end) by {
            if e < end {
                assert(a[e].end <= a[end].start);
            }
        }
        if j > 1 {
            assert(a[r - 2].end <= a[r].start);
            lemma_both(x, y, a[q - 1].end, a[r - 2].end, a[r].start, a[e].end, k);
        } else {
            assert(x =~= none);
            assert(a[q - 1].end <= a[r].start);
            lemma_both(none, y, a[q - 1].end, a[q - 1].end, a[r].start, a[e].end, k);
            assert(none.add(y) =~= x.add(y));
        }
        lemma_both(x.add(y), none, a[q - 1].end, a[e].end, a[e].end, a[end].end, k);
        assert(x.add(y).add(none) =~= x.add(y));
    }
}

/// Arguments stand in order.
proof fn lemma_args_order(
    fs: Seq<Form>,
    q: int,
    i: int,
    j: int,
    a: Seq<Tok>,
    args: Seq<Arc<Node>>,
)
    requires
        fs == norms(shapes(args)),
        0 <= i < j <= args.len(),
        forall|k: int| 0 <= k < args.len() ==> bands_ok(a, #[trigger] at(q, fs, k), args[k]@),
    ensures
        q <= at(q, fs, i),
        i > 0 ==> q + 2 <= at(q, fs, i),
        at(q, fs, i) + sn(args[i]@) + 1 <= at(q, fs, j),
    decreases j,
{
    assert(fs[j - 1] == norm(args[j - 1]@));
    assert(at(q, fs, j) == at(q, fs, j - 1) + sn(args[j - 1]@) + 1);
    assert(bands_ok(a, at(q, fs, j - 1), args[j - 1]@));
    if i < j - 1 {
        lemma_args_order(fs, q, i, j - 1, a, args);
    } else if i > 0 {
        lemma_args_order(fs, q, i - 1, i, a, args);
    }
}

/// Trees of different widths are in one order, widest first.
proof fn lemma_one_order(u: Seq<Arc<Node>>, v: Seq<Arc<Node>>)
    requires
        widest_first(u),
        widest_first(v),
        u.to_multiset() == v.to_multiset(),
        forall|i: int, j: int|
            0 <= i < u.len() && 0 <= j < u.len() && (#[trigger] u[i]).width == (#[trigger] u[j]).width
                ==> u[i] == u[j],
    ensures
        u == v,
    decreases u.len(),
{
    to_multiset_len(u);
    to_multiset_len(v);
    if u.len() == 0 {
        assert(u =~= v);
    } else {
        let n = u.len() - 1;
        u.to_multiset_ensures();
        v.to_multiset_ensures();
        assert(u.contains(v[n])) by {
            assert(v.contains(v[n]));
            assert(u.to_multiset().contains(v[n]));
        }
        assert(v.contains(u[n])) by {
            assert(u.contains(u[n]));
            assert(v.to_multiset().contains(u[n]));
        }
        let i = choose|i: int| 0 <= i < u.len() && u[i] == v[n];
        let j = choose|j: int| 0 <= j < v.len() && v[j] == u[n];
        assert(u[i].width >= u[n].width);
        assert(v[j].width >= v[n].width);
        assert(u[i] == u[n]);
        to_multiset_remove(u, n);
        to_multiset_remove(v, n);
        let (x, y) = (u.drop_last(), v.drop_last());
        assert(u.remove(n) =~= x);
        assert(v.remove(n) =~= y);
        assert(widest_first(x));
        assert(widest_first(y));
        lemma_one_order(x, y);
        assert(u =~= x.push(u[n]));
        assert(v =~= y.push(v[n]));
    }
}

/// The cache of a tree is fixed by the tree: which subtrees stand under which
/// byte, in which order, and which span stands under which identity.
pub proof fn law_cache_fixed(
    tree: Arc<Node>,
    src: Seq<u8>,
    c: ReuseCache,
    d: ReuseCache,
    key: u64,
)
    requires
        src.len() <= u32::MAX,
        parsed(*tree, src),
        c.ok(src),
        d.ok(src),
        c.holds(tree, src),
        d.holds(tree, src),
    ensures
        c.by_byte.cands(key) == d.by_byte.cands(key),
        c.spans is Some && d.spans is Some ==> c.spans->0.span_of(key) == d.spans->0.span_of(key),
{
    let a = lex(src);
    lemma_parsed_bands(tree, src);
    lemma_one_each(tree, a, 0, key);
    let (u, v) = (c.by_byte.cands(key), d.by_byte.cands(key));
    let m = starting_at(tree, a, 0, key);
    assert(u.to_multiset() == m && v.to_multiset() == m);
    u.to_multiset_ensures();
    assert forall|i: int, j: int|
        0 <= i < u.len() && 0 <= j < u.len() && (#[trigger] u[i]).width == (#[trigger] u[j]).width implies u[i]
        == u[j] by {
        assert(u.contains(u[i]) && u.contains(u[j]));
        assert(m.contains(u[i]) && m.contains(u[j]));
        assert(m.count(u[i]) > 0 && m.count(u[j]) > 0);
    }
    assert(widest_first(u) && widest_first(v)) by {
        assert(Seq::<Arc<Node>>::empty().len() == 0);
    }
    lemma_one_order(u, v);
}

} // verus!
