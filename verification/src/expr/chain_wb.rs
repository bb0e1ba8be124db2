//! Weight-balanced concatenation of chain trees.
//!
//! A chain tree is a leaf tree: the operands are its leaves, binary nodes of
//! the chain's operator its spine. `join` concatenates two of them and rotates
//! where one side is more than three times as heavy as the other: once, unless
//! the inner part is at least twice as heavy as the outer one.

use std::sync::Arc;
use vstd::prelude::*;

use crate::expr::assemble::lemma_at_order;
use crate::expr::ast::{fresh_id, same_kids, IdSource, Node, NodeKind, Shape, ShapeKind};
use crate::expr::cache::ReuseCache;
use crate::expr::grammar::{at, listed, toks_ok, Form};
use crate::expr::lexer::{Tok, TokenKind};
use crate::expr::naming::{
    all_minted, apart, built, drawn, lemma_all_one, lemma_build, lemma_halves_apart, lemma_pair,
    lemma_range, minted, mints, within,
};
use crate::expr::op::{chain_kind, lbp_of};
use crate::expr::pratt_core::{chain_size, lemma_balanced, lemma_list_bounds, ChainOperand};
use crate::expr::shape::{
    fits, flat, inner_ok, is_bin, lemma_flat_nonempty, lemma_part_tokens, level, levelled, near,
    weight,
};

verus! {

/// The heavier child of a node may be at most this many times as heavy as the
/// lighter one.
pub const DELTA: u64 = 3;

/// A chain tree with its byte span `[lo, hi)`.
pub struct Piece {
    pub node: Arc<Node>,
    pub lo: u32,
    pub hi: u32,
}

/// `n` is a tree of operands `i..j` of the chain whose operands `fs` stand
/// from token `p` on.
pub open spec fn part_ok(
    a: Seq<Tok>,
    p: int,
    op: TokenKind,
    fs: Seq<Form>,
    n: Node,
    i: int,
    j: int,
) -> bool {
    &&& 0 <= i < j <= fs.len()
    &&& flat(n@, op) == fs.subrange(i, j)
    &&& fits(a, at(p, fs, i), n@)
    &&& inner_ok(n@, op)
    &&& n.weighted()
}

impl Piece {
    /// The piece holds operands `i..j`, and its span is theirs.
    pub open spec fn ok(
        &self,
        a: Seq<Tok>,
        p: int,
        op: TokenKind,
        fs: Seq<Form>,
        i: int,
        j: int,
    ) -> bool {
        &&& part_ok(a, p, op, fs, *self.node, i, j)
        &&& self.lo == a[at(p, fs, i)].start
        &&& self.hi == a[at(p, fs, j) - 2].end
    }
}

/// How a chain tree is grouped, and what of it stood before.
pub ghost enum Spine {
    /// An operand, as it is.
    Leaf(Arc<Node>),
    /// Number `k` of the operands that were parsed again.
    New(int),
    /// Two stretches under one node: a node that stood before, as it is, or a
    /// new one.
    Fork(Option<Arc<Node>>, Box<Spine>, Box<Spine>),
}

/// The grouping of a tree that stands as it is.
pub open spec fn spine(n: Arc<Node>, op: TokenKind) -> Spine
    decreases n,
{
    match n.kind {
        NodeKind::Binary { op: o, left, right } => if o == op {
            Spine::Fork(Some(n), Box::new(spine(left, op)), Box::new(spine(right, op)))
        } else {
            Spine::Leaf(n)
        },
        _ => Spine::Leaf(n),
    }
}

/// `l` and `r` under a new node.
pub open spec fn fork(l: Spine, r: Spine) -> Spine {
    Spine::Fork(None, Box::new(l), Box::new(r))
}

impl Spine {
    /// Number of operands.
    pub open spec fn size(self) -> int
        decreases self,
    {
        match self {
            Spine::Fork(_, l, r) => l.size() + r.size(),
            _ => 1,
        }
    }

    /// No side of a node is more than three times as heavy as the other.
    pub open spec fn even(self) -> bool
        decreases self,
    {
        match self {
            Spine::Fork(_, l, r) => l.even() && r.even() && near(l.size(), r.size()),
            _ => true,
        }
    }

    /// The operands, in order.
    pub open spec fn leaves(self) -> Seq<Spine>
        decreases self,
    {
        match self {
            Spine::Fork(_, l, r) => l.leaves() + r.leaves(),
            _ => seq![self],
        }
    }

    /// `c` is one of the largest subtrees that stand as they are.
    pub open spec fn keeps(self, c: &Node) -> bool
        decreases self,
    {
        match self {
            Spine::Leaf(n) => *n == *c,
            Spine::New(k) => false,
            Spine::Fork(Some(n), l, r) => *n == *c,
            Spine::Fork(None, l, r) => l.keeps(c) || r.keeps(c),
        }
    }
}

/// `n` is grouped as `s` says; `news` are the operands that were parsed again.
pub open spec fn grown(n: Arc<Node>, s: Spine, op: TokenKind, news: Seq<Arc<Node>>) -> bool
    decreases s,
{
    match s {
        Spine::Leaf(c) => n == c && !is_bin(n@, op),
        Spine::New(k) => 0 <= k < news.len() && n == news[k] && !is_bin(n@, op),
        Spine::Fork(was, l, r) => {
            &&& was matches Some(c) ==> n == c && s == spine(c, op)
            &&& n.kind matches NodeKind::Binary { op: o, left, right } && {
                &&& o == op
                &&& grown(left, *l, op, news)
                &&& grown(right, *r, op, news)
            }
        },
    }
}

/// `l` and `r` under one node; where `r` is too heavy, part of it goes over.
pub open spec fn lean_left(l: Spine, r: Spine) -> Spine {
    if near(l.size(), r.size()) {
        fork(l, r)
    } else {
        match r {
            Spine::Fork(_, c, d) => if c.size() < 2 * d.size() {
                fork(fork(l, *c), *d)
            } else {
                match *c {
                    Spine::Fork(_, c1, c2) => fork(fork(l, *c1), fork(*c2, *d)),
                    _ => fork(l, r),
                }
            },
            _ => fork(l, r),
        }
    }
}

/// `l` and `r` under one node; where `l` is too heavy, part of it goes over.
pub open spec fn lean_right(l: Spine, r: Spine) -> Spine {
    if near(l.size(), r.size()) {
        fork(l, r)
    } else {
        match l {
            Spine::Fork(_, c, d) => if d.size() < 2 * c.size() {
                fork(*c, fork(*d, r))
            } else {
                match *d {
                    Spine::Fork(_, d1, d2) => fork(fork(*c, *d1), fork(*d2, r)),
                    _ => fork(l, r),
                }
            },
            _ => fork(l, r),
        }
    }
}

/// `l` followed by `r`: under one node where neither is more than three times
/// as heavy as the other, else the lighter one goes down the edge of the
/// heavier one.
pub open spec fn concat(l: Spine, r: Spine) -> Spine
    decreases l, r,
{
    if near(l.size(), r.size()) {
        fork(l, r)
    } else if l.size() > r.size() {
        match l {
            Spine::Fork(_, x, y) => lean_left(*x, concat(*y, r)),
            _ => fork(l, r),
        }
    } else {
        match r {
            Spine::Fork(_, x, y) => lean_right(concat(l, *x), *y),
            _ => fork(l, r),
        }
    }
}

/// The first `k` stretches, one after the other.
pub open spec fn concat_upto(ss: Seq<Spine>, k: int) -> Spine
    decreases k,
{
    if 1 < k <= ss.len() {
        concat(concat_upto(ss, k - 1), ss[k - 1])
    } else {
        ss[0]
    }
}

/// A tree that stands as it is is grouped as it is.
pub proof fn lemma_own_spine(n: Arc<Node>, op: TokenKind, news: Seq<Arc<Node>>)
    ensures
        grown(n, spine(n, op), op, news),
    decreases n,
{
    if let NodeKind::Binary { op: o, left, right } = n.kind {
        if o == op {
            lemma_own_spine(left, op, news);
            lemma_own_spine(right, op, news);
        }
    }
}

/// The leaves of a spine are the operands of the chain.
pub proof fn lemma_grown(n: Arc<Node>, s: Spine, op: TokenKind, news: Seq<Arc<Node>>)
    requires
        grown(n, s, op, news),
    ensures
        s.size() == flat(n@, op).len(),
        s.size() >= 1,
        s.even() == level(n@, op),
        s.size() >= 2 <==> s is Fork,
    decreases s,
{
    lemma_flat_nonempty(n@, op);
    if let Spine::Fork(was, l, r) = s {
        if let NodeKind::Binary { op: o, left, right } = n.kind {
            lemma_grown(left, *l, op, news);
            lemma_grown(right, *r, op, news);
        }
    }
}

/// What a spine keeps stands in the tree, and so do its operands.
pub proof fn lemma_grown_within(
    n: Arc<Node>,
    s: Spine,
    op: TokenKind,
    news: Seq<Arc<Node>>,
    c: &Node,
)
    requires
        grown(n, s, op, news),
    ensures
        s.keeps(c) ==> within(&*n, c),
        forall|i: int|
            0 <= i < s.leaves().len() ==> match #[trigger] s.leaves()[i] {
                Spine::Leaf(x) => within(&*x, c) ==> within(&*n, c),
                Spine::New(k) => 0 <= k < news.len() && (within(&*news[k], c) ==> within(&*n, c)),
                Spine::Fork(_, l, r) => false,
            },
    decreases s,
{
    match s {
        Spine::Fork(was, l, r) => {
            if let NodeKind::Binary { op: o, left, right } = n.kind {
                lemma_grown_within(left, *l, op, news, c);
                lemma_grown_within(right, *r, op, news, c);
                let (x, y) = (l.leaves(), r.leaves());
                assert forall|i: int| 0 <= i < s.leaves().len() implies match #[trigger] s.leaves()[i] {
                    Spine::Leaf(x) => within(&*x, c) ==> within(&*n, c),
                    Spine::New(k) => 0 <= k < news.len() && (within(&*news[k], c) ==> within(
                        &*n,
                        c,
                    )),
                    Spine::Fork(_, l, r) => false,
                } by {
                    if i < x.len() {
                        assert(s.leaves()[i] == x[i]);
                    } else {
                        assert(s.leaves()[i] == y[i - x.len()]);
                    }
                }
            }
        },
        _ => {},
    }
}

proof fn lemma_size(s: Spine)
    ensures
        s.size() >= 1,
        s.size() >= 2 <==> s is Fork,
    decreases s,
{
    if let Spine::Fork(was, l, r) = s {
        lemma_size(*l);
        lemma_size(*r);
    }
}

/// Concatenation keeps all operands, in order, and adds none.
pub proof fn law_concat_leaves(l: Spine, r: Spine)
    ensures
        concat(l, r).leaves() == l.leaves() + r.leaves(),
        concat(l, r).size() == l.size() + r.size(),
    decreases l, r,
{
    if !near(l.size(), r.size()) {
        if l.size() > r.size() {
            if let Spine::Fork(was, x, y) = l {
                law_concat_leaves(*y, r);
                lemma_lean_leaves(*x, concat(*y, r));
                assert(x.leaves() + (y.leaves() + r.leaves()) =~= (x.leaves() + y.leaves())
                    + r.leaves());
            }
        } else {
            if let Spine::Fork(was, x, y) = r {
                law_concat_leaves(l, *x);
                lemma_lean_leaves(concat(l, *x), *y);
                assert((l.leaves() + x.leaves()) + y.leaves() =~= l.leaves() + (x.leaves()
                    + y.leaves()));
            }
        }
    }
}

proof fn lemma_grown_parts(
    n: Arc<Node>,
    s: Spine,
    op: TokenKind,
    news: Seq<Arc<Node>>,
    l: Arc<Node>,
    r: Arc<Node>,
)
    requires
        n.kind == (NodeKind::Binary { op, left: l, right: r }),
        grown(n, s, op, news),
        s is Fork,
    ensures
        s matches Spine::Fork(_, x, y) ==> grown(l, *x, op, news) && grown(r, *y, op, news),
{
}

proof fn lemma_fork(l: Spine, r: Spine)
    ensures
        fork(l, r).leaves() == l.leaves() + r.leaves(),
        fork(l, r).size() == l.size() + r.size(),
{
}

proof fn lemma_lean_leaves(l: Spine, r: Spine)
    ensures
        lean_left(l, r).leaves() == l.leaves() + r.leaves(),
        lean_right(l, r).leaves() == l.leaves() + r.leaves(),
        lean_left(l, r).size() == l.size() + r.size(),
        lean_right(l, r).size() == l.size() + r.size(),
{
    lemma_fork(l, r);
    if let Spine::Fork(was, c, d) = r {
        let (x, y, z) = (l.leaves(), c.leaves(), d.leaves());
        lemma_fork(l, *c);
        lemma_fork(fork(l, *c), *d);
        assert((x + y) + z =~= x + (y + z));
        if let Spine::Fork(old, c1, c2) = *c {
            let (v, w) = (c1.leaves(), c2.leaves());
            lemma_fork(l, *c1);
            lemma_fork(*c2, *d);
            lemma_fork(fork(l, *c1), fork(*c2, *d));
            assert((x + v) + (w + z) =~= x + ((v + w) + z));
        }
    }
    if let Spine::Fork(was, c, d) = l {
        let (x, y, z) = (c.leaves(), d.leaves(), r.leaves());
        lemma_fork(*d, r);
        lemma_fork(*c, fork(*d, r));
        assert(x + (y + z) =~= (x + y) + z);
        if let Spine::Fork(old, d1, d2) = *d {
            let (v, w) = (d1.leaves(), d2.leaves());
            lemma_fork(*c, *d1);
            lemma_fork(*d2, r);
            lemma_fork(fork(*c, *d1), fork(*d2, r));
            assert((x + v) + (w + z) =~= (x + (v + w)) + z);
        }
    }
}

proof fn lemma_lean_left(l: Spine, r: Spine)
    requires
        l.even(),
        r.even(),
        l.size() <= 3 * r.size(),
        3 * r.size() < 13 * l.size(),
    ensures
        lean_left(l, r).even(),
{
    reveal_with_fuel(Spine::size, 4);
    reveal_with_fuel(Spine::even, 4);
    lemma_size(l);
    lemma_size(r);
    if let Spine::Fork(was, c, d) = r {
        lemma_size(*c);
        lemma_size(*d);
        if let Spine::Fork(old, c1, c2) = *c {
            lemma_size(*c1);
            lemma_size(*c2);
        }
    }
}

proof fn lemma_lean_right(l: Spine, r: Spine)
    requires
        l.even(),
        r.even(),
        r.size() <= 3 * l.size(),
        3 * l.size() < 13 * r.size(),
    ensures
        lean_right(l, r).even(),
{
    reveal_with_fuel(Spine::size, 4);
    reveal_with_fuel(Spine::even, 4);
    lemma_size(l);
    lemma_size(r);
    if let Spine::Fork(was, c, d) = l {
        lemma_size(*c);
        lemma_size(*d);
        if let Spine::Fork(old, d1, d2) = *d {
            lemma_size(*d1);
            lemma_size(*d2);
        }
    }
}

/// Two balanced trees make a balanced one, whatever they weigh.
pub proof fn law_concat_even(l: Spine, r: Spine)
    requires
        l.even(),
        r.even(),
    ensures
        concat(l, r).even(),
    decreases l, r,
{
    lemma_size(l);
    lemma_size(r);
    if !near(l.size(), r.size()) {
        if l.size() > r.size() {
            if let Spine::Fork(was, x, y) = l {
                lemma_size(*x);
                lemma_size(*y);
                law_concat_even(*y, r);
                law_concat_leaves(*y, r);
                lemma_lean_left(*x, concat(*y, r));
            }
        } else {
            if let Spine::Fork(was, x, y) = r {
                lemma_size(*x);
                lemma_size(*y);
                law_concat_even(l, *x);
                law_concat_leaves(l, *x);
                lemma_lean_right(concat(l, *x), *y);
            }
        }
    }
}

/// So do any number of them.
pub proof fn law_concat_upto(ss: Seq<Spine>, k: int)
    requires
        0 < k <= ss.len(),
    ensures
        (forall|i: int| 0 <= i < k ==> (#[trigger] ss[i]).even()) ==> concat_upto(ss, k).even(),
        forall|i: int, j: int|
            0 <= i < k && 0 <= j < ss[i].leaves().len() ==> concat_upto(ss, k).leaves().contains(
                #[trigger] ss[i].leaves()[j],
            ),
    decreases k,
{
    if k > 1 {
        law_concat_upto(ss, k - 1);
        let (l, r) = (concat_upto(ss, k - 1), ss[k - 1]);
        law_concat_leaves(l, r);
        if forall|i: int| 0 <= i < k ==> (#[trigger] ss[i]).even() {
            law_concat_even(l, r);
        }
        let all = concat_upto(ss, k).leaves();
        assert forall|i: int, j: int| 0 <= i < k && 0 <= j < ss[i].leaves().len() implies all.contains(
            #[trigger] ss[i].leaves()[j],
        ) by {
            if i < k - 1 {
                assert(l.leaves().contains(ss[i].leaves()[j]));
                let h = choose|h: int|
                    0 <= h < l.leaves().len() && l.leaves()[h] == ss[i].leaves()[j];
                assert(all[h] == l.leaves()[h]);
            } else {
                assert(all[l.leaves().len() + j] == r.leaves()[j]);
            }
        }
    } else {
        assert forall|i: int, j: int| 0 <= i < k && 0 <= j < ss[i].leaves().len() implies concat_upto(
            ss,
            k,
        ).leaves().contains(#[trigger] ss[i].leaves()[j]) by {
            assert(ss[0].leaves()[j] == ss[i].leaves()[j]);
        }
    }
}

/// Concatenation makes a new node.
pub proof fn lemma_concat_new(l: Spine, r: Spine)
    ensures
        concat(l, r) matches Spine::Fork(None, _, _),
{
}

/// A new node with other metadata is grouped the same.
pub proof fn lemma_grown_stamped(
    n: Arc<Node>,
    m: Arc<Node>,
    s: Spine,
    op: TokenKind,
    news: Seq<Arc<Node>>,
)
    requires
        grown(n, s, op, news),
        s matches Spine::Fork(None, _, _),
        same_kids(&*n, &*m),
        is_bin(m@, op),
    ensures
        grown(m, s, op, news),
{
}

/// Every chain of every operand is balanced.
pub open spec fn leaves_levelled(s: Spine, news: Seq<Arc<Node>>) -> bool {
    forall|i: int|
        0 <= i < s.leaves().len() ==> match #[trigger] s.leaves()[i] {
            Spine::Leaf(c) => levelled(c@),
            Spine::New(k) => levelled(news[k]@),
            Spine::Fork(_, l, r) => true,
        }
}

/// A balanced tree of operands whose chains are balanced.
pub proof fn lemma_grown_levelled(n: Arc<Node>, s: Spine, op: TokenKind, news: Seq<Arc<Node>>)
    requires
        grown(n, s, op, news),
        s.even(),
        leaves_levelled(s, news),
    ensures
        levelled(n@),
    decreases s,
{
    match s {
        Spine::Fork(was, l, r) => {
            if let NodeKind::Binary { op: o, left, right } = n.kind {
                let (x, y) = (l.leaves(), r.leaves());
                lemma_leaves_parts(*l, *r, s, news);
                lemma_grown(left, *l, op, news);
                lemma_grown(right, *r, op, news);
                lemma_grown_levelled(left, *l, op, news);
                lemma_grown_levelled(right, *r, op, news);
            }
        },
        _ => {
            assert(s.leaves()[0] == s);
        },
    }
}

/// What holds of the operands of two stretches holds of those of both.
proof fn lemma_leaves_parts(l: Spine, r: Spine, s: Spine, news: Seq<Arc<Node>>)
    requires
        s.leaves() == l.leaves() + r.leaves(),
    ensures
        leaves_levelled(s, news) == (leaves_levelled(l, news) && leaves_levelled(r, news)),
{
    let (x, y, z) = (l.leaves(), r.leaves(), s.leaves());
    if leaves_levelled(s, news) {
        assert forall|i: int| 0 <= i < x.len() implies match #[trigger] x[i] {
            Spine::Leaf(c) => levelled(c@),
            Spine::New(k) => levelled(news[k]@),
            Spine::Fork(_, l, r) => true,
        } by {
            assert(z[i] == x[i]);
        }
        assert forall|i: int| 0 <= i < y.len() implies match #[trigger] y[i] {
            Spine::Leaf(c) => levelled(c@),
            Spine::New(k) => levelled(news[k]@),
            Spine::Fork(_, l, r) => true,
        } by {
            assert(z[x.len() + i] == y[i]);
        }
    }
    if leaves_levelled(l, news) && leaves_levelled(r, news) {
        assert forall|i: int| 0 <= i < z.len() implies match #[trigger] z[i] {
            Spine::Leaf(c) => levelled(c@),
            Spine::New(k) => levelled(news[k]@),
            Spine::Fork(_, l, r) => true,
        } by {
            if i < x.len() {
                assert(z[i] == x[i]);
            } else {
                assert(z[i] == y[i - x.len()]);
            }
        }
    }
}

/// The operands of a balanced tree.
pub proof fn lemma_own_levelled(n: Arc<Node>, op: TokenKind, news: Seq<Arc<Node>>)
    requires
        levelled(n@),
    ensures
        leaves_levelled(spine(n, op), news),
    decreases n,
{
    let s = spine(n, op);
    if let NodeKind::Binary { op: o, left, right } = n.kind {
        if o == op {
            lemma_own_levelled(left, op, news);
            lemma_own_levelled(right, op, news);
            lemma_leaves_parts(spine(left, op), spine(right, op), s, news);
        }
    }
}

/// A tree whose chains are balanced is balanced as a chain.
pub proof fn lemma_level(t: Shape, op: TokenKind)
    requires
        levelled(t),
        chain_kind(op),
    ensures
        level(t, op),
    decreases t,
{
    if let ShapeKind::Binary { op: o, left, right } = t.kind {
        if o == op {
            lemma_level(*left, op);
            lemma_level(*right, op);
        }
    }
}

/// Stretches of balanced operands, one after the other.
pub proof fn lemma_upto_levelled(ss: Seq<Spine>, k: int, news: Seq<Arc<Node>>)
    requires
        0 < k <= ss.len(),
        forall|i: int| 0 <= i < k ==> leaves_levelled(#[trigger] ss[i], news),
    ensures
        leaves_levelled(concat_upto(ss, k), news),
    decreases k,
{
    if k > 1 {
        lemma_upto_levelled(ss, k - 1, news);
        let l = concat_upto(ss, k - 1);
        law_concat_leaves(l, ss[k - 1]);
        lemma_leaves_parts(l, ss[k - 1], concat_upto(ss, k), news);
    }
}

/// What the operations on pieces of one chain rely on.
pub open spec fn chain_place(a: Seq<Tok>, p: int, op: TokenKind, fs: Seq<Form>) -> bool {
    &&& chain_kind(op)
    &&& toks_ok(a)
    &&& 0 <= p
    &&& listed(a, p, fs)
}

/// Operand count of a piece.
fn size(
    pc: &Piece,
    op: TokenKind,
    Ghost(a): Ghost<Seq<Tok>>,
    Ghost(p): Ghost<int>,
    Ghost(fs): Ghost<Seq<Form>>,
    Ghost(i): Ghost<int>,
    Ghost(j): Ghost<int>,
) -> (r: u32)
    requires
        chain_kind(op),
        pc.ok(a, p, op, fs, i, j),
    ensures
        r == j - i,
{
    chain_size(&pc.node, op)
}

/// The two children of a spine node.
fn children<'a>(
    pc: &Piece,
    op: TokenKind,
    Ghost(a): Ghost<Seq<Tok>>,
    Ghost(p): Ghost<int>,
    Ghost(fs): Ghost<Seq<Form>>,
    Ghost(i): Ghost<int>,
    Ghost(j): Ghost<int>,
    Ghost(cache): Ghost<Option<&'a ReuseCache>>,
    Ghost(lo): Ghost<u64>,
    Ghost(hi): Ghost<u64>,
) -> (r: (Piece, Piece))
    requires
        chain_place(a, p, op, fs),
        pc.ok(a, p, op, fs, i, j),
        j - i >= 2,
        minted(cache, &*pc.node, lo, hi),
    ensures
        minted(cache, &*r.0.node, lo, hi),
        minted(cache, &*r.1.node, lo, hi),
        apart(cache, &*r.0.node, &*r.1.node),
        pc.node.kind == (NodeKind::Binary { op, left: r.0.node, right: r.1.node }),
        forall|id: u64| #[trigger]
            mints(cache, &*r.0.node, id) ==> mints(cache, &*pc.node, id),
        forall|id: u64| #[trigger]
            mints(cache, &*r.1.node, id) ==> mints(cache, &*pc.node, id),
        ({
            let k = i + flat(r.0.node@, op).len();
            &&& i < k < j
            &&& r.0.ok(a, p, op, fs, i, k)
            &&& r.1.ok(a, p, op, fs, k, j)
        }),
{
    proof {
        lemma_flat_nonempty(pc.node@, op);
    }
    match &pc.node.kind {
        NodeKind::Binary { op: o, left, right } => {
            let ghost k = i + flat(left@, op).len();
            proof {
                lemma_pair(cache, &*pc.node, lo, hi);
                assert(is_bin(pc.node@, op));
                let l = flat(left@, op);
                let r = flat(right@, op);
                lemma_flat_nonempty(left@, op);
                lemma_flat_nonempty(right@, op);
                assert(fs.subrange(i, k) =~= l) by {
                    assert((l + r).subrange(0, l.len() as int) =~= l);
                    assert(fs.subrange(i, j).subrange(0, l.len() as int) =~= fs.subrange(i, k));
                }
                assert(fs.subrange(k, j) =~= r) by {
                    assert((l + r).subrange(l.len() as int, (l + r).len() as int) =~= r);
                    assert(fs.subrange(i, j).subrange(l.len() as int, j - i) =~= fs.subrange(k, j));
                }
                lemma_part_tokens(left@, op, fs, i, k);
                lemma_part_tokens(right@, op, fs, k, j);
                lemma_part_tokens(pc.node@, op, fs, i, j);
                lemma_list_bounds(a, p, fs, i, k);
                lemma_list_bounds(a, p, fs, k, j);
                lemma_at_order(a, p, fs, i, k);
                lemma_at_order(a, p, fs, k, j);
                assert(fits(a, at(p, fs, i), left@));
                assert(fits(a, at(p, fs, k), right@));
                assert(left.width == a[at(p, fs, k) - 2].end - a[at(p, fs, i)].start);
                assert(right.width == a[at(p, fs, j) - 2].end - a[at(p, fs, k)].start);
            }
            let lhs = Piece { node: Arc::clone(left), lo: pc.lo, hi: pc.lo + left.width };
            let rhs = Piece { node: Arc::clone(right), lo: pc.hi - right.width, hi: pc.hi };
            proof {
                assert(lhs.node@ == left@ && k == i + flat(lhs.node@, op).len());
                assert(lhs.ok(a, p, op, fs, i, k));
                assert(rhs.ok(a, p, op, fs, k, j));
            }
            (lhs, rhs)
        },
        _ => {
            proof {
                assert(!is_bin(pc.node@, op));
                assert(false);
            }
            (
                Piece { node: Arc::clone(&pc.node), lo: pc.lo, hi: pc.hi },
                Piece { node: Arc::clone(&pc.node), lo: pc.lo, hi: pc.hi },
            )
        },
    }
}

/// Two adjacent pieces under one spine node, which is never reused alone.
fn cnode<'a>(
    ids: &mut IdSource,
    op: TokenKind,
    l: Piece,
    r: Piece,
    lbp: u32,
    Ghost(a): Ghost<Seq<Tok>>,
    Ghost(p): Ghost<int>,
    Ghost(fs): Ghost<Seq<Form>>,
    Ghost(i): Ghost<int>,
    Ghost(j): Ghost<int>,
    Ghost(k): Ghost<int>,
    Ghost(cache): Ghost<Option<&'a ReuseCache>>,
    Ghost(low): Ghost<u64>,
) -> (res: Piece)
    requires
        chain_place(a, p, op, fs),
        lbp == lbp_of(op),
        l.ok(a, p, op, fs, i, j),
        r.ok(a, p, op, fs, j, k),
        low <= old(ids).next,
        minted(cache, &*l.node, low, old(ids).next),
        minted(cache, &*r.node, low, old(ids).next),
        apart(cache, &*l.node, &*r.node),
    ensures
        old(ids).next <= final(ids).next,
        old(ids).next == 0 ==> final(ids).next == 0,
        built(cache, &*res.node, low, final(ids).next),
        minted(cache, &*res.node, low, final(ids).next),
        forall|id: u64| #[trigger]
            mints(cache, &*res.node, id) ==> old(ids).next <= id < final(ids).next || mints(
                cache,
                &*l.node,
                id,
            ) || mints(cache, &*r.node, id),
        res.ok(a, p, op, fs, i, k),
        res.node.kind == (NodeKind::Binary { op, left: l.node, right: r.node }),
        res.node.m_spine == lbp,
        res.node.stop_lbp == lbp,
        res.node.m_floor == lbp - 1,
{
    proof {
        lemma_list_bounds(a, p, fs, i, k);
        lemma_list_bounds(a, p, fs, i, j);
        lemma_list_bounds(a, p, fs, j, k);
        lemma_at_order(a, p, fs, i, j);
        lemma_at_order(a, p, fs, j, k);
    }
    let wb: u32 = size(&l, op, Ghost(a), Ghost(p), Ghost(fs), Ghost(i), Ghost(j)) + size(
        &r,
        op,
        Ghost(a),
        Ghost(p),
        Ghost(fs),
        Ghost(j),
        Ghost(k),
    );
    let lo: u32 = l.lo;
    let hi: u32 = r.hi;
    proof {
        assert(a[at(p, fs, i)].start <= a[at(p, fs, k) - 2].end) by {
            if at(p, fs, i) < at(p, fs, k) - 2 {
                assert(a[at(p, fs, i)].end <= a[at(p, fs, k) - 2].start);
            }
        }
    }
    let ghost lt = l.node@;
    let ghost rt = r.node@;
    let id = fresh_id(ids);
    let node = Node {
        kind: NodeKind::Binary { op, left: l.node, right: r.node },
        width: hi - lo,
        m_spine: lbp,
        stop_lbp: lbp,
        m_floor: lbp - 1,
        id,
        wb,
    };
    proof {
        lemma_balanced(a, p, op, fs, i, j, k, lt, rt, node@, 0);
        assert(weight(node@) == flat(node@, op).len());
        lemma_build(cache, &node, low, old(ids).next, ids.next);
    }
    Piece { node: Arc::new(node), lo, hi }
}

fn balanced(x: u32, y: u32) -> (r: bool)
    ensures
        r == (x <= 3 * y && y <= 3 * x),
{
    x as u64 <= DELTA * (y as u64) && y as u64 <= DELTA * (x as u64)
}

/// Two adjacent pieces under one node; where the right one is too heavy, part
/// of it goes over.
#[verifier::rlimit(30)]
fn join_leaning_left<'a>(
    ids: &mut IdSource,
    op: TokenKind,
    l: Piece,
    r: Piece,
    lbp: u32,
    Ghost(a): Ghost<Seq<Tok>>,
    Ghost(p): Ghost<int>,
    Ghost(fs): Ghost<Seq<Form>>,
    Ghost(i): Ghost<int>,
    Ghost(j): Ghost<int>,
    Ghost(k): Ghost<int>,
    Ghost(cache): Ghost<Option<&'a ReuseCache>>,
    Ghost(low): Ghost<u64>,
    Ghost(ls): Ghost<Spine>,
    Ghost(rs): Ghost<Spine>,
    Ghost(news): Ghost<Seq<Arc<Node>>>,
) -> (res: Piece)
    requires
        chain_place(a, p, op, fs),
        lbp == lbp_of(op),
        l.ok(a, p, op, fs, i, j),
        r.ok(a, p, op, fs, j, k),
        grown(l.node, ls, op, news),
        grown(r.node, rs, op, news),
        low <= old(ids).next,
        minted(cache, &*l.node, low, old(ids).next),
        minted(cache, &*r.node, low, old(ids).next),
        apart(cache, &*l.node, &*r.node),
        k - j >= 2,
    ensures
        old(ids).next <= final(ids).next,
        old(ids).next == 0 ==> final(ids).next == 0,
        built(cache, &*res.node, low, final(ids).next),
        minted(cache, &*res.node, low, final(ids).next),
        forall|id: u64| #[trigger]
            mints(cache, &*res.node, id) ==> old(ids).next <= id < final(ids).next || mints(
                cache,
                &*l.node,
                id,
            ) || mints(cache, &*r.node, id),
        grown(res.node, lean_left(ls, rs), op, news),
        res.ok(a, p, op, fs, i, k),
        res.node.m_spine == lbp,
        res.node.stop_lbp == lbp,
        res.node.m_floor == lbp - 1,
        is_bin(res.node@, op),
{
    let g_a = Ghost(a);
    let g_p = Ghost(p);
    let g_fs = Ghost(fs);
    let g_c = Ghost(cache);
    let g_l = Ghost(low);
    let ghost n0 = ids.next;
    proof {
        lemma_range(cache, &*l.node, low, n0, low, n0);
        lemma_range(cache, &*r.node, low, n0, low, n0);
        lemma_grown(l.node, ls, op, news);
        lemma_grown(r.node, rs, op, news);
    }
    let sl: u32 = size(&l, op, g_a, g_p, g_fs, Ghost(i), Ghost(j));
    let sr: u32 = size(&r, op, g_a, g_p, g_fs, Ghost(j), Ghost(k));
    if balanced(sl, sr) {
        return cnode(ids, op, l, r, lbp, g_a, g_p, g_fs, Ghost(i), Ghost(j), Ghost(k), g_c, g_l);
    }
    let (c, d) = children(&r, op, g_a, g_p, g_fs, Ghost(j), Ghost(k), g_c, g_l, Ghost(ids.next));
    let ghost v = j + flat(c.node@, op).len();
    assert(c.ok(a, p, op, fs, j, v) && d.ok(a, p, op, fs, v, k));
    let ghost (cs, ds) = match rs {
        Spine::Fork(_, c, d) => (*c, *d),
        _ => (rs, rs),
    };
    proof {
        lemma_grown(c.node, cs, op, news);
        lemma_grown(d.node, ds, op, news);
    }
    let sc: u32 = size(&c, op, g_a, g_p, g_fs, Ghost(j), Ghost(v));
    let sd: u32 = size(&d, op, g_a, g_p, g_fs, Ghost(v), Ghost(k));
    if (sc as u64) < 2 * (sd as u64) {
        let lc = cnode(ids, op, l, c, lbp, g_a, g_p, g_fs, Ghost(i), Ghost(j), Ghost(v), g_c, g_l);
        let ghost n2 = ids.next;
        proof {
            lemma_range(cache, &*d.node, low, n0, low, n2);
            assert(grown(lc.node, fork(ls, cs), op, news));
        }
        cnode(ids, op, lc, d, lbp, g_a, g_p, g_fs, Ghost(i), Ghost(v), Ghost(k), g_c, g_l)
    } else {
        let (c1, c2) = children(&c, op, g_a, g_p, g_fs, Ghost(j), Ghost(v), g_c, g_l, Ghost(ids.next));
        let ghost w = j + flat(c1.node@, op).len();
        assert(c1.ok(a, p, op, fs, j, w) && c2.ok(a, p, op, fs, w, v));
        let ghost (c1s, c2s) = match cs {
            Spine::Fork(_, c, d) => (*c, *d),
            _ => (cs, cs),
        };
        proof {
            lemma_grown_parts(c.node, cs, op, news, c1.node, c2.node);
        }
        let lc1 = cnode(ids, op, l, c1, lbp, g_a, g_p, g_fs, Ghost(i), Ghost(j), Ghost(w), g_c, g_l);
        let ghost n2 = ids.next;
        proof {
            lemma_range(cache, &*c2.node, low, n0, low, n2);
            lemma_range(cache, &*d.node, low, n0, low, n2);
            assert(grown(lc1.node, fork(ls, c1s), op, news));
        }
        let c2d = cnode(ids, op, c2, d, lbp, g_a, g_p, g_fs, Ghost(w), Ghost(v), Ghost(k), g_c, g_l);
        let ghost n3 = ids.next;
        proof {
            lemma_range(cache, &*lc1.node, low, n2, low, n3);
            assert(grown(c2d.node, fork(c2s, ds), op, news));
        }
        cnode(ids, op, lc1, c2d, lbp, g_a, g_p, g_fs, Ghost(i), Ghost(w), Ghost(k), g_c, g_l)
    }
}

/// Two adjacent pieces under one node; where the left one is too heavy, part
/// of it goes over.
#[verifier::rlimit(30)]
fn join_leaning_right<'a>(
    ids: &mut IdSource,
    op: TokenKind,
    l: Piece,
    r: Piece,
    lbp: u32,
    Ghost(a): Ghost<Seq<Tok>>,
    Ghost(p): Ghost<int>,
    Ghost(fs): Ghost<Seq<Form>>,
    Ghost(i): Ghost<int>,
    Ghost(j): Ghost<int>,
    Ghost(k): Ghost<int>,
    Ghost(cache): Ghost<Option<&'a ReuseCache>>,
    Ghost(low): Ghost<u64>,
    Ghost(ls): Ghost<Spine>,
    Ghost(rs): Ghost<Spine>,
    Ghost(news): Ghost<Seq<Arc<Node>>>,
) -> (res: Piece)
    requires
        chain_place(a, p, op, fs),
        lbp == lbp_of(op),
        l.ok(a, p, op, fs, i, j),
        r.ok(a, p, op, fs, j, k),
        grown(l.node, ls, op, news),
        grown(r.node, rs, op, news),
        low <= old(ids).next,
        minted(cache, &*l.node, low, old(ids).next),
        minted(cache, &*r.node, low, old(ids).next),
        apart(cache, &*l.node, &*r.node),
        j - i >= 2,
    ensures
        old(ids).next <= final(ids).next,
        old(ids).next == 0 ==> final(ids).next == 0,
        built(cache, &*res.node, low, final(ids).next),
        minted(cache, &*res.node, low, final(ids).next),
        forall|id: u64| #[trigger]
            mints(cache, &*res.node, id) ==> old(ids).next <= id < final(ids).next || mints(
                cache,
                &*l.node,
                id,
            ) || mints(cache, &*r.node, id),
        grown(res.node, lean_right(ls, rs), op, news),
        res.ok(a, p, op, fs, i, k),
        res.node.m_spine == lbp,
        res.node.stop_lbp == lbp,
        res.node.m_floor == lbp - 1,
        is_bin(res.node@, op),
{
    let g_a = Ghost(a);
    let g_p = Ghost(p);
    let g_fs = Ghost(fs);
    let g_c = Ghost(cache);
    let g_l = Ghost(low);
    let ghost n0 = ids.next;
    proof {
        lemma_range(cache, &*l.node, low, n0, low, n0);
        lemma_range(cache, &*r.node, low, n0, low, n0);
        lemma_grown(l.node, ls, op, news);
        lemma_grown(r.node, rs, op, news);
    }
    let sl: u32 = size(&l, op, g_a, g_p, g_fs, Ghost(i), Ghost(j));
    let sr: u32 = size(&r, op, g_a, g_p, g_fs, Ghost(j), Ghost(k));
    if balanced(sl, sr) {
        return cnode(ids, op, l, r, lbp, g_a, g_p, g_fs, Ghost(i), Ghost(j), Ghost(k), g_c, g_l);
    }
    let (c, d) = children(&l, op, g_a, g_p, g_fs, Ghost(i), Ghost(j), g_c, g_l, Ghost(ids.next));
    let ghost v = i + flat(c.node@, op).len();
    assert(c.ok(a, p, op, fs, i, v) && d.ok(a, p, op, fs, v, j));
    let ghost (cs, ds) = match ls {
        Spine::Fork(_, c, d) => (*c, *d),
        _ => (ls, ls),
    };
    proof {
        lemma_grown(c.node, cs, op, news);
        lemma_grown(d.node, ds, op, news);
    }
    let sc: u32 = size(&c, op, g_a, g_p, g_fs, Ghost(i), Ghost(v));
    let sd: u32 = size(&d, op, g_a, g_p, g_fs, Ghost(v), Ghost(j));
    if (sd as u64) < 2 * (sc as u64) {
        let dr = cnode(ids, op, d, r, lbp, g_a, g_p, g_fs, Ghost(v), Ghost(j), Ghost(k), g_c, g_l);
        let ghost n2 = ids.next;
        proof {
            lemma_range(cache, &*c.node, low, n0, low, n2);
            assert(grown(dr.node, fork(ds, rs), op, news));
        }
        cnode(ids, op, c, dr, lbp, g_a, g_p, g_fs, Ghost(i), Ghost(v), Ghost(k), g_c, g_l)
    } else {
        let (d1, d2) = children(&d, op, g_a, g_p, g_fs, Ghost(v), Ghost(j), g_c, g_l, Ghost(ids.next));
        let ghost w = v + flat(d1.node@, op).len();
        assert(d1.ok(a, p, op, fs, v, w) && d2.ok(a, p, op, fs, w, j));
        let ghost (d1s, d2s) = match ds {
            Spine::Fork(_, c, d) => (*c, *d),
            _ => (ds, ds),
        };
        proof {
            lemma_grown_parts(d.node, ds, op, news, d1.node, d2.node);
        }
        let cd1 = cnode(ids, op, c, d1, lbp, g_a, g_p, g_fs, Ghost(i), Ghost(v), Ghost(w), g_c, g_l);
        let ghost n2 = ids.next;
        proof {
            lemma_range(cache, &*d2.node, low, n0, low, n2);
            lemma_range(cache, &*r.node, low, n0, low, n2);
            assert(grown(cd1.node, fork(cs, d1s), op, news));
        }
        let d2r = cnode(ids, op, d2, r, lbp, g_a, g_p, g_fs, Ghost(w), Ghost(j), Ghost(k), g_c, g_l);
        let ghost n3 = ids.next;
        proof {
            lemma_range(cache, &*cd1.node, low, n2, low, n3);
            assert(grown(d2r.node, fork(d2s, rs), op, news));
        }
        cnode(ids, op, cd1, d2r, lbp, g_a, g_p, g_fs, Ghost(i), Ghost(w), Ghost(k), g_c, g_l)
    }
}

/// Concatenate two adjacent pieces. Where one is much heavier than the other,
/// the lighter one goes down the heavier one's edge.
#[verifier::rlimit(30)]
fn join<'a>(
    ids: &mut IdSource,
    op: TokenKind,
    l: Piece,
    r: Piece,
    lbp: u32,
    Ghost(a): Ghost<Seq<Tok>>,
    Ghost(p): Ghost<int>,
    Ghost(fs): Ghost<Seq<Form>>,
    Ghost(i): Ghost<int>,
    Ghost(j): Ghost<int>,
    Ghost(k): Ghost<int>,
    Ghost(cache): Ghost<Option<&'a ReuseCache>>,
    Ghost(low): Ghost<u64>,
    Ghost(ls): Ghost<Spine>,
    Ghost(rs): Ghost<Spine>,
    Ghost(news): Ghost<Seq<Arc<Node>>>,
) -> (res: Piece)
    requires
        chain_place(a, p, op, fs),
        lbp == lbp_of(op),
        l.ok(a, p, op, fs, i, j),
        r.ok(a, p, op, fs, j, k),
        grown(l.node, ls, op, news),
        grown(r.node, rs, op, news),
        low <= old(ids).next,
        minted(cache, &*l.node, low, old(ids).next),
        minted(cache, &*r.node, low, old(ids).next),
        apart(cache, &*l.node, &*r.node),
    ensures
        old(ids).next <= final(ids).next,
        old(ids).next == 0 ==> final(ids).next == 0,
        built(cache, &*res.node, low, final(ids).next),
        minted(cache, &*res.node, low, final(ids).next),
        forall|id: u64| #[trigger]
            mints(cache, &*res.node, id) ==> old(ids).next <= id < final(ids).next || mints(
                cache,
                &*l.node,
                id,
            ) || mints(cache, &*r.node, id),
        grown(res.node, concat(ls, rs), op, news),
        res.ok(a, p, op, fs, i, k),
        res.node.m_spine == lbp,
        res.node.stop_lbp == lbp,
        res.node.m_floor == lbp - 1,
        is_bin(res.node@, op),
    decreases k - i,
{
    let g_a = Ghost(a);
    let g_p = Ghost(p);
    let g_fs = Ghost(fs);
    let g_c = Ghost(cache);
    let g_l = Ghost(low);
    let ghost n0 = ids.next;
    proof {
        lemma_range(cache, &*l.node, low, n0, low, n0);
        lemma_range(cache, &*r.node, low, n0, low, n0);
        lemma_grown(l.node, ls, op, news);
        lemma_grown(r.node, rs, op, news);
    }
    let sl: u32 = size(&l, op, g_a, g_p, g_fs, Ghost(i), Ghost(j));
    let sr: u32 = size(&r, op, g_a, g_p, g_fs, Ghost(j), Ghost(k));
    if balanced(sl, sr) {
        return cnode(ids, op, l, r, lbp, g_a, g_p, g_fs, Ghost(i), Ghost(j), Ghost(k), g_c, g_l);
    }
    if sl > sr {
        let (x, y) = children(&l, op, g_a, g_p, g_fs, Ghost(i), Ghost(j), g_c, g_l, Ghost(ids.next));
        let ghost u = i + flat(x.node@, op).len();
        assert(x.ok(a, p, op, fs, i, u) && y.ok(a, p, op, fs, u, j));
        let ghost (xs, ys) = match ls {
            Spine::Fork(_, x, y) => (*x, *y),
            _ => (ls, ls),
        };
        let ny = join(ids, op, y, r, lbp, g_a, g_p, g_fs, Ghost(u), Ghost(j), Ghost(k), g_c, g_l, Ghost(ys), Ghost(rs), Ghost(news));
        let ghost n1 = ids.next;
        proof {
            lemma_range(cache, &*x.node, low, n0, low, n1);
        }
        join_leaning_left(ids, op, x, ny, lbp, g_a, g_p, g_fs, Ghost(i), Ghost(u), Ghost(k), g_c, g_l, Ghost(xs), Ghost(concat(ys, rs)), Ghost(news))
    } else {
        let (x, y) = children(&r, op, g_a, g_p, g_fs, Ghost(j), Ghost(k), g_c, g_l, Ghost(ids.next));
        let ghost u = j + flat(x.node@, op).len();
        assert(x.ok(a, p, op, fs, j, u) && y.ok(a, p, op, fs, u, k));
        let ghost (xs, ys) = match rs {
            Spine::Fork(_, x, y) => (*x, *y),
            _ => (rs, rs),
        };
        let nx = join(ids, op, l, x, lbp, g_a, g_p, g_fs, Ghost(i), Ghost(j), Ghost(u), g_c, g_l, Ghost(ls), Ghost(xs), Ghost(news));
        let ghost n1 = ids.next;
        proof {
            lemma_range(cache, &*y.node, low, n0, low, n1);
        }
        join_leaning_right(ids, op, nx, y, lbp, g_a, g_p, g_fs, Ghost(i), Ghost(u), Ghost(k), g_c, g_l, Ghost(concat(ls, xs)), Ghost(ys), Ghost(news))
    }
}

/// Number of operands in the first `k` units.
pub open spec fn cut(us: Seq<ChainOperand>, op: TokenKind, k: int) -> int
    decreases k,
{
    if 0 < k <= us.len() {
        cut(us, op, k - 1) + flat(us[k - 1].node@, op).len()
    } else {
        0
    }
}

/// First operand of unit `k` when unit 0 starts at operand `i`.
pub open spec fn off(us: Seq<ChainOperand>, op: TokenKind, i: int, k: int) -> int {
    i + cut(us, op, k)
}

/// `u` holds a tree of some operands from number `i` on.
pub open spec fn unit_ok(
    a: Seq<Tok>,
    p: int,
    op: TokenKind,
    fs: Seq<Form>,
    u: ChainOperand,
    i: int,
) -> bool {
    &&& part_ok(a, p, op, fs, *u.node, i, i + flat(u.node@, op).len())
    &&& u.start_byte == a[at(p, fs, i)].start
}

/// The units hold trees of operands `i..j`, in order.
pub open spec fn covers(
    a: Seq<Tok>,
    p: int,
    op: TokenKind,
    fs: Seq<Form>,
    us: Seq<ChainOperand>,
    i: int,
    j: int,
) -> bool {
    &&& off(us, op, i, us.len() as int) == j
    &&& forall|k: int| 0 <= k < us.len() ==> unit_ok(a, p, op, fs, us[k], #[trigger] off(us, op, i, k))
}

pub proof fn lemma_cut_prefix(us: Seq<ChainOperand>, vs: Seq<ChainOperand>, op: TokenKind, k: int)
    requires
        0 <= k <= us.len(),
        k <= vs.len(),
        forall|i: int| 0 <= i < k ==> us[i].node == vs[i].node,
    ensures
        cut(us, op, k) == cut(vs, op, k),
    decreases k,
{
    if k > 0 {
        lemma_cut_prefix(us, vs, op, k - 1);
    }
}

/// One more unit.
pub proof fn lemma_covers_push(
    a: Seq<Tok>,
    p: int,
    op: TokenKind,
    fs: Seq<Form>,
    us: Seq<ChainOperand>,
    u: ChainOperand,
    i: int,
    j: int,
)
    requires
        covers(a, p, op, fs, us, i, j),
        unit_ok(a, p, op, fs, u, j),
    ensures
        covers(a, p, op, fs, us.push(u), i, j + flat(u.node@, op).len()),
{
    let vs = us.push(u);
    let n = us.len() as int;
    assert forall|k: int| 0 <= k <= n implies cut(vs, op, k) == cut(us, op, k) by {
        lemma_cut_prefix(vs, us, op, k);
    }
    assert(cut(vs, op, n + 1) == cut(vs, op, n) + flat(u.node@, op).len());
    assert forall|k: int| 0 <= k < vs.len() implies unit_ok(
        a,
        p,
        op,
        fs,
        vs[k],
        #[trigger] off(vs, op, i, k),
    ) by {
        if k < n {
            assert(off(us, op, i, k) == off(vs, op, i, k));
            assert(vs[k] == us[k]);
        }
    }
}

/// Concatenate units in source order into one tree.
pub(crate) fn join_all<'a>(
    ids: &mut IdSource,
    op: TokenKind,
    units: &Vec<ChainOperand>,
    lbp: u32,
    Ghost(a): Ghost<Seq<Tok>>,
    Ghost(p): Ghost<int>,
    Ghost(fs): Ghost<Seq<Form>>,
    Ghost(cache): Ghost<Option<&'a ReuseCache>>,
    Ghost(low): Ghost<u64>,
    Ghost(ss): Ghost<Seq<Spine>>,
    Ghost(news): Ghost<Seq<Arc<Node>>>,
) -> (r: Arc<Node>)
    requires
        chain_place(a, p, op, fs),
        lbp == lbp_of(op),
        units@.len() >= 2,
        ss.len() == units@.len(),
        forall|k: int| 0 <= k < units@.len() ==> grown((#[trigger] units@[k]).node, ss[k], op, news),
        covers(a, p, op, fs, units@, 0, fs.len() as int),
        low <= old(ids).next,
        all_minted(cache, units@, low, old(ids).next),
    ensures
        old(ids).next <= final(ids).next,
        old(ids).next == 0 ==> final(ids).next == 0,
        built(cache, &*r, low, final(ids).next),
        grown(r, concat_upto(ss, ss.len() as int), op, news),
        part_ok(a, p, op, fs, *r, 0, fs.len() as int),
        is_bin(r@, op),
        r.m_spine == lbp,
        r.stop_lbp == lbp,
        r.m_floor == lbp - 1,
{
    proof {
        assert(off(units@, op, 0, 0) == 0);
        assert(unit_ok(a, p, op, fs, units@[0], off(units@, op, 0, 0)));
    }
    let mut acc = piece_of(&units[0], op, Ghost(a), Ghost(p), Ghost(fs), Ghost(0));
    let mut n: usize = 1;
    let ghost mut j: int = off(units@, op, 0, 1);
    assert(cut(units@, op, 1) == cut(units@, op, 0) + flat(units@[0].node@, op).len());
    proof {
        lemma_all_one(cache, units@, low, ids.next, 0);
        assert(forall|id: u64| #[trigger]
            mints(cache, &*acc.node, id) ==> drawn(cache, units@, 0, 1, id));
    }
    while n < units.len()
        invariant
            1 <= n <= units@.len(),
            chain_place(a, p, op, fs),
            lbp == lbp_of(op),
            covers(a, p, op, fs, units@, 0, fs.len() as int),
            j == off(units@, op, 0, n as int),
            acc.ok(a, p, op, fs, 0, j),
            ss.len() == units@.len(),
            forall|k: int|
                0 <= k < units@.len() ==> grown((#[trigger] units@[k]).node, ss[k], op, news),
            grown(acc.node, concat_upto(ss, n as int), op, news),
            low <= old(ids).next <= ids.next,
            old(ids).next == 0 ==> ids.next == 0,
            all_minted(cache, units@, low, old(ids).next),
            minted(cache, &*acc.node, low, ids.next),
            forall|id: u64| #[trigger]
                mints(cache, &*acc.node, id) ==> old(ids).next <= id < ids.next || drawn(
                    cache,
                    units@,
                    0,
                    n as int,
                    id,
                ),
            n >= 2 ==> {
                &&& built(cache, &*acc.node, low, ids.next)
                &&& is_bin(acc.node@, op)
                &&& acc.node.m_spine == lbp
                &&& acc.node.stop_lbp == lbp
                &&& acc.node.m_floor == lbp - 1
            },
        decreases units@.len() - n,
    {
        proof {
            assert(unit_ok(a, p, op, fs, units@[n as int], off(units@, op, 0, n as int)));
        }
        let next = piece_of(&units[n], op, Ghost(a), Ghost(p), Ghost(fs), Ghost(j));
        let ghost k = j + flat(units@[n as int].node@, op).len();
        let ghost n0 = ids.next;
        proof {
            lemma_all_one(cache, units@, low, old(ids).next, n as int);
            lemma_range(cache, &*next.node, low, old(ids).next, low, n0);
            assert(forall|id: u64| #[trigger]
                mints(cache, &*next.node, id) ==> drawn(cache, units@, n as int, n + 1, id));
            lemma_halves_apart(
                cache,
                units@,
                0,
                n as int,
                n + 1,
                &*acc.node,
                &*next.node,
                low,
                old(ids).next,
                n0,
                n0,
            );
        }
        let ghost before = acc.node;
        acc = join(
            ids,
            op,
            acc,
            next,
            lbp,
            Ghost(a),
            Ghost(p),
            Ghost(fs),
            Ghost(0),
            Ghost(j),
            Ghost(k),
            Ghost(cache),
            Ghost(low),
            Ghost(concat_upto(ss, n as int)),
            Ghost(ss[n as int]),
            Ghost(news),
        );
        proof {
            assert forall|id: u64| #[trigger] mints(cache, &*acc.node, id) implies old(ids).next <= id
                < ids.next || drawn(cache, units@, 0, n + 1, id) by {
                if mints(cache, &*next.node, id) {
                    assert(mints(cache, &*units@[n as int].node, id));
                } else if drawn(cache, units@, 0, n as int, id) {
                    let x = choose|x: int|
                        0 <= x < n && mints(cache, &*(#[trigger] units@[x]).node, id);
                    assert(mints(cache, &*units@[x].node, id));
                }
            }
            assert(cut(units@, op, n + 1) == cut(units@, op, n as int) + flat(
                units@[n as int].node@,
                op,
            ).len());
            j = k;
        }
        n = n + 1;
    }
    acc.node
}

fn piece_of(
    u: &ChainOperand,
    op: TokenKind,
    Ghost(a): Ghost<Seq<Tok>>,
    Ghost(p): Ghost<int>,
    Ghost(fs): Ghost<Seq<Form>>,
    Ghost(i): Ghost<int>,
) -> (r: Piece)
    requires
        chain_place(a, p, op, fs),
        unit_ok(a, p, op, fs, *u, i),
    ensures
        r.ok(a, p, op, fs, i, i + flat(u.node@, op).len()),
        r.node == u.node,
{
    proof {
        let j = i + flat(u.node@, op).len();
        lemma_list_bounds(a, p, fs, i, j);
        lemma_at_order(a, p, fs, i, j);
        lemma_part_tokens(u.node@, op, fs, i, j);
        assert(u.node.width == a[at(p, fs, j) - 2].end - a[at(p, fs, i)].start);
    }
    Piece { node: Arc::clone(&u.node), lo: u.start_byte, hi: u.start_byte + u.node.width }
}

} // verus!
