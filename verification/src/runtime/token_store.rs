//! A token stream kept as a treap. Tokens are stored by the gap before them
//! and their width, so a splice leaves the tokens after it as they are.

use vstd::prelude::*;

use crate::runtime::table::{Token, TokenKind};

verus! {

/// A token as stored: the bytes skipped before it and its own length.
#[derive(Clone, Copy, Debug, PartialEq, Eq, Structural)]
pub struct TokenSpec {
    pub kind: TokenKind,
    pub gap: u32,
    pub width: u32,
}

impl TokenSpec {
    /// Bytes from the end of the previous token to the end of this one.
    pub open spec fn reach(&self) -> nat {
        (self.gap + self.width) as nat
    }

    fn span(&self) -> (r: u64)
        ensures
            r == self.reach(),
    {
        self.gap as u64 + self.width as u64
    }
}

/// Bytes that a sequence of tokens takes.
pub open spec fn extent(s: Seq<TokenSpec>) -> nat
    decreases s.len(),
{
    if s.len() == 0 {
        0
    } else {
        extent(s.drop_last()) + s.last().reach()
    }
}

/// Token `i` with its position.
pub open spec fn placed_at(s: Seq<TokenSpec>, i: int) -> Token {
    Token {
        kind: s[i].kind,
        start: (extent(s.take(i)) + s[i].gap) as u32,
        end: (extent(s.take(i)) + s[i].reach()) as u32,
    }
}

/// The tokens with their positions.
pub open spec fn placed(s: Seq<TokenSpec>) -> Seq<Token> {
    Seq::new(s.len(), |i: int| placed_at(s, i))
}

/// The first token that ends past `byte`; the number of tokens if none does.
pub open spec fn first_past(s: Seq<TokenSpec>, byte: int) -> int
    decreases s.len(),
{
    if s.len() == 0 {
        0
    } else if byte < extent(s.drop_last()) {
        first_past(s.drop_last(), byte)
    } else if byte < extent(s) {
        s.len() - 1
    } else {
        s.len() as int
    }
}

pub proof fn lemma_extent_concat(a: Seq<TokenSpec>, b: Seq<TokenSpec>)
    ensures
        extent(a + b) == extent(a) + extent(b),
    decreases b.len(),
{
    if b.len() == 0 {
        assert(a + b =~= a);
    } else {
        assert((a + b).drop_last() =~= a + b.drop_last());
        lemma_extent_concat(a, b.drop_last());
    }
}

pub proof fn lemma_extent_take(s: Seq<TokenSpec>, i: int, j: int)
    requires
        0 <= i <= j <= s.len(),
    ensures
        extent(s.take(i)) <= extent(s.take(j)),
        extent(s.take(j)) <= extent(s),
{
    assert(s.take(j) =~= s.take(i) + s.subrange(i, j));
    lemma_extent_concat(s.take(i), s.subrange(i, j));
    assert(s =~= s.take(j) + s.skip(j));
    lemma_extent_concat(s.take(j), s.skip(j));
}

pub proof fn lemma_extent_one(x: TokenSpec)
    ensures
        extent(seq![x]) == x.reach(),
{
    reveal_with_fuel(extent, 2);
    assert(seq![x].drop_last() =~= Seq::<TokenSpec>::empty());
}

/// What `first_past` finds.
pub proof fn lemma_first_past(s: Seq<TokenSpec>, byte: int)
    requires
        0 <= byte,
    ensures
        0 <= first_past(s, byte) <= s.len(),
        first_past(s, byte) < s.len() ==> byte < extent(s.take(first_past(s, byte) + 1)),
        forall|k: int|
            0 <= k <= first_past(s, byte) ==> #[trigger] extent(s.take(k)) <= byte,
    decreases s.len(),
{
    if s.len() > 0 {
        let d = s.drop_last();
        lemma_first_past(d, byte);
        assert(s.take(s.len() as int) =~= s);
        assert(s.take(s.len() - 1) =~= d);
        let p = first_past(s, byte);
        if byte < extent(d) {
            if p == d.len() {
                assert(d.take(p) =~= d);
                assert(extent(d.take(p)) <= byte);
            }
            assert(s.take(p + 1) =~= d.take(p + 1));
            assert forall|k: int| 0 <= k <= p implies #[trigger] extent(s.take(k)) <= byte by {
                assert(s.take(k) =~= d.take(k));
            }
        } else {
            assert forall|k: int| 0 <= k <= p implies #[trigger] extent(s.take(k)) <= byte by {
                if k < s.len() {
                    lemma_extent_take(d, k, d.len() as int);
                    assert(s.take(k) =~= d.take(k));
                }
            }
        }
    } else {
        assert(s.take(0) =~= s);
    }
}

/// A token past `byte`, all before it not, is the first past it.
pub proof fn lemma_first_past_unique(s: Seq<TokenSpec>, byte: int, p: int)
    requires
        0 <= byte,
        0 <= p <= s.len(),
        extent(s.take(p)) <= byte,
        p < s.len() ==> byte < extent(s.take(p + 1)),
    ensures
        first_past(s, byte) == p,
{
    lemma_first_past(s, byte);
    let q = first_past(s, byte);
    if q < p {
        lemma_extent_take(s, q + 1, p);
    }
    if p < q {
        assert(extent(s.take(p + 1)) <= byte);
    }
}

// ---- The treap ---------------------------------------------------------

struct Node {
    spec: TokenSpec,
    prio: u64,
    size: u32,
    bytes: u64,
    l: Tree,
    r: Tree,
}

type Tree = Option<Box<Node>>;

/// The tokens of a tree, in order.
spec fn specs_of(t: Tree) -> Seq<TokenSpec>
    decreases t,
{
    match t {
        None => Seq::empty(),
        Some(n) => specs_of(n.l) + seq![n.spec] + specs_of(n.r),
    }
}

/// Counts and lengths are those of the tokens, and no node has a higher
/// priority than the one above it.
spec fn tree_ok(t: Tree) -> bool
    decreases t,
{
    match t {
        None => true,
        Some(n) => {
            &&& tree_ok(n.l)
            &&& tree_ok(n.r)
            &&& n.size == specs_of(t).len()
            &&& n.bytes == extent(specs_of(t))
            &&& top(n.l) <= n.prio
            &&& top(n.r) <= n.prio
        },
    }
}

/// The priority at the top of a tree.
spec fn top(t: Tree) -> int {
    match t {
        None => 0,
        Some(n) => n.prio as int,
    }
}

/// A sequence that fits in a tree.
pub open spec fn fits(s: Seq<TokenSpec>) -> bool {
    s.len() <= u32::MAX && extent(s) <= u64::MAX
}

proof fn lemma_node_extent(l: Seq<TokenSpec>, x: TokenSpec, r: Seq<TokenSpec>)
    ensures
        extent(l + seq![x] + r) == extent(l) + x.reach() + extent(r),
        (l + seq![x] + r).len() == l.len() + 1 + r.len(),
{
    lemma_extent_concat(l + seq![x], r);
    lemma_extent_concat(l, seq![x]);
    lemma_extent_one(x);
}

fn size(t: &Tree) -> (r: u32)
    requires
        tree_ok(*t),
    ensures
        r == specs_of(*t).len(),
{
    match t {
        None => 0,
        Some(n) => n.size,
    }
}

fn bytes(t: &Tree) -> (r: u64)
    requires
        tree_ok(*t),
    ensures
        r == extent(specs_of(*t)),
{
    match t {
        None => 0,
        Some(n) => n.bytes,
    }
}

/// A node of two trees.
fn update(spec: TokenSpec, prio: u64, l: Tree, r: Tree) -> (out: Box<Node>)
    requires
        tree_ok(l),
        tree_ok(r),
        fits(specs_of(l) + seq![spec] + specs_of(r)),
        top(l) <= prio,
        top(r) <= prio,
    ensures
        tree_ok(Some(out)),
        specs_of(Some(out)) == specs_of(l) + seq![spec] + specs_of(r),
        out.prio == prio,
{
    proof {
        lemma_node_extent(specs_of(l), spec, specs_of(r));
    }
    let size: u32 = 1 + size(&l) + size(&r);
    let bytes: u64 = spec.span() + bytes(&l) + bytes(&r);
    Box::new(Node { spec, prio, size, bytes, l, r })
}

/// One tree of two, the tokens of `a` before those of `b`.
fn merge(a: Tree, b: Tree) -> (out: Tree)
    requires
        tree_ok(a),
        tree_ok(b),
        fits(specs_of(a) + specs_of(b)),
    ensures
        tree_ok(out),
        specs_of(out) == specs_of(a) + specs_of(b),
        top(out) == top(a) || top(out) == top(b),
    decreases specs_of(a).len() + specs_of(b).len(),
{
    match a {
        None => {
            assert(specs_of(a) + specs_of(b) =~= specs_of(b));
            b
        },
        Some(na) => match b {
            None => {
                assert(specs_of(Some(na)) + specs_of(b) =~= specs_of(Some(na)));
                Some(na)
            },
            Some(nb) => {
                let ghost sa = specs_of(Some(na));
                let ghost sb = specs_of(Some(nb));
                if na.prio >= nb.prio {
                    let n = *na;
                    let ghost l = specs_of(n.l);
                    let ghost r = specs_of(n.r);
                    proof {
                        assert(sa == l + seq![n.spec] + r);
                        assert(sa + sb =~= l + seq![n.spec] + (r + sb));
                        lemma_node_extent(l, n.spec, r + sb);
                        lemma_node_extent(l, n.spec, r);
                    }
                    let r2 = merge(n.r, Some(nb));
                    Some(update(n.spec, n.prio, n.l, r2))
                } else {
                    let n = *nb;
                    let ghost l = specs_of(n.l);
                    let ghost r = specs_of(n.r);
                    proof {
                        assert(sb == l + seq![n.spec] + r);
                        assert(sa + sb =~= (sa + l) + seq![n.spec] + r);
                        lemma_node_extent(sa + l, n.spec, r);
                        lemma_node_extent(l, n.spec, r);
                    }
                    let l2 = merge(Some(na), n.l);
                    Some(update(n.spec, n.prio, l2, n.r))
                }
            },
        },
    }
}

proof fn lemma_split_left(l: Seq<TokenSpec>, x: TokenSpec, r: Seq<TokenSpec>, k: int)
    requires
        0 <= k <= l.len(),
        fits(l + seq![x] + r),
    ensures
        (l + seq![x] + r).take(k) == l.take(k),
        (l + seq![x] + r).skip(k) == l.skip(k) + seq![x] + r,
        fits(l.skip(k) + seq![x] + r),
{
    assert(l =~= l.take(k) + l.skip(k));
    lemma_extent_concat(l.take(k), l.skip(k));
    assert((l + seq![x] + r).take(k) =~= l.take(k));
    assert((l + seq![x] + r).skip(k) =~= l.skip(k) + seq![x] + r);
    lemma_node_extent(l.skip(k), x, r);
    lemma_node_extent(l, x, r);
}

proof fn lemma_split_right(l: Seq<TokenSpec>, x: TokenSpec, r: Seq<TokenSpec>, j: int)
    requires
        0 <= j <= r.len(),
        fits(l + seq![x] + r),
    ensures
        (l + seq![x] + r).take(l.len() + 1 + j) == l + seq![x] + r.take(j),
        (l + seq![x] + r).skip(l.len() + 1 + j) == r.skip(j),
        fits(l + seq![x] + r.take(j)),
{
    assert(r =~= r.take(j) + r.skip(j));
    lemma_extent_concat(r.take(j), r.skip(j));
    assert((l + seq![x] + r).take(l.len() + 1 + j) =~= l + seq![x] + r.take(j));
    assert((l + seq![x] + r).skip(l.len() + 1 + j) =~= r.skip(j));
    lemma_node_extent(l, x, r.take(j));
    lemma_node_extent(l, x, r);
}

/// The first `k` tokens, and the rest.
#[verifier::rlimit(40)]
fn split(t: Tree, k: u32) -> (out: (Tree, Tree))
    requires
        tree_ok(t),
        fits(specs_of(t)),
        k <= specs_of(t).len(),
    ensures
        tree_ok(out.0),
        tree_ok(out.1),
        specs_of(out.0) == specs_of(t).take(k as int),
        specs_of(out.1) == specs_of(t).skip(k as int),
        top(out.0) <= top(t),
        top(out.1) <= top(t),
    decreases specs_of(t).len(),
{
    match t {
        None => {
            assert(specs_of(t).take(0) =~= specs_of(t));
            assert(specs_of(t).skip(0) =~= specs_of(t));
            (None, None)
        },
        Some(b) => {
            let ghost all = specs_of(Some(b));
            let n = *b;
            let ghost l = specs_of(n.l);
            let ghost r = specs_of(n.r);
            proof {
                assert(all == l + seq![n.spec] + r);
                lemma_node_extent(l, n.spec, r);
            }
            let ls: u32 = size(&n.l);
            if k <= ls {
                let (x, y) = split(n.l, k);
                proof {
                    lemma_split_left(l, n.spec, r, k as int);
                }
                (x, Some(update(n.spec, n.prio, y, n.r)))
            } else {
                let j: u32 = k - ls - 1;
                let (x, y) = split(n.r, j);
                proof {
                    lemma_split_right(l, n.spec, r, j as int);
                }
                (Some(update(n.spec, n.prio, n.l, x)), y)
            }
        },
    }
}

/// The first token that ends past `byte`, where the tree starts at `base`.
fn idx_at_byte(t: &Tree, base: u64, byte: u64) -> (r: u32)
    requires
        tree_ok(*t),
        fits(specs_of(*t)),
        base <= byte,
        base + extent(specs_of(*t)) <= u64::MAX,
    ensures
        r == first_past(specs_of(*t), byte - base),
    decreases specs_of(*t).len(),
{
    match t {
        None => 0,
        Some(n) => {
            let ghost l = specs_of(n.l);
            let ghost r = specs_of(n.r);
            let ghost all = specs_of(*t);
            let ghost d = byte - base;
            proof {
                assert(all == l + seq![n.spec] + r);
                lemma_node_extent(l, n.spec, r);
                lemma_first_past(l, d);
                lemma_extent_one(n.spec);
                lemma_extent_concat(l, seq![n.spec]);
                assert(all.take(l.len() as int) =~= l);
                assert(all.take((l.len() + 1) as int) =~= l + seq![n.spec]);
            }
            let lb: u64 = bytes(&n.l);
            let through: u64 = base + lb + n.spec.span();
            if byte < base + lb {
                proof {
                    let p = first_past(l, d);
                    if p == l.len() {
                        assert(l.take(p) =~= l);
                        assert(extent(l.take(p)) <= d);
                    }
                    assert(all.take(p) =~= l.take(p));
                    assert(all.take(p + 1) =~= l.take(p + 1));
                    assert(extent(l.take(p)) <= d);
                    lemma_first_past_unique(all, d, p);
                }
                idx_at_byte(&n.l, base, byte)
            } else if byte < through {
                proof {
                    lemma_first_past_unique(all, d, l.len() as int);
                }
                size(&n.l)
            } else {
                let ghost e = byte - through;
                let ghost p = first_past(r, e);
                proof {
                    lemma_first_past(r, e);
                    assert(extent(r.take(p)) <= e);
                    assert(all.take(l.len() + 1 + p) =~= l + seq![n.spec] + r.take(p));
                    lemma_node_extent(l, n.spec, r.take(p));
                    if p < r.len() {
                        assert(all.take(l.len() + 1 + p + 1) =~= l + seq![n.spec] + r.take(p + 1));
                        lemma_node_extent(l, n.spec, r.take(p + 1));
                    }
                    lemma_first_past_unique(all, d, l.len() + 1 + p);
                }
                size(&n.l) + 1 + idx_at_byte(&n.r, through, byte)
            }
        },
    }
}

/// The token at index `i` of the tree, and the bytes before it, where the tree
/// starts at `base`.
fn find(t: &Tree, i: u32, base: u64) -> (r: Option<(TokenSpec, u64)>)
    requires
        tree_ok(*t),
        base + extent(specs_of(*t)) <= u64::MAX,
    ensures
        match r {
            Some((s, before)) => i < specs_of(*t).len() && s == specs_of(*t)[i as int] && before == base
                + extent(specs_of(*t).take(i as int)),
            None => i >= specs_of(*t).len(),
        },
    decreases specs_of(*t).len(),
{
    match t {
        None => None,
        Some(n) => {
            let ghost l = specs_of(n.l);
            let ghost r = specs_of(n.r);
            let ghost all = specs_of(*t);
            proof {
                assert(all == l + seq![n.spec] + r);
                lemma_node_extent(l, n.spec, r);
            }
            let ls: u32 = size(&n.l);
            if i < ls {
                assert(all.take(i as int) =~= l.take(i as int));
                find(&n.l, i, base)
            } else if i == ls {
                assert(all.take(i as int) =~= l);
                Some((n.spec, base + bytes(&n.l)))
            } else {
                let j: u32 = i - ls - 1;
                proof {
                    if j < r.len() {
                        assert(all.take(i as int) =~= l + seq![n.spec] + r.take(j as int));
                        lemma_node_extent(l, n.spec, r.take(j as int));
                    }
                }
                find(&n.r, j, base + bytes(&n.l) + n.spec.span())
            }
        },
    }
}

/// Append the tokens of the tree, which starts at `offset`.
fn collect(t: &Tree, offset: u64, out: &mut Vec<Token>, Ghost(done): Ghost<Seq<TokenSpec>>) -> (r: u64)
    requires
        tree_ok(*t),
        offset == extent(done),
        offset + extent(specs_of(*t)) <= u64::MAX,
        old(out)@ == placed(done),
    ensures
        r == offset + extent(specs_of(*t)),
        final(out)@ == placed(done + specs_of(*t)),
    decreases specs_of(*t).len(),
{
    match t {
        None => {
            assert(done + specs_of(*t) =~= done);
            offset
        },
        Some(n) => {
            let ghost l = specs_of(n.l);
            let ghost r = specs_of(n.r);
            proof {
                assert(specs_of(*t) == l + seq![n.spec] + r);
                lemma_node_extent(l, n.spec, r);
                lemma_extent_concat(done, l);
            }
            let mid: u64 = collect(&n.l, offset, out, Ghost(done));
            let start: u64 = mid + n.spec.gap as u64;
            let end: u64 = start + n.spec.width as u64;
            let ghost a = done + l;
            let ghost b = a.push(n.spec);
            out.push(Token { kind: n.spec.kind, start: start as u32, end: end as u32 });
            proof {
                assert(b.drop_last() =~= a);
                assert forall|i: int| 0 <= i < b.len() implies #[trigger] placed(b)[i] == out@[i] by {
                    if i < a.len() {
                        assert(b.take(i) =~= a.take(i));
                        assert(placed(a)[i] == placed_at(a, i));
                    } else {
                        assert(b.take(i) =~= a);
                    }
                }
                assert(out@ =~= placed(b));
                assert(b + r =~= done + specs_of(*t));
            }
            collect(&n.r, end, out, Ghost(b))
        },
    }
}

/// A token stream.
pub struct TokenStore {
    root: Tree,
    rng: u64,
}

impl View for TokenStore {
    type V = Seq<TokenSpec>;

    closed spec fn view(&self) -> Seq<TokenSpec> {
        specs_of(self.root)
    }
}

/// One step of the priority generator.
spec fn scrambled(x: u64) -> u64 {
    let a = x ^ (x >> 12);
    let b = a ^ (a << 25);
    b ^ (b >> 27)
}

impl TokenStore {
    pub closed spec fn wf(&self) -> bool {
        tree_ok(self.root) && fits(specs_of(self.root))
    }

    pub fn new() -> (r: TokenStore)
        ensures
            r.wf(),
            r@ == Seq::<TokenSpec>::empty(),
    {
        TokenStore { root: None, rng: 0x2545F4914F6CDD1D }
    }

    fn next_prio(&mut self) -> (r: u64)
        ensures
            final(self).rng == scrambled(old(self).rng),
            final(self).root == old(self).root,
            r == scrambled(old(self).rng).wrapping_mul(0x2545F4914F6CDD1D),
    {
        let mut x: u64 = self.rng;
        x = x ^ (x >> 12);
        x = x ^ (x << 25);
        x = x ^ (x >> 27);
        self.rng = x;
        x.wrapping_mul(0x2545F4914F6CDD1D)
    }

    /// A tree of one token.
    fn node(&mut self, spec: TokenSpec) -> (r: Tree)
        ensures
            final(self).root == old(self).root,
            tree_ok(r),
            specs_of(r) == seq![spec],
    {
        let prio: u64 = self.next_prio();
        proof {
            lemma_extent_one(spec);
            assert(Seq::<TokenSpec>::empty() + seq![spec] + Seq::<TokenSpec>::empty() =~= seq![spec]);
        }
        Some(update(spec, prio, None, None))
    }

    fn tree_from_specs(&mut self, specs: &[TokenSpec]) -> (r: Tree)
        requires
            fits(specs@),
        ensures
            final(self).root == old(self).root,
            tree_ok(r),
            specs_of(r) == specs@,
    {
        let mut t: Tree = None;
        let mut i: usize = 0;
        while i < specs.len()
            invariant
                i <= specs@.len(),
                fits(specs@),
                self.root == old(self).root,
                tree_ok(t),
                specs_of(t) =~= specs@.take(i as int),
            decreases specs@.len() - i,
        {
            let leaf = self.node(specs[i]);
            proof {
                assert(specs@.take(i as int) + seq![specs@[i as int]] =~= specs@.take(i + 1));
                lemma_extent_take(specs@, i as int, i + 1);
            }
            t = merge(t, leaf);
            i = i + 1;
        }
        assert(specs@.take(i as int) =~= specs@);
        t
    }

    /// The stream of tokens in order of position.
    pub fn from_tokens(tokens: &[Token]) -> (r: TokenStore)
        requires
            in_order(tokens@),
            tokens@.len() <= u32::MAX,
        ensures
            r.wf(),
            r@ == relative(tokens@),
            placed(r@) == tokens@,
    {
        let mut store = TokenStore::new();
        let mut specs: Vec<TokenSpec> = Vec::new();
        let mut prev_end: u32 = 0;
        let mut i: usize = 0;
        while i < tokens.len()
            invariant
                i <= tokens@.len(),
                in_order(tokens@),
                specs@ == relative(tokens@).take(i as int),
                prev_end == end_before(tokens@, i as int),
            decreases tokens@.len() - i,
        {
            let t: Token = tokens[i];
            specs.push(
                TokenSpec { kind: t.kind, gap: t.start - prev_end, width: t.end - t.start },
            );
            assert(specs@ =~= relative(tokens@).take(i + 1));
            prev_end = t.end;
            i = i + 1;
        }
        proof {
            assert(relative(tokens@).take(i as int) =~= relative(tokens@));
            lemma_relative(tokens@, tokens@.len() as int);
            law_placed_relative(tokens@);
        }
        store.root = store.tree_from_specs(specs.as_slice());
        store
    }

    pub fn len(&self) -> (r: usize)
        requires
            self.wf(),
        ensures
            r == self@.len(),
            r <= u32::MAX,
    {
        size(&self.root) as usize
    }

    pub fn is_empty(&self) -> (r: bool)
        ensures
            r == (self@.len() == 0),
    {
        self.root.is_none()
    }

    /// Bytes that the stream takes.
    pub fn byte_len(&self) -> (r: u64)
        requires
            self.wf(),
        ensures
            r == extent(self@),
    {
        bytes(&self.root)
    }

    /// The first token that ends past `byte`; the number of tokens if none
    /// does.
    pub fn index_at_byte(&self, byte: u64) -> (r: usize)
        requires
            self.wf(),
        ensures
            r == first_past(self@, byte as int),
            r <= self@.len(),
            r <= u32::MAX,
    {
        proof {
            lemma_first_past(self@, byte as int);
        }
        idx_at_byte(&self.root, 0, byte) as usize
    }

    /// Replace tokens `[lo, hi)` by `new`.
    pub fn splice(&mut self, lo: usize, hi: usize, new: &[TokenSpec])
        requires
            old(self).wf(),
            lo <= hi <= old(self)@.len(),
            fits(old(self)@.take(lo as int) + new@ + old(self)@.skip(hi as int)),
        ensures
            final(self).wf(),
            final(self)@ == old(self)@.take(lo as int) + new@ + old(self)@.skip(hi as int),
    {
        let ghost all = self@;
        let mut root: Tree = None;
        std::mem::swap(&mut root, &mut self.root);
        proof {
            lemma_extent_take(all, lo as int, hi as int);
            let a = all.take(lo as int);
            let c = all.skip(hi as int);
            lemma_extent_concat(a + new@, c);
            lemma_extent_concat(a, new@);
            assert(all.take(hi as int).take(lo as int) =~= a);
        }
        let (ab, c) = split(root, hi as u32);
        let (a, _mid) = split(ab, lo as u32);
        let mid = self.tree_from_specs(new);
        self.root = merge(merge(a, mid), c);
    }

    /// Token `i` with its position.
    pub fn get(&self, i: usize) -> (r: Option<Token>)
        requires
            self.wf(),
            i <= u32::MAX,
        ensures
            match r {
                Some(t) => i < self@.len() && t == placed_at(self@, i as int),
                None => i >= self@.len(),
            },
    {
        match find(&self.root, i as u32, 0) {
            Some((s, before)) => {
                proof {
                    lemma_extent_take(self@, i as int, i + 1);
                    assert(self@.take(i + 1) =~= self@.take(i as int) + seq![self@[i as int]]);
                    lemma_extent_concat(self@.take(i as int), seq![self@[i as int]]);
                    lemma_extent_one(self@[i as int]);
                }
                let start: u64 = before + s.gap as u64;
                Some(
                    Token { kind: s.kind, start: start as u32, end: (start + s.width as u64) as u32 },
                )
            },
            None => None,
        }
    }

    /// Token `i` as stored.
    pub fn spec_at(&self, i: usize) -> (r: Option<TokenSpec>)
        requires
            self.wf(),
            i <= u32::MAX,
        ensures
            match r {
                Some(s) => i < self@.len() && s == self@[i as int],
                None => i >= self@.len(),
            },
    {
        match find(&self.root, i as u32, 0) {
            Some((s, _)) => Some(s),
            None => None,
        }
    }

    /// All tokens with their positions.
    pub fn to_vec(&self) -> (r: Vec<Token>)
        requires
            self.wf(),
        ensures
            r@ == placed(self@),
    {
        let mut out: Vec<Token> = Vec::new();
        assert(out@ =~= placed(Seq::empty()));
        let _ = collect(&self.root, 0, &mut out, Ghost(Seq::empty()));
        assert(Seq::<TokenSpec>::empty() + self@ =~= self@);
        out
    }
}

impl Default for TokenStore {
    fn default() -> (r: TokenStore)
        ensures
            r.wf(),
            r@ == Seq::<TokenSpec>::empty(),
    {
        TokenStore::new()
    }
}

// ---- Positions ---------------------------------------------------------

/// Where the tokens before `i` end.
pub open spec fn end_before(ts: Seq<Token>, i: int) -> int {
    if i <= 0 {
        0
    } else {
        ts[i - 1].end as int
    }
}

/// Tokens follow one another.
pub open spec fn in_order(ts: Seq<Token>) -> bool {
    forall|i: int|
        0 <= i < ts.len() ==> end_before(ts, i) <= (#[trigger] ts[i]).start && ts[i].start
            <= ts[i].end
}

/// The tokens by their gaps and widths.
pub open spec fn relative(ts: Seq<Token>) -> Seq<TokenSpec> {
    Seq::new(
        ts.len(),
        |i: int|
            TokenSpec {
                kind: ts[i].kind,
                gap: (ts[i].start - end_before(ts, i)) as u32,
                width: (ts[i].end - ts[i].start) as u32,
            },
    )
}

pub proof fn lemma_relative(ts: Seq<Token>, i: int)
    requires
        in_order(ts),
        0 <= i <= ts.len(),
    ensures
        extent(relative(ts).take(i)) == end_before(ts, i),
    decreases i,
{
    let s = relative(ts);
    if i > 0 {
        lemma_relative(ts, i - 1);
        assert(s.take(i).drop_last() =~= s.take(i - 1));
        assert(s.take(i).last() == s[i - 1]);
        assert(end_before(ts, i - 1) <= ts[i - 1].start);
    } else {
        assert(s.take(0) =~= Seq::empty());
    }
}

proof fn lemma_placed_relative(ts: Seq<Token>, i: int)
    requires
        in_order(ts),
        0 <= i < ts.len(),
    ensures
        placed_at(relative(ts), i) == ts[i],
{
    lemma_relative(ts, i);
    let s = relative(ts)[i];
    assert(end_before(ts, i) <= ts[i].start && ts[i].start <= ts[i].end);
    assert(0 <= end_before(ts, i));
    assert(s.gap == ts[i].start - end_before(ts, i));
    assert(s.width == ts[i].end - ts[i].start);
}

/// Tokens stored by gap and width have their positions back.
pub proof fn law_placed_relative(ts: Seq<Token>)
    requires
        in_order(ts),
    ensures
        placed(relative(ts)) == ts,
        extent(relative(ts)) == end_before(ts, ts.len() as int),
{
    let s = relative(ts);
    assert(s.take(ts.len() as int) =~= s);
    lemma_relative(ts, ts.len() as int);
    assert forall|i: int| 0 <= i < ts.len() implies #[trigger] placed(s)[i] == ts[i] by {
        lemma_placed_relative(ts, i);
    }
    assert(placed(s) =~= ts);
}

/// The token found for a byte is the first that ends past it.
pub proof fn law_token_past(ts: Seq<Token>, byte: int)
    requires
        in_order(ts),
        0 <= byte,
    ensures
        ({
            let r = first_past(relative(ts), byte);
            &&& 0 <= r <= ts.len()
            &&& r < ts.len() ==> byte < ts[r].end
            &&& forall|i: int| 0 <= i < r ==> (#[trigger] ts[i]).end <= byte
        }),
{
    let s = relative(ts);
    let r = first_past(s, byte);
    lemma_first_past(s, byte);
    if r < ts.len() {
        lemma_relative(ts, r + 1);
    }
    assert forall|i: int| 0 <= i < r implies (#[trigger] ts[i]).end <= byte by {
        lemma_relative(ts, i + 1);
        assert(extent(s.take(i + 1)) <= byte);
    }
}

/// Replacing tokens leaves those before where they are, and moves those after
/// by the difference in length alone.
pub proof fn law_splice_moves(s: Seq<TokenSpec>, lo: int, hi: int, new: Seq<TokenSpec>, i: int)
    requires
        0 <= lo <= hi <= s.len(),
        0 <= i < lo || hi <= i < s.len(),
        extent(s) <= u32::MAX,
        extent(s.take(lo) + new + s.skip(hi)) <= u32::MAX,
    ensures
        ({
            let r = s.take(lo) + new + s.skip(hi);
            let j = if i < lo {
                i
            } else {
                i - (hi - lo) + new.len()
            };
            let by = if i < lo {
                0
            } else {
                extent(new) - extent(s.subrange(lo, hi))
            };
            &&& placed_at(r, j).kind == placed_at(s, i).kind
            &&& placed_at(r, j).start == placed_at(s, i).start + by
            &&& placed_at(r, j).end == placed_at(s, i).end + by
        }),
{
    let r = s.take(lo) + new + s.skip(hi);
    if i < lo {
        assert(r.take(i) =~= s.take(i));
        lemma_extent_take(s, i, i + 1);
        assert(s.take(i + 1) =~= s.take(i) + seq![s[i]]);
        lemma_extent_concat(s.take(i), seq![s[i]]);
        lemma_extent_one(s[i]);
    } else {
        let j = i - (hi - lo) + new.len();
        let m = s.subrange(hi, i);
        assert(r.take(j) =~= s.take(lo) + new + m);
        lemma_extent_concat(s.take(lo) + new, m);
        lemma_extent_concat(s.take(lo), new);
        assert(s.take(i) =~= s.take(lo) + s.subrange(lo, hi) + m);
        lemma_extent_concat(s.take(lo) + s.subrange(lo, hi), m);
        lemma_extent_concat(s.take(lo), s.subrange(lo, hi));
        lemma_extent_take(s, i, i + 1);
        assert(s.take(i + 1) =~= s.take(i) + seq![s[i]]);
        lemma_extent_concat(s.take(i), seq![s[i]]);
        lemma_extent_one(s[i]);
        lemma_extent_take(r, j, j + 1);
        assert(r[j] == s[i]);
        assert(r.take(j + 1) =~= r.take(j) + seq![r[j]]);
        lemma_extent_concat(r.take(j), seq![r[j]]);
    }
}

} // verus!
